//! The knot hash: a circular buffer holding a permutation of `0..=max`,
//! scrambled in place by reversing circular segments, and reduced to a
//! 16-byte-per-256-slots digest by XOR-folding blocks of sixteen values.

use vstd::prelude::*;

verus! {

use vstd::string::StringSliceAdditionalSpecFns;
use crate::text::hex_digit;
use crate::text::hex_str;

/// Mathematical state of a [`Ring`]: the stored values, the cursor, and the
/// skip counter.
#[verifier::ext_equal]
pub ghost struct RingView {
    pub values: Seq<u8>,
    pub position: nat,
    pub skip: nat,
}

impl RingView {
    /// A ring state is well formed when the cursor lies inside the buffer.
    pub open spec fn wf(self) -> bool {
        self.position < self.values.len()
    }
}

/// The contents of a fresh ring of `n` slots: the identity permutation
/// `[0, 1, ..., n - 1]`.
pub open spec fn init_values(n: nat) -> Seq<u8> {
    Seq::new(n, |i: int| i as u8)
}

/// The circular segment of `l` values starting at `pos`, reversed; everything
/// outside the segment is unchanged. Index `k` lies in the segment when its
/// circular offset from `pos` is below `l`, and then receives the value that
/// sat at the mirrored offset `l - 1 - off`.
pub open spec fn reversed_segment(values: Seq<u8>, pos: int, l: int) -> Seq<u8> {
    let n = values.len() as int;
    Seq::new(
        values.len(),
        |k: int|
            {
                let off = (k - pos) % n;
                if off < l {
                    values[(pos + l - 1 - off) % n]
                } else {
                    values[k]
                }
            },
    )
}

/// One step of the scrambling protocol: reverse the segment of length `l` at
/// the cursor, advance the cursor by `l` plus the skip counter (wrapping), and
/// increment the skip counter.
pub open spec fn step_spec(v: RingView, l: int) -> RingView {
    let n = v.values.len() as int;
    RingView {
        values: reversed_segment(v.values, v.position as int, l),
        position: ((v.position + v.skip + l) % n) as nat,
        skip: (v.skip + 1) as nat,
    }
}

/// The scrambling protocol over a whole length list, in list order.
pub open spec fn encode_spec(v: RingView, lengths: Seq<usize>) -> RingView
    decreases lengths.len(),
{
    if lengths.len() == 0 {
        v
    } else {
        encode_spec(step_spec(v, lengths[0] as int), lengths.drop_first())
    }
}

/// The circular offset of `j` from `p` lands back on offset `j`.
proof fn lemma_mod_offset(p: int, n: int, j: int)
    requires
        0 <= p < n,
        0 <= j < n,
    ensures
        ((p + j) % n - p) % n == j,
{
    if p + j < n {
        vstd::arithmetic::div_mod::lemma_small_mod((p + j) as nat, n as nat);
        vstd::arithmetic::div_mod::lemma_small_mod(j as nat, n as nat);
    } else {
        vstd::arithmetic::div_mod::lemma_mod_sub_multiples_vanish(p + j, n);
        vstd::arithmetic::div_mod::lemma_small_mod((p + j - n) as nat, n as nat);
        vstd::arithmetic::div_mod::lemma_mod_sub_multiples_vanish(j, n);
        vstd::arithmetic::div_mod::lemma_small_mod(j as nat, n as nat);
    }
}

/// Following the circular offset of `k` from `p` leads back to `k`.
proof fn lemma_index_unmod(p: int, n: int, k: int)
    requires
        0 <= p < n,
        0 <= k < n,
    ensures
        (p + ((k - p) % n)) % n == k,
{
    if k >= p {
        vstd::arithmetic::div_mod::lemma_small_mod((k - p) as nat, n as nat);
        vstd::arithmetic::div_mod::lemma_small_mod(k as nat, n as nat);
    } else {
        vstd::arithmetic::div_mod::lemma_mod_add_multiples_vanish(k - p, n);
        vstd::arithmetic::div_mod::lemma_small_mod((n + k - p) as nat, n as nat);
        vstd::arithmetic::div_mod::lemma_mod_sub_multiples_vanish(n + k, n);
        vstd::arithmetic::div_mod::lemma_small_mod(k as nat, n as nat);
    }
}

/// The value at index `k` after the first `j` swaps of the reversal of the
/// segment of length `l` at `pos`: offsets below `j` and the last `j` offsets
/// of the segment already hold their mirrored values, the rest is untouched.
spec fn partial_rev_at(s: Seq<u8>, pos: int, l: int, j: int, k: int) -> u8 {
    let n = s.len() as int;
    let off = (k - pos) % n;
    if off < j || (l - j <= off && off < l) {
        s[(pos + l - 1 - off) % n]
    } else {
        s[k]
    }
}

/// Processing one more length extends `encode_spec` by one `step_spec`.
proof fn lemma_encode_spec_snoc(v: RingView, lengths: Seq<usize>, i: int)
    requires
        0 <= i < lengths.len(),
    ensures
        encode_spec(v, lengths.take(i + 1)) == step_spec(
            encode_spec(v, lengths.take(i)),
            lengths[i] as int,
        ),
    decreases i,
{
    if i == 0 {
        assert(lengths.take(1).drop_first() =~= Seq::<usize>::empty());
        assert(lengths.take(0) =~= Seq::<usize>::empty());
        assert(lengths.take(1)[0] == lengths[0]);
        assert(encode_spec(step_spec(v, lengths[0] as int), Seq::<usize>::empty()) == step_spec(
            v,
            lengths[0] as int,
        ));
        assert(encode_spec(v, lengths.take(1)) == step_spec(v, lengths[0] as int));
        assert(encode_spec(v, lengths.take(0)) == v);
    } else {
        let rest = lengths.drop_first();
        let v1 = step_spec(v, lengths[0] as int);
        lemma_encode_spec_snoc(v1, rest, i - 1);
        assert(lengths.take(i + 1).drop_first() =~= rest.take(i));
        assert(lengths.take(i).drop_first() =~= rest.take(i - 1));
        assert(lengths.take(i + 1)[0] == lengths[0]);
        assert(lengths.take(i)[0] == lengths[0]);
        assert(rest[i - 1] == lengths[i]);
        assert(encode_spec(v, lengths.take(i + 1)) == encode_spec(v1, rest.take(i)));
        assert(encode_spec(v, lengths.take(i)) == encode_spec(v1, rest.take(i - 1)));
    }
}

/// XOR of the `len` values of `s` starting at index `start`.
pub open spec fn block_xor(s: Seq<u8>, start: int, len: int) -> u8
    decreases len,
{
    if len <= 0 {
        0u8
    } else {
        block_xor(s, start, len - 1) ^ s[start + len - 1]
    }
}

/// The dense digest of a ring's contents: the values split into contiguous
/// blocks of sixteen, each block folded into one byte by XOR.
pub open spec fn dense_bytes(s: Seq<u8>) -> Seq<u8> {
    Seq::new(s.len() / 16, |b: int| block_xor(s, 16 * b, 16))
}

/// Each byte rendered as exactly two lowercase hex digits, zero padded, in
/// byte order.
pub open spec fn hex_of_bytes(bytes: Seq<u8>) -> Seq<char> {
    Seq::new(
        bytes.len() * 2,
        |i: int|
            if i % 2 == 0 {
                hex_digit(bytes[i / 2] as int / 16)
            } else {
                hex_digit(bytes[i / 2] as int % 16)
            },
    )
}

/// Bit `j` of `v`, counting from the most significant bit.
pub open spec fn bit_of(v: u8, j: int) -> bool {
    (v >> ((7 - j) as u8)) & 1 == 1
}

/// Each byte expanded into its eight bits, most significant first, in byte
/// order.
pub open spec fn bits_of_bytes(bytes: Seq<u8>) -> Seq<bool> {
    Seq::new(bytes.len() * 8, |i: int| bit_of(bytes[i / 8], i % 8))
}

/// A circular buffer of `u8` values together with the cursor and skip counter
/// of the scrambling protocol. Created by [`Ring::new`], mutated in place by
/// [`Ring::encode`], and read out by [`Ring::first_two`], [`Ring::dense_hash`]
/// and [`Ring::dense_hash_bits`].
pub struct Ring {
    list: Vec<u8>,
    position: usize,
    skip_size: usize,
}

impl View for Ring {
    type V = RingView;

    closed spec fn view(&self) -> RingView {
        RingView {
            values: self.list@,
            position: self.position as nat,
            skip: self.skip_size as nat,
        }
    }
}

impl Ring {
    /// Whether the ring is well formed; true of every ring this module hands
    /// out, and preserved by every operation.
    pub open spec fn wf(&self) -> bool {
        self@.wf()
    }

    /// A fresh ring holding `[0, 1, ..., max_num]`, cursor at the start, skip
    /// counter at zero.
    pub fn new(max_num: u8) -> (r: Ring)
        ensures
            r.wf(),
            r@.values =~= init_values(max_num as nat + 1),
            r@.position == 0,
            r@.skip == 0,
    {
        let n: usize = max_num as usize + 1;
        let mut list: Vec<u8> = Vec::new();
        let mut i: usize = 0;
        while i < n
            invariant
                i <= n,
                n <= 256,
                list@.len() == i,
                forall|k: int| 0 <= k < i ==> list@[k] == k as u8,
            decreases n - i,
        {
            list.push(i as u8);
            i = i + 1;
        }
        Ring { list, position: 0, skip_size: 0 }
    }

    /// One scrambling pass over `lengths`, in list order: for each length,
    /// reverse the circular segment of that many values at the cursor, advance
    /// the cursor by the length plus the skip counter, and increment the skip
    /// counter. State persists across calls; nothing is reset.
    ///
    /// Each length must be at most the ring size; the skip counter must have
    /// room to grow without wrapping.
    pub fn encode(&mut self, lengths: &[usize])
        requires
            old(self).wf(),
            forall|i: int|
                0 <= i < lengths@.len() ==> #[trigger] lengths@[i] <= old(self)@.values.len(),
            old(self)@.skip + lengths@.len() + 2 * old(self)@.values.len() <= usize::MAX,
        ensures
            final(self).wf(),
            final(self)@ == encode_spec(old(self)@, lengths@),
    {
        let ghost v0 = self@;
        let n: usize = self.list.len();
        let mut idx: usize = 0;
        proof {
            assert(lengths@.take(0) =~= Seq::<usize>::empty());
        }
        while idx < lengths.len()
            invariant
                n == v0.values.len(),
                self.list@.len() == n,
                idx <= lengths@.len(),
                self.wf(),
                self@ =~= encode_spec(v0, lengths@.take(idx as int)),
                self.skip_size == v0.skip + idx,
                forall|i: int| 0 <= i < lengths@.len() ==> #[trigger] lengths@[i] <= n,
                v0.skip + lengths@.len() + 2 * n <= usize::MAX,
            decreases lengths@.len() - idx,
        {
            let l: usize = lengths[idx];
            let ghost vpre = self@;
            let ghost s0 = self.list@;
            let p: usize = self.position;
            let sk: usize = self.skip_size;
            let mut j: usize = 0;
            while j < l / 2
                invariant
                    self.list@.len() == n,
                    s0.len() == n,
                    p < n,
                    l <= n,
                    2 * n <= usize::MAX,
                    j <= l / 2,
                    self.position == p,
                    self.skip_size == sk,
                    forall|k: int|
                        0 <= k < n ==> self.list@[k] == partial_rev_at(
                            s0,
                            p as int,
                            l as int,
                            j as int,
                            k,
                        ),
                decreases l / 2 - j,
            {
                let from: usize = (p + j) % n;
                let to: usize = (p + l - 1 - j) % n;
                let a: u8 = self.list[from];
                let b: u8 = self.list[to];
                self.list.set(from, b);
                self.list.set(to, a);
                proof {
                    let ni: int = n as int;
                    let pi: int = p as int;
                    let li: int = l as int;
                    let ji: int = j as int;
                    lemma_mod_offset(pi, ni, ji);
                    lemma_mod_offset(pi, ni, li - 1 - ji);
                    assert forall|k: int|
                        0 <= k < ni implies self.list@[k] == partial_rev_at(
                        s0,
                        pi,
                        li,
                        ji + 1,
                        k,
                    ) by {
                        lemma_index_unmod(pi, ni, k);
                    }
                }
                j = j + 1;
            }
            proof {
                let ni: int = n as int;
                let pi: int = p as int;
                let li: int = l as int;
                assert forall|k: int|
                    0 <= k < ni implies self.list@[k] == reversed_segment(s0, pi, li)[k] by {
                    lemma_index_unmod(pi, ni, k);
                }
                assert(self.list@ =~= reversed_segment(s0, pi, li));
            }
            self.position = (self.position + l + self.skip_size) % n;
            self.skip_size = self.skip_size + 1;
            proof {
                lemma_encode_spec_snoc(v0, lengths@, idx as int);
                assert(self@ =~= step_spec(vpre, l as int));
            }
            idx = idx + 1;
        }
        proof {
            assert(lengths@.take(lengths@.len() as int) =~= lengths@);
        }
    }

    /// The product of the two values at the front of the buffer. Pure read.
    pub fn first_two(&self) -> (r: u16)
        requires
            self@.values.len() >= 2,
        ensures
            r == self@.values[0] as u16 * self@.values[1] as u16,
    {
        let a: u16 = self.list[0] as u16;
        let b: u16 = self.list[1] as u16;
        proof {
            vstd::arithmetic::mul::lemma_mul_upper_bound(a as int, 255, b as int, 255);
        }
        a * b
    }

    /// The dense digest as a lowercase hex string: the values split into
    /// blocks of sixteen, each block XOR-folded into one byte, each byte
    /// written as two zero-padded hex digits, in block order. Pure read;
    /// the ring length must be a multiple of sixteen.
    pub fn dense_hash(&self) -> (r: String)
        requires
            self@.values.len() % 16 == 0,
        ensures
            r@ == hex_of_bytes(dense_bytes(self@.values)),
    {
        let ghost s = self@.values;
        let n: usize = self.list.len();
        let blocks: usize = n / 16;
        let mut out: String = String::new();
        let mut b: usize = 0;
        while b < blocks
            invariant
                s == self@.values,
                n == s.len(),
                n == self.list@.len(),
                n % 16 == 0,
                blocks == n / 16,
                b <= blocks,
                out@ =~= hex_of_bytes(dense_bytes(s)).take(2 * b),
            decreases blocks - b,
        {
            let x: u8 = self.block_byte(b);
            out.append(hex_str(x / 16));
            out.append(hex_str(x % 16));
            proof {
                assert(dense_bytes(s)[b as int] == x);
                assert(out@ =~= hex_of_bytes(dense_bytes(s)).take(2 * (b + 1)));
            }
            b = b + 1;
        }
        proof {
            assert(hex_of_bytes(dense_bytes(s)).take(2 * blocks) =~= hex_of_bytes(
                dense_bytes(s),
            ));
        }
        out
    }

    /// The dense digest expanded bit by bit: each digest byte contributes its
    /// eight bits, most significant first, in block order. Pure read; the
    /// ring length must be a multiple of sixteen.
    pub fn dense_hash_bits(&self) -> (r: Vec<bool>)
        requires
            self@.values.len() % 16 == 0,
        ensures
            r@ == bits_of_bytes(dense_bytes(self@.values)),
    {
        let ghost s = self@.values;
        let n: usize = self.list.len();
        let blocks: usize = n / 16;
        let mut out: Vec<bool> = Vec::new();
        let mut b: usize = 0;
        while b < blocks
            invariant
                s == self@.values,
                n == s.len(),
                n == self.list@.len(),
                n % 16 == 0,
                blocks == n / 16,
                b <= blocks,
                out@ =~= bits_of_bytes(dense_bytes(s)).take(8 * b),
            decreases blocks - b,
        {
            let x: u8 = self.block_byte(b);
            proof {
                assert(dense_bytes(s)[b as int] == x);
            }
            let mut j: usize = 0;
            while j < 8
                invariant
                    s == self@.values,
                    n == s.len(),
                    blocks == n / 16,
                    b < blocks,
                    j <= 8,
                    x == dense_bytes(s)[b as int],
                    out@ =~= bits_of_bytes(dense_bytes(s)).take(8 * b + j),
                decreases 8 - j,
            {
                let sh: u8 = 7 - (j as u8);
                out.push((x >> sh) & 1 == 1);
                proof {
                    assert(bits_of_bytes(dense_bytes(s))[8 * b + j] == bit_of(x, j as int));
                    assert(out@ =~= bits_of_bytes(dense_bytes(s)).take(8 * b + j + 1));
                }
                j = j + 1;
            }
            b = b + 1;
        }
        proof {
            assert(bits_of_bytes(dense_bytes(s)).take(8 * blocks) =~= bits_of_bytes(
                dense_bytes(s),
            ));
        }
        out
    }

    /// XOR-fold of the `b`-th block of sixteen values.
    fn block_byte(&self, b: usize) -> (r: u8)
        requires
            self@.values.len() % 16 == 0,
            b < self@.values.len() / 16,
        ensures
            r == block_xor(self@.values, 16 * b, 16),
    {
        let n: usize = self.list.len();
        proof {
            vstd::arithmetic::div_mod::lemma_fundamental_div_mod(n as int, 16);
        }
        let start: usize = 16 * b;
        let mut acc: u8 = 0;
        let mut j: usize = 0;
        while j < 16
            invariant
                n == self.list@.len(),
                self@.values.len() == self.list@.len(),
                start == 16 * b,
                start + 16 <= n,
                j <= 16,
                acc == block_xor(self@.values, start as int, j as int),
            decreases 16 - j,
        {
            acc = acc ^ self.list[start + j];
            j = j + 1;
        }
        acc
    }
}

/// The fixed length-list suffix that the knot-hash driver appends to the
/// byte values of its input.
pub open spec fn knot_suffix() -> Seq<usize> {
    seq![17usize, 31usize, 73usize, 47usize, 23usize]
}

/// The length list the driver derives from an input: its bytes in order, then
/// the fixed suffix.
pub open spec fn lengths_of(bytes: Seq<u8>) -> Seq<usize> {
    bytes.map_values(|b: u8| b as usize) + knot_suffix()
}

/// `rounds` full scrambling passes over the same length list, state carried
/// across passes.
pub open spec fn knot_rounds(v: RingView, lengths: Seq<usize>, rounds: nat) -> RingView
    decreases rounds,
{
    if rounds == 0 {
        v
    } else {
        knot_rounds(encode_spec(v, lengths), lengths, (rounds - 1) as nat)
    }
}

/// The ring state the knot-hash driver produces for an input: 64 rounds over
/// a fresh 256-slot ring.
pub open spec fn knot_hash_spec(bytes: Seq<u8>) -> RingView {
    knot_rounds(
        RingView { values: init_values(256), position: 0, skip: 0 },
        lengths_of(bytes),
        64,
    )
}

/// One more round extends `knot_rounds` by one scrambling pass at the end.
proof fn lemma_knot_rounds_snoc(v: RingView, lengths: Seq<usize>, r: nat)
    ensures
        knot_rounds(v, lengths, r + 1) == encode_spec(knot_rounds(v, lengths, r), lengths),
    decreases r,
{
    let e = encode_spec(v, lengths);
    if r == 0 {
        assert(knot_rounds(v, lengths, 1) == knot_rounds(e, lengths, 0));
        assert(knot_rounds(e, lengths, 0) == e);
        assert(knot_rounds(v, lengths, 0) == v);
    } else {
        lemma_knot_rounds_snoc(e, lengths, (r - 1) as nat);
        assert(knot_rounds(v, lengths, r + 1) == knot_rounds(e, lengths, r));
        assert(knot_rounds(v, lengths, r) == knot_rounds(e, lengths, (r - 1) as nat));
    }
}

/// A scrambling pass keeps the ring well formed and the buffer size fixed,
/// and grows the skip counter by exactly one per length processed — whatever
/// the lengths are, including zero lengths.
pub proof fn lemma_encode_spec_frame(v: RingView, lengths: Seq<usize>)
    requires
        v.wf(),
    ensures
        encode_spec(v, lengths).wf(),
        encode_spec(v, lengths).values.len() == v.values.len(),
        encode_spec(v, lengths).skip == v.skip + lengths.len(),
    decreases lengths.len(),
{
    if lengths.len() > 0 {
        let v1 = step_spec(v, lengths[0] as int);
        let n = v.values.len() as int;
        vstd::arithmetic::div_mod::lemma_mod_bound(
            v.position + v.skip + lengths[0] as int,
            n,
        );
        lemma_encode_spec_frame(v1, lengths.drop_first());
    }
}

/// The contents after the first `j` swaps of a segment reversal.
spec fn partial_rev(s: Seq<u8>, pos: int, l: int, j: int) -> Seq<u8> {
    Seq::new(s.len(), |k: int| partial_rev_at(s, pos, l, j, k))
}

/// Each swap of a segment reversal preserves the multiset of values.
proof fn lemma_partial_rev_multiset(s: Seq<u8>, pos: int, l: int, j: int)
    requires
        0 <= pos < s.len(),
        0 <= l <= s.len(),
        0 <= j <= l / 2,
    ensures
        partial_rev(s, pos, l, j).to_multiset() == s.to_multiset(),
    decreases j,
{
    broadcast use vstd::multiset::group_multiset_axioms;
    broadcast use vstd::seq_lib::group_to_multiset_ensures;

    let n = s.len() as int;
    if j == 0 {
        assert(partial_rev(s, pos, l, 0) =~= s);
    } else {
        lemma_partial_rev_multiset(s, pos, l, j - 1);
        let prev = partial_rev(s, pos, l, j - 1);
        let from = (pos + (j - 1)) % n;
        let to = (pos + l - 1 - (j - 1)) % n;
        lemma_mod_offset(pos, n, j - 1);
        lemma_mod_offset(pos, n, l - 1 - (j - 1));
        vstd::arithmetic::div_mod::lemma_mod_bound(pos + (j - 1), n);
        vstd::arithmetic::div_mod::lemma_mod_bound(pos + l - 1 - (j - 1), n);
        let va = prev[from];
        let vb = prev[to];
        let u1 = prev.update(from, vb);
        let u2 = u1.update(to, va);
        assert(u2 =~= partial_rev(s, pos, l, j)) by {
            assert forall|k: int| 0 <= k < n implies u2[k] == partial_rev_at(
                s,
                pos,
                l,
                j,
                k,
            ) by {
                lemma_index_unmod(pos, n, k);
            }
        }
        vstd::seq_lib::to_multiset_update(prev, from, vb);
        vstd::seq_lib::to_multiset_update(u1, to, va);
        assert(u1[to] == vb);
        assert(prev.to_multiset().contains(va));
        assert(u2.to_multiset() =~= prev.to_multiset());
    }
}

/// Reversing a circular segment of at most the buffer's size only reorders
/// the buffer's values.
proof fn lemma_reversed_segment_multiset(s: Seq<u8>, pos: int, l: int)
    requires
        0 <= pos < s.len(),
        0 <= l <= s.len(),
    ensures
        reversed_segment(s, pos, l).to_multiset() == s.to_multiset(),
{
    let n = s.len() as int;
    lemma_partial_rev_multiset(s, pos, l, l / 2);
    assert(reversed_segment(s, pos, l) =~= partial_rev(s, pos, l, l / 2)) by {
        assert forall|k: int|
            0 <= k < n implies reversed_segment(s, pos, l)[k] == partial_rev_at(
            s,
            pos,
            l,
            l / 2,
            k,
        ) by {
            lemma_index_unmod(pos, n, k);
        }
    }
}

/// Permutation invariant: a scrambling pass with valid lengths never changes
/// the multiset of the ring's values — elements are only reordered, never
/// created, duplicated, or dropped.
pub proof fn lemma_encode_spec_permutes(v: RingView, lengths: Seq<usize>)
    requires
        v.wf(),
        forall|i: int| 0 <= i < lengths.len() ==> #[trigger] lengths[i] <= v.values.len(),
    ensures
        encode_spec(v, lengths).values.to_multiset() == v.values.to_multiset(),
        encode_spec(v, lengths).values.len() == v.values.len(),
    decreases lengths.len(),
{
    if lengths.len() > 0 {
        let v1 = step_spec(v, lengths[0] as int);
        let n = v.values.len() as int;
        lemma_reversed_segment_multiset(v.values, v.position as int, lengths[0] as int);
        vstd::arithmetic::div_mod::lemma_mod_bound(
            v.position + v.skip + lengths[0] as int,
            n,
        );
        assert forall|i: int|
            0 <= i < lengths.drop_first().len() implies #[trigger] lengths.drop_first()[i]
            <= v1.values.len() by {
            assert(lengths.drop_first()[i] == lengths[i + 1]);
        }
        lemma_encode_spec_permutes(v1, lengths.drop_first());
    }
}

/// Statefulness: scrambling passes compound. One pass over `l1` followed by
/// one over `l2` leaves exactly the state of a single pass over their
/// concatenation; nothing is reset between calls.
pub proof fn lemma_encode_spec_append(v: RingView, l1: Seq<usize>, l2: Seq<usize>)
    ensures
        encode_spec(v, l1 + l2) == encode_spec(encode_spec(v, l1), l2),
    decreases l1.len(),
{
    if l1.len() == 0 {
        assert(l1 + l2 =~= l2);
    } else {
        assert((l1 + l2).drop_first() =~= l1.drop_first() + l2);
        assert((l1 + l2)[0] == l1[0]);
        lemma_encode_spec_append(step_spec(v, l1[0] as int), l1.drop_first(), l2);
    }
}

/// Re-derivation is stable: both dense digests are pure functions of the
/// ring's current values, so reading either twice without an intervening
/// scrambling pass yields identical results.
pub proof fn lemma_dense_digest_rederivation(v1: RingView, v2: RingView)
    requires
        v1.values == v2.values,
    ensures
        hex_of_bytes(dense_bytes(v1.values)) == hex_of_bytes(dense_bytes(v2.values)),
        bits_of_bytes(dense_bytes(v1.values)) == bits_of_bytes(dense_bytes(v2.values)),
{
}

/// Rounds preserve the permutation too: after any number of rounds over
/// valid lengths, the ring still holds a permutation of what it started
/// with.
pub proof fn lemma_knot_rounds_permutes(v: RingView, lengths: Seq<usize>, rounds: nat)
    requires
        v.wf(),
        forall|i: int| 0 <= i < lengths.len() ==> #[trigger] lengths[i] <= v.values.len(),
    ensures
        knot_rounds(v, lengths, rounds).values.to_multiset() == v.values.to_multiset(),
        knot_rounds(v, lengths, rounds).values.len() == v.values.len(),
        knot_rounds(v, lengths, rounds).wf(),
    decreases rounds,
{
    if rounds > 0 {
        lemma_encode_spec_permutes(v, lengths);
        lemma_encode_spec_frame(v, lengths);
        lemma_knot_rounds_permutes(encode_spec(v, lengths), lengths, (rounds - 1) as nat);
    }
}

/// The knot-hash driver's ring always holds a permutation of `0..=255`.
pub proof fn lemma_knot_hash_spec_permutes(bytes: Seq<u8>)
    ensures
        knot_hash_spec(bytes).values.to_multiset() == init_values(256).to_multiset(),
        knot_hash_spec(bytes).values.len() == 256,
{
    let v = RingView { values: init_values(256), position: 0, skip: 0 };
    let lengths = lengths_of(bytes);
    assert forall|i: int| 0 <= i < lengths.len() implies #[trigger] lengths[i] <= 256 by {
        if i < bytes.len() {
            assert(lengths[i] == bytes[i] as usize);
        } else {
            assert(lengths[i] == knot_suffix()[i - bytes.len()]);
        }
    }
    lemma_knot_rounds_permutes(v, lengths, 64);
}

/// The knot-hash driver: build the length list from the input's byte values
/// followed by the fixed suffix, then run 64 scrambling passes over a fresh
/// 256-slot ring, cursor and skip state carried across all passes.
pub fn knot_hash(input: &str) -> (r: Ring)
    requires
        64 * (input.spec_bytes().len() + 5) + 512 <= usize::MAX,
    ensures
        r.wf(),
        r@ == knot_hash_spec(input.spec_bytes()),
        r@.values.len() == 256,
{
    let bytes: &[u8] = input.as_bytes();
    let mut lengths: Vec<usize> = Vec::new();
    let mut i: usize = 0;
    while i < bytes.len()
        invariant
            bytes@ == input.spec_bytes(),
            i <= bytes@.len(),
            lengths@.len() == i,
            forall|k: int| 0 <= k < i ==> lengths@[k] == bytes@[k] as usize,
        decreases bytes@.len() - i,
    {
        let b: u8 = bytes[i];
        lengths.push(b as usize);
        i = i + 1;
    }
    lengths.push(17);
    lengths.push(31);
    lengths.push(73);
    lengths.push(47);
    lengths.push(23);
    proof {
        assert(lengths@ =~= lengths_of(input.spec_bytes()));
    }
    let mut ring = Ring::new(255);
    let ghost v_init = ring@;
    let ghost ll = lengths@;
    proof {
        assert(v_init =~= RingView { values: init_values(256), position: 0, skip: 0 });
    }
    let mut round: usize = 0;
    while round < 64
        invariant
            ring.wf(),
            ll == lengths@,
            ll == lengths_of(input.spec_bytes()),
            ll.len() == input.spec_bytes().len() + 5,
            forall|k: int| 0 <= k < ll.len() ==> #[trigger] ll[k] <= 256,
            round <= 64,
            ring@ == knot_rounds(v_init, ll, round as nat),
            ring@.values.len() == 256,
            ring@.skip == round * ll.len(),
            v_init == (RingView { values: init_values(256), position: 0, skip: 0 }),
            64 * ll.len() + 512 <= usize::MAX,
        decreases 64 - round,
    {
        proof {
            vstd::arithmetic::mul::lemma_mul_inequality(round as int, 63, ll.len() as int);
        }
        let ghost pre = ring@;
        ring.encode(lengths.as_slice());
        proof {
            lemma_knot_rounds_snoc(v_init, ll, round as nat);
            lemma_encode_spec_frame(pre, ll);
            assert((round + 1) * ll.len() == round * ll.len() + ll.len()) by (nonlinear_arith);
        }
        round = round + 1;
    }
    ring
}

} // verus!
