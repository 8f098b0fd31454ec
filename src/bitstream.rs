//! Sequential extraction and injection of N-bit fields within a 128-bit block.
use vstd::arithmetic::div_mod::{
    lemma_div_denominator, lemma_fundamental_div_mod, lemma_fundamental_div_mod_converse,
    lemma_mod_bound, lemma_div_pos_is_pos,
};
use vstd::arithmetic::mul::{lemma_mul_inequality, lemma_mul_is_commutative, lemma_mul_nonnegative};
use vstd::arithmetic::power2::{lemma2_to64, lemma_pow2_adds, lemma_pow2_pos, pow2};
use vstd::bits::lemma_u128_shr_is_div;
use vstd::prelude::*;

verus! {

/// The `width` bits of `x` that start at bit `offset` (bit 0 is the least significant).
pub open spec fn field_at(x: nat, offset: nat, width: nat) -> nat {
    (x / pow2(offset)) % pow2(width)
}

/// Packs `vals` into one number: the first value in the lowest bits, each value cut to
/// its width, the next value starting right above it.
pub open spec fn pack(vals: Seq<nat>, widths: Seq<nat>) -> nat
    decreases vals.len(),
{
    if vals.len() == 0 || widths.len() == 0 {
        0
    } else {
        vals[0] % pow2(widths[0]) + pow2(widths[0]) * pack(vals.drop_first(), widths.drop_first())
    }
}

/// Reads fields of the given widths from `x`, lowest bits first.
pub open spec fn unpack(x: nat, widths: Seq<nat>) -> Seq<nat>
    decreases widths.len(),
{
    if widths.len() == 0 {
        Seq::empty()
    } else {
        seq![x % pow2(widths[0])] + unpack(x / pow2(widths[0]), widths.drop_first())
    }
}

/// Sum of the widths: the number of bits that a packed sequence occupies.
pub open spec fn total_width(widths: Seq<nat>) -> nat
    decreases widths.len(),
{
    if widths.len() == 0 {
        0
    } else {
        widths[0] + total_width(widths.drop_first())
    }
}

/// Every value fits in the width given for it.
pub open spec fn fits(vals: Seq<nat>, widths: Seq<nat>) -> bool {
    vals.len() == widths.len() && forall|i: int| 0 <= i < vals.len() ==> vals[i] < pow2(#[trigger] widths[i])
}

pub proof fn lemma_pow2_128()
    ensures
        pow2(128) == u128::MAX + 1,
        pow2(64) == 0x1_0000_0000_0000_0000,
{
    lemma2_to64();
    lemma_pow2_adds(64, 64);
}

/// `1 << n` computes 2 to the power `n` for every shift a `u128` admits.
pub proof fn lemma_shl_one(n: u32)
    requires
        n < 128,
    ensures
        (1u128 << n) as nat == pow2(n as nat),
    decreases n,
{
    if n == 0 {
        assert(1u128 << 0u32 == 1u128) by (bit_vector);
        lemma2_to64();
    } else {
        let m: u32 = (n - 1) as u32;
        assert((1u128 << n) == vstd::prelude::add(1u128 << m, 1u128 << m) && (1u128 << m) < 0x8000_0000_0000_0000_0000_0000_0000_0000u128)
            by (bit_vector)
            requires
                m < 127,
                n == m + 1,
        ;
        lemma_shl_one(m);
        lemma_pow2_adds(m as nat, 1);
        lemma2_to64();
    }
}

/// Taking `a` then `b` bits from `x / 2^o` leaves `x / 2^(o + a + b)`.
pub proof fn lemma_div_pow2_step(x: nat, offset: nat, width: nat)
    ensures
        (x / pow2(offset)) / pow2(width) == x / pow2(offset + width),
{
    lemma_pow2_pos(offset);
    lemma_pow2_pos(width);
    lemma_div_denominator(x as int, pow2(offset) as int, pow2(width) as int);
    lemma_pow2_adds(offset, width);
}

/// Removes the lowest `bits` bits of `*value` and returns them.
pub fn take_bits(value: &mut u128, bits: u32) -> (r: u128)
    requires
        1 <= bits <= 128,
    ensures
        r as nat == *old(value) as nat % pow2(bits as nat),
        *final(value) as nat == *old(value) as nat / pow2(bits as nat),
{
    if bits == 128 {
        let r = *value;
        *value = 0;
        proof {
            lemma_pow2_128();
        }
        r
    } else {
        let p = 1u128 << bits;
        proof {
            lemma_shl_one(bits);
            lemma_pow2_pos(bits as nat);
        }
        let r = *value % p;
        *value = *value / p;
        r
    }
}

/// Shifts `*dest` up by `bits` bits and puts the low `bits` bits of `value` below it.
pub fn put_bits(dest: &mut u128, value: u128, bits: u32)
    requires
        1 <= bits <= 128,
        *old(dest) < pow2((128 - bits) as nat),
    ensures
        *final(dest) as nat == *old(dest) as nat * pow2(bits as nat) + value as nat % pow2(bits as nat),
{
    if bits == 128 {
        proof {
            lemma_pow2_128();
            assert(pow2(0) == 1) by { lemma2_to64(); }
            vstd::arithmetic::div_mod::lemma_small_mod(value as nat, pow2(128));
        }
        *dest = value;
    } else {
        let p = 1u128 << bits;
        proof {
            lemma_shl_one(bits);
            lemma_pow2_pos(bits as nat);
            lemma_pow2_128();
            lemma_pow2_adds((128 - bits) as nat, bits as nat);
            let d = *dest as nat;
            lemma_mul_inequality(d as int + 1, pow2((128 - bits) as nat) as int, p as int);
            assert((d + 1) * p == d * p + p) by (nonlinear_arith);
            assert(pow2((128 - bits) as nat) * pow2(bits as nat) == pow2(128));
            lemma_mod_bound(value as int, p as int);
        }
        *dest = *dest * p + value % p;
    }
}

/// `n` fields of width `w` each.
pub open spec fn repeat(w: nat, n: nat) -> Seq<nat> {
    Seq::new(n, |_i: int| w)
}

pub proof fn lemma_total_width_concat(wa: Seq<nat>, wb: Seq<nat>)
    ensures
        total_width(wa + wb) == total_width(wa) + total_width(wb),
    decreases wa.len(),
{
    if wa.len() == 0 {
        assert(wa + wb =~= wb);
    } else {
        assert((wa + wb).drop_first() =~= wa.drop_first() + wb);
        lemma_total_width_concat(wa.drop_first(), wb);
    }
}

pub proof fn lemma_total_width_repeat(w: nat, n: nat)
    ensures
        total_width(repeat(w, n)) == w * n,
    decreases n,
{
    if n == 0 {
        assert(w * n == 0) by (nonlinear_arith) requires n == 0;
    } else {
        assert(repeat(w, n)[0] == w);
        assert(repeat(w, n).drop_first() =~= repeat(w, (n - 1) as nat));
        lemma_total_width_repeat(w, (n - 1) as nat);
        assert(w * n == w + w * (n - 1)) by (nonlinear_arith);
    }
}

/// A packed sequence stays below 2 to the power of its total width.
pub proof fn lemma_pack_bound(vals: Seq<nat>, widths: Seq<nat>)
    requires
        vals.len() == widths.len(),
    ensures
        pack(vals, widths) < pow2(total_width(widths)),
    decreases vals.len(),
{
    if vals.len() == 0 {
        lemma2_to64();
    } else {
        let w0 = widths[0];
        let rest = pack(vals.drop_first(), widths.drop_first());
        let t = total_width(widths.drop_first());
        lemma_pack_bound(vals.drop_first(), widths.drop_first());
        lemma_pow2_pos(w0);
        lemma_mod_bound(vals[0] as int, pow2(w0) as int);
        lemma_mul_inequality(rest as int + 1, pow2(t) as int, pow2(w0) as int);
        assert((rest + 1) * pow2(w0) == pow2(w0) * rest + pow2(w0)) by (nonlinear_arith);
        lemma_pow2_adds(t, w0);
    }
}

/// Packing two sequences one after the other puts the second above the first.
pub proof fn lemma_pack_concat(a: Seq<nat>, wa: Seq<nat>, b: Seq<nat>, wb: Seq<nat>)
    requires
        a.len() == wa.len(),
        b.len() == wb.len(),
    ensures
        pack(a + b, wa + wb) == pack(a, wa) + pow2(total_width(wa)) * pack(b, wb),
    decreases a.len(),
{
    if a.len() == 0 {
        assert(a + b =~= b);
        assert(wa + wb =~= wb);
        lemma2_to64();
    } else {
        assert((a + b).drop_first() =~= a.drop_first() + b);
        assert((wa + wb).drop_first() =~= wa.drop_first() + wb);
        lemma_pack_concat(a.drop_first(), wa.drop_first(), b, wb);
        let w0 = wa[0];
        let t = total_width(wa.drop_first());
        let pa = pack(a.drop_first(), wa.drop_first());
        let pb = pack(b, wb);
        lemma_pow2_adds(w0, t);
        assert(pow2(w0) * (pa + pow2(t) * pb) == pow2(w0) * pa + (pow2(w0) * pow2(t)) * pb)
            by (nonlinear_arith);
    }
}

/// Unpacking along two lists of widths reads the second list where the first one ends.
pub proof fn lemma_unpack_concat(x: nat, wa: Seq<nat>, wb: Seq<nat>)
    ensures
        unpack(x, wa + wb) == unpack(x, wa) + unpack(x / pow2(total_width(wa)), wb),
    decreases wa.len(),
{
    if wa.len() == 0 {
        assert(wa + wb =~= wb);
        lemma2_to64();
        assert(total_width(wa) == 0);
        assert(x / pow2(0) == x);
        assert(unpack(x, wa) =~= Seq::<nat>::empty());
        assert(unpack(x, wa) + unpack(x, wb) =~= unpack(x, wb));
    } else {
        let w0 = wa[0];
        assert((wa + wb).drop_first() =~= wa.drop_first() + wb);
        lemma_unpack_concat(x / pow2(w0), wa.drop_first(), wb);
        lemma_div_pow2_step(x, w0, total_width(wa.drop_first()));
        lemma_pow2_pos(w0);
        lemma_div_pos_is_pos(x as int, pow2(w0) as int);
        assert(unpack(x, wa + wb) =~= unpack(x, wa) + unpack(x / pow2(total_width(wa)), wb));
    }
}

/// Injecting values of the given widths and then extracting the same widths gives the
/// values back.
pub proof fn lemma_unpack_pack(vals: Seq<nat>, widths: Seq<nat>)
    requires
        fits(vals, widths),
    ensures
        unpack(pack(vals, widths), widths) == vals,
    decreases vals.len(),
{
    if vals.len() == 0 {
        assert(unpack(pack(vals, widths), widths) =~= vals);
    } else {
        let w0 = widths[0];
        let v0 = vals[0];
        let rest = pack(vals.drop_first(), widths.drop_first());
        assert(fits(vals.drop_first(), widths.drop_first())) by {
            assert forall|i: int| 0 <= i < vals.drop_first().len() implies vals.drop_first()[i]
                < pow2(#[trigger] widths.drop_first()[i]) by {
                assert(vals[i + 1] < pow2(widths[i + 1]));
            }
        }
        lemma_unpack_pack(vals.drop_first(), widths.drop_first());
        lemma_pow2_pos(w0);
        assert(v0 < pow2(w0));
        vstd::arithmetic::div_mod::lemma_small_mod(v0, pow2(w0));
        let p = pack(vals, widths);
        assert(p == pow2(w0) * rest + v0);
        lemma_fundamental_div_mod_converse(p as int, pow2(w0) as int, rest as int, v0 as int);
        assert(unpack(p, widths) =~= vals);
    }
}

/// The bytes of `s` as numbers.
pub open spec fn nats(s: Seq<u8>) -> Seq<nat> {
    s.map_values(|x: u8| x as nat)
}

/// Removes `N` fields of `bits` bits each from the low end of `*value`; the lowest
/// field comes first in the result.
pub fn take_bits_array<const N: usize>(value: &mut u128, bits: u32) -> (r: [u8; N])
    requires
        1 <= bits <= 8,
        N * bits <= 128,
    ensures
        nats(r@) == unpack(*old(value) as nat, repeat(bits as nat, N as nat)),
        forall|j: int| 0 <= j < N ==> r[j] as nat == field_at(*old(value) as nat, (bits * j) as nat, bits as nat),
        *final(value) as nat == *old(value) as nat / pow2((bits * N) as nat),
{
    let ghost orig = *value as nat;
    let mut r = [0u8; N];
    let mut i: usize = 0;
    proof {
        lemma2_to64();
        assert(orig / 1 == orig);
        assert(bits * 0 == 0) by (nonlinear_arith);
        assert(nats(r@.take(0)) =~= unpack(orig, repeat(bits as nat, 0)));
    }
    while i < N
        invariant
            i <= N,
            1 <= bits <= 8,
            N * bits <= 128,
            r@.len() == N,
            nats(r@.take(i as int)) == unpack(orig, repeat(bits as nat, i as nat)),
            forall|j: int| 0 <= j < i ==> r[j] as nat == field_at(orig, (bits * j) as nat, bits as nat),
            *value as nat == orig / pow2((bits * i) as nat),
        decreases N - i,
    {
        let ghost before = *value as nat;
        let v = take_bits(value, bits);
        proof {
            lemma_pow2_pos(bits as nat);
            if bits < 8 {
                vstd::arithmetic::power2::lemma_pow2_strictly_increases(bits as nat, 8);
            }
            lemma2_to64();
            lemma_mod_bound(before as int, pow2(bits as nat) as int);
        }
        r[i] = v as u8;
        proof {
            let k = bits * i;
            lemma_div_pow2_step(orig, k as nat, bits as nat);
            assert(bits * (i + 1) == k + bits) by (nonlinear_arith) requires k == bits * i;
            assert(repeat(bits as nat, (i + 1) as nat) =~= repeat(bits as nat, i as nat) + seq![
                bits as nat,
            ]);
            lemma_unpack_concat(orig, repeat(bits as nat, i as nat), seq![bits as nat]);
            lemma_total_width_repeat(bits as nat, i as nat);
            assert(bits as nat * i as nat == k);
            let single = unpack(orig / pow2(k as nat), seq![bits as nat]);
            assert(seq![bits as nat].drop_first() =~= Seq::<nat>::empty());
            assert(unpack((orig / pow2(k as nat)) / pow2(bits as nat), Seq::<nat>::empty()) =~= Seq::<nat>::empty());
            assert(single[0] == (orig / pow2(k as nat)) % pow2(bits as nat));
            assert(single.len() == 1);
            assert(single =~= seq![v as nat]);
            assert(nats(r@.take(i + 1)) =~= nats(r@.take(i as int)) + seq![v as nat]);
        }
        i += 1;
    }
    proof {
        assert(r@.take(N as int) =~= r@);
        assert(bits * N == N * bits) by (nonlinear_arith);
    }
    r
}

/// Injects the fields of `array` (`bits` bits each) below `*dest` so that the first one
/// ends in the lowest bits: the array is pushed last element first.
pub fn put_bits_array_rev<const N: usize>(dest: &mut u128, array: [u8; N], bits: u32)
    requires
        1 <= bits <= 8,
        N * bits <= 128,
        *old(dest) < pow2((128 - N * bits) as nat),
    ensures
        *final(dest) as nat == *old(dest) as nat * pow2((N * bits) as nat) + pack(
            nats(array@),
            repeat(bits as nat, N as nat),
        ),
{
    let ghost orig = *dest as nat;
    let ghost vals = nats(array@);
    let mut i: usize = N;
    proof {
        lemma2_to64();
        assert(bits * 0 == 0) by (nonlinear_arith);
        assert(vals.subrange(N as int, N as int) =~= Seq::<nat>::empty());
        assert(bits * (N - N) == 0) by (nonlinear_arith);
        assert(orig * pow2(0) == orig);
    }
    while i > 0
        invariant
            i <= N,
            1 <= bits <= 8,
            N * bits <= 128,
            orig < pow2((128 - N * bits) as nat),
            vals == nats(array@),
            array@.len() == N,
            *dest as nat == orig * pow2((bits * (N - i)) as nat) + pack(
                vals.subrange(i as int, N as int),
                repeat(bits as nat, (N - i) as nat),
            ),
        decreases i,
    {
        let ghost before = *dest as nat;
        let ghost k = (bits * (N - i)) as nat;
        let ghost tail = vals.subrange(i as int, N as int);
        proof {
            lemma_pack_bound(tail, repeat(bits as nat, (N - i) as nat));
            lemma_total_width_repeat(bits as nat, (N - i) as nat);
            assert(bits as nat * (N - i) as nat == k);
            assert(bits * (N - i) + (128 - N * bits) == 128 - bits * i) by (nonlinear_arith)
                requires i <= N, N * bits <= 128;
            lemma_pow2_pos(k);
            lemma_mul_inequality(orig as int + 1, pow2((128 - N * bits) as nat) as int, pow2(k) as int);
            assert((orig + 1) * pow2(k) == orig * pow2(k) + pow2(k)) by (nonlinear_arith);
            lemma_pow2_adds((128 - N * bits) as nat, k);
            assert(bits * i >= bits) by (nonlinear_arith) requires i >= 1;
            if bits * i > bits {
                vstd::arithmetic::power2::lemma_pow2_strictly_increases(
                    (128 - bits * i) as nat,
                    (128 - bits) as nat,
                );
            }
        }
        put_bits(dest, array[i - 1] as u128, bits);
        proof {
            let v = array@[i - 1] as nat;
            let k2 = (bits * (N - (i - 1))) as nat;
            assert(bits * (N - (i - 1)) == k + bits) by (nonlinear_arith) requires i >= 1, i <= N, k == bits * (N - i);
            lemma_pow2_adds(k, bits as nat);
            let longer = vals.subrange(i - 1, N as int);
            assert(longer.drop_first() =~= tail);
            assert(longer[0] == v);
            assert(repeat(bits as nat, (N - (i - 1)) as nat).drop_first() =~= repeat(bits as nat, (N - i) as nat));
            assert(repeat(bits as nat, (N - (i - 1)) as nat)[0] == bits as nat);
            let pt = pack(tail, repeat(bits as nat, (N - i) as nat));
            assert(*dest as nat == before * pow2(bits as nat) + v % pow2(bits as nat));
            assert(before * pow2(bits as nat) == orig * pow2(k2) + pow2(bits as nat) * pt) by (nonlinear_arith)
                requires before == orig * pow2(k) + pt, pow2(k2) == pow2(k) * pow2(bits as nat);
            assert(pack(longer, repeat(bits as nat, (N - (i - 1)) as nat)) == v % pow2(bits as nat)
                + pow2(bits as nat) * pt);
            assert(*dest as nat == orig * pow2(k2) + pack(longer, repeat(bits as nat, (N - (i - 1)) as nat)));
        }
        i -= 1;
    }
    proof {
        assert(vals.subrange(0, N as int) =~= vals);
        assert(bits * N == N * bits) by (nonlinear_arith);
    }
}

/// Reads consecutive fields from a 128-bit value, lowest bits first, and remembers the
/// widths read and the values they gave.
pub struct BitReader {
    pub rest: u128,
    pub pos: Ghost<nat>,
    pub source: Ghost<nat>,
    pub widths: Ghost<Seq<nat>>,
    pub fields: Ghost<Seq<nat>>,
}

impl BitReader {
    /// The fields read so far are those of `source` at the widths read so far, and
    /// `rest` holds what lies above them.
    pub open spec fn wf(&self) -> bool {
        &&& self.fields@ == unpack(self.source@, self.widths@)
        &&& self.pos@ == total_width(self.widths@)
        &&& self.rest as nat == self.source@ / pow2(total_width(self.widths@))
    }

    pub fn new(value: u128) -> (r: Self)
        ensures
            r.wf(),
            r.source@ == value as nat,
            r.widths@ == Seq::<nat>::empty(),
            r.fields@ == Seq::<nat>::empty(),
            r.pos@ == 0,
    {
        proof {
            lemma2_to64();
            assert(value as nat / pow2(0) == value as nat);
            assert(unpack(value as nat, Seq::<nat>::empty()) =~= Seq::<nat>::empty());
        }
        BitReader {
            rest: value,
            pos: Ghost(0),
            source: Ghost(value as nat),
            widths: Ghost(Seq::empty()),
            fields: Ghost(Seq::empty()),
        }
    }

    /// Reads the next field of `bits` bits.
    pub fn read(&mut self, bits: u32) -> (r: u128)
        requires
            old(self).wf(),
            1 <= bits <= 128,
        ensures
            final(self).wf(),
            final(self).source == old(self).source,
            final(self).widths@ == old(self).widths@ + seq![bits as nat],
            final(self).fields@ == old(self).fields@ + seq![r as nat],
            r < pow2(bits as nat),
            r as nat == field_at(old(self).source@, old(self).pos@, bits as nat),
            final(self).pos@ == old(self).pos@ + bits,
    {
        let ghost before = self.rest as nat;
        let r = take_bits(&mut self.rest, bits);
        proof {
            assert(before == self.source@ / pow2(self.pos@));
            assert(r as nat == field_at(self.source@, self.pos@, bits as nat));
            let w = seq![bits as nat];
            assert(w.drop_first() =~= Seq::<nat>::empty());
            assert(unpack(before / pow2(bits as nat), Seq::<nat>::empty()) =~= Seq::<nat>::empty());
            assert(unpack(before, w) =~= seq![r as nat]);
            assert(total_width(w.drop_first()) == 0);
            lemma_read_step(self.source@, self.widths@, self.fields@, before, w, seq![r as nat]);
            lemma_pow2_pos(bits as nat);
            lemma_mod_bound(before as int, pow2(bits as nat) as int);
        }
        proof {
            lemma_total_width_concat(self.widths@, seq![bits as nat]);
        }
        self.widths = Ghost(self.widths@ + seq![bits as nat]);
        self.fields = Ghost(self.fields@ + seq![r as nat]);
        self.pos = Ghost((self.pos@ + bits) as nat);
        r
    }

    /// Reads the next `N` fields of `bits` bits each.
    pub fn read_array<const N: usize>(&mut self, bits: u32) -> (r: [u8; N])
        requires
            old(self).wf(),
            1 <= bits <= 8,
            N * bits <= 128,
        ensures
            final(self).wf(),
            final(self).source == old(self).source,
            final(self).widths@ == old(self).widths@ + repeat(bits as nat, N as nat),
            final(self).fields@ == old(self).fields@ + nats(r@),
            forall|j: int| 0 <= j < N ==> r[j] as nat == field_at(old(self).source@, (old(self).pos@ + bits * j) as nat, bits as nat),
            final(self).pos@ == old(self).pos@ + N * bits,
    {
        let ghost before = self.rest as nat;
        let r = take_bits_array::<N>(&mut self.rest, bits);
        proof {
            lemma_total_width_repeat(bits as nat, N as nat);
            assert(bits as nat * N as nat == bits * N);
            lemma_read_step(self.source@, self.widths@, self.fields@, before, repeat(bits as nat, N as nat), nats(r@));
        }
        proof {
            lemma_total_width_concat(self.widths@, repeat(bits as nat, N as nat));
            assert(before == self.source@ / pow2(self.pos@));
            assert forall|j: int| 0 <= j < N implies r[j] as nat == field_at(self.source@, (self.pos@ + bits * j) as nat, bits as nat) by {
                lemma_div_pow2_step(self.source@, self.pos@, (bits * j) as nat);
                assert(r[j] as nat == field_at(before, (bits * j) as nat, bits as nat));
            }
        }
        self.widths = Ghost(self.widths@ + repeat(bits as nat, N as nat));
        self.fields = Ghost(self.fields@ + nats(r@));
        self.pos = Ghost((self.pos@ + N * bits) as nat);
        r
    }
}

/// Reading one more group of fields continues where the previous ones ended.
pub proof fn lemma_read_step(x: nat, w: Seq<nat>, v: Seq<nat>, rest: nat, wn: Seq<nat>, vn: Seq<nat>)
    requires
        v == unpack(x, w),
        rest == x / pow2(total_width(w)),
        vn == unpack(rest, wn),
    ensures
        v + vn == unpack(x, w + wn),
        rest / pow2(total_width(wn)) == x / pow2(total_width(w + wn)),
{
    lemma_unpack_concat(x, w, wn);
    lemma_total_width_concat(w, wn);
    lemma_div_pow2_step(x, total_width(w), total_width(wn));
}

pub proof fn lemma_pack_single(v: nat, w: nat)
    ensures
        pack(seq![v], seq![w]) == v % pow2(w),
{
    let f = seq![v];
    let ws = seq![w];
    lemma_pow2_pos(w);
    assert(f.drop_first() =~= Seq::<nat>::empty());
    assert(ws.drop_first() =~= Seq::<nat>::empty());
    assert(pack(f.drop_first(), ws.drop_first()) == 0);
    assert(f[0] == v);
    assert(ws[0] == w);
    assert(f.len() == 1);
    assert(pack(f, ws) == f[0] % pow2(ws[0]) + pow2(ws[0]) * pack(f.drop_first(), ws.drop_first()));
}

/// 2 to a larger power is at least as large.
pub proof fn lemma_pow2_le(e1: nat, e2: nat)
    requires
        e1 <= e2,
    ensures
        pow2(e1) <= pow2(e2),
{
    if e1 < e2 {
        vstd::arithmetic::power2::lemma_pow2_strictly_increases(e1, e2);
    }
}

/// Builds a 128-bit value from its highest field down: each field pushed goes below
/// those pushed before it.
pub struct BitWriter {
    pub value: u128,
    pub widths: Ghost<Seq<nat>>,
    pub fields: Ghost<Seq<nat>>,
}

impl BitWriter {
    /// `value` packs the fields pushed so far, the last one pushed in the lowest bits.
    pub open spec fn wf(&self) -> bool {
        &&& self.fields@.len() == self.widths@.len()
        &&& self.value as nat == pack(self.fields@, self.widths@)
        &&& total_width(self.widths@) <= 128
    }

    pub fn new() -> (r: Self)
        ensures
            r.wf(),
            r.widths@ == Seq::<nat>::empty(),
            r.fields@ == Seq::<nat>::empty(),
    {
        BitWriter { value: 0, widths: Ghost(Seq::empty()), fields: Ghost(Seq::empty()) }
    }

    /// Pushes the low `bits` bits of `v`.
    pub fn push(&mut self, v: u128, bits: u32)
        requires
            old(self).wf(),
            1 <= bits,
            total_width(old(self).widths@) + bits <= 128,
        ensures
            final(self).wf(),
            final(self).widths@ == seq![bits as nat] + old(self).widths@,
            final(self).fields@ == seq![v as nat] + old(self).fields@,
            total_width(final(self).widths@) == total_width(old(self).widths@) + bits,
    {
        proof {
            lemma_pack_bound(self.fields@, self.widths@);
            lemma_pow2_le(total_width(self.widths@), (128 - bits) as nat);
        }
        put_bits(&mut self.value, v, bits);
        proof {
            let w = seq![bits as nat];
            let f = seq![v as nat];
            assert(w.drop_first() =~= Seq::<nat>::empty());
            assert(f.drop_first() =~= Seq::<nat>::empty());
            lemma_pack_single(v as nat, bits as nat);
            assert(total_width(w.drop_first()) == 0);
            lemma_mul_is_commutative(pow2(bits as nat) as int, pack(self.fields@, self.widths@) as int);
            lemma_pack_concat(f, w, self.fields@, self.widths@);
            lemma_total_width_concat(w, self.widths@);
            assert(total_width(w) == bits);
        }
        self.widths = Ghost(seq![bits as nat] + self.widths@);
        self.fields = Ghost(seq![v as nat] + self.fields@);
    }

    /// Pushes the fields of `array`, `bits` bits each, so that its first element ends up
    /// lowest.
    pub fn push_array<const N: usize>(&mut self, array: [u8; N], bits: u32)
        requires
            old(self).wf(),
            1 <= bits <= 8,
            total_width(old(self).widths@) + N * bits <= 128,
        ensures
            final(self).wf(),
            final(self).widths@ == repeat(bits as nat, N as nat) + old(self).widths@,
            final(self).fields@ == nats(array@) + old(self).fields@,
            total_width(final(self).widths@) == total_width(old(self).widths@) + N * bits,
    {
        proof {
            lemma_pack_bound(self.fields@, self.widths@);
            lemma_pow2_le(total_width(self.widths@), (128 - N * bits) as nat);
        }
        put_bits_array_rev::<N>(&mut self.value, array, bits);
        proof {
            let w = repeat(bits as nat, N as nat);
            lemma_total_width_repeat(bits as nat, N as nat);
            assert(bits as nat * N as nat == N * bits) by (nonlinear_arith);
            lemma_pack_concat(nats(array@), w, self.fields@, self.widths@);
            lemma_total_width_concat(w, self.widths@);
            lemma_mul_is_commutative(pow2((N * bits) as nat) as int, pack(self.fields@, self.widths@) as int);
            assert(nats(array@).len() == w.len());
        }
        self.widths = Ghost(repeat(bits as nat, N as nat) + self.widths@);
        self.fields = Ghost(nats(array@) + self.fields@);
    }
}

/// A field never exceeds its width.
pub proof fn lemma_field_at_bound(x: nat, offset: nat, width: nat)
    ensures
        field_at(x, offset, width) < pow2(width),
{
    lemma_pow2_pos(width);
    lemma_pow2_pos(offset);
    lemma_mod_bound((x / pow2(offset)) as int, pow2(width) as int);
}

/// Values that fit their widths still fit after another group of such values.
pub proof fn lemma_fits_concat(a: Seq<nat>, wa: Seq<nat>, b: Seq<nat>, wb: Seq<nat>)
    requires
        fits(a, wa),
        fits(b, wb),
    ensures
        fits(a + b, wa + wb),
{
    assert forall|i: int| 0 <= i < (a + b).len() implies (a + b)[i] < pow2(#[trigger] (wa + wb)[i]) by {
        if i < a.len() {
            assert(a[i] < pow2(wa[i]));
        } else {
            assert(b[i - a.len()] < pow2(wb[i - a.len()]));
        }
    }
}

/// `n` bytes below 2 to the power `w` fit fields of width `w`.
pub proof fn lemma_fits_array(arr: Seq<u8>, w: nat)
    requires
        forall|i: int| 0 <= i < arr.len() ==> arr[i] < pow2(w),
    ensures
        fits(nats(arr), repeat(w, arr.len())),
{
    assert forall|i: int| 0 <= i < arr.len() implies nats(arr)[i] < pow2(#[trigger] repeat(w, arr.len())[i]) by {
        assert(arr[i] < pow2(w));
    }
}

/// One value below 2 to the power `w` fits a field of width `w`.
pub proof fn lemma_fits_one(v: nat, w: nat)
    requires
        v < pow2(w),
    ensures
        fits(seq![v], seq![w]),
{
    assert(seq![v][0] == v && seq![w][0] == w);
}

} // verus!
