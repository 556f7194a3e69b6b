//! Bit sequences: the mathematical model of packed fields and byte buffers.
//!
//! Bits are listed in stream order. A value's bits come least significant
//! first, and a byte's bits come from bit 0 up to bit 7.
use vstd::arithmetic::div_mod::{lemma_div_denominator, lemma_fundamental_div_mod_converse, lemma_mod_breakdown, lemma_mod_mod};
use vstd::arithmetic::power2::{lemma2_to64, lemma_pow2_pos, lemma_pow2_unfold, pow2};
use vstd::prelude::*;

verus! {

/// The low `w` bits of `v`, least significant first.
pub open spec fn value_bits(v: nat, w: nat) -> Seq<bool>
    decreases w,
{
    if w == 0 {
        Seq::empty()
    } else {
        seq![v % 2 == 1] + value_bits(v / 2, (w - 1) as nat)
    }
}

/// The number whose bits, least significant first, are `s`.
pub open spec fn bits_value(s: Seq<bool>) -> nat
    decreases s.len(),
{
    if s.len() == 0 {
        0
    } else {
        (if s[0] { 1nat } else { 0nat }) + 2 * bits_value(s.skip(1))
    }
}

/// The bits of a byte buffer in stream order.
pub open spec fn bytes_bits(b: Seq<u8>) -> Seq<bool>
    decreases b.len(),
{
    if b.len() == 0 {
        Seq::empty()
    } else {
        bytes_bits(b.drop_last()) + value_bits(b.last() as nat, 8)
    }
}

pub proof fn lemma_value_bits_len(v: nat, w: nat)
    ensures
        value_bits(v, w).len() == w,
    decreases w,
{
    if w > 0 {
        lemma_value_bits_len(v / 2, (w - 1) as nat);
    }
}

/// The first `a` bits of a value are the bits of its remainder modulo
/// `2^a`; the ones after them are the bits of its quotient.
pub proof fn lemma_value_bits_split(v: nat, a: nat, b: nat)
    ensures
        value_bits(v, a + b) == value_bits(v % pow2(a), a) + value_bits(v / pow2(a), b),
    decreases a,
{
    lemma_pow2_pos(a);
    if a == 0 {
        lemma2_to64();
        assert(value_bits(v % pow2(a), a) == Seq::<bool>::empty());
        assert(value_bits(v, a + b) =~= value_bits(v % pow2(a), a) + value_bits(v / pow2(a), b));
    } else {
        let p = pow2((a - 1) as nat);
        lemma_pow2_unfold(a);
        lemma_pow2_pos((a - 1) as nat);
        lemma_value_bits_split(v / 2, (a - 1) as nat, b);
        lemma_mod_mod(v as int, 2, p as int);
        lemma_mod_breakdown(v as int, 2, p as int);
        lemma_div_denominator(v as int, 2, p as int);
        let m = v % pow2(a);
        assert(m % 2 == v % 2);
        assert(m / 2 == (v / 2) % p) by {
            lemma_fundamental_div_mod_converse(m as int, 2, ((v / 2) % p) as int, (v % 2) as int);
        }
        assert(value_bits(v, a + b) =~= value_bits(v % pow2(a), a) + value_bits(v / pow2(a), b));
    }
}

/// Only the low `w` bits of a value take part in its `w`-bit form.
pub proof fn lemma_value_bits_low(v: nat, w: nat)
    ensures
        value_bits(v, w) == value_bits(v % pow2(w), w),
{
    lemma_value_bits_split(v, w, 0);
    let q: nat = v / pow2(w);
    lemma_value_bits_len(q, 0);
    assert(value_bits(q, 0) =~= Seq::<bool>::empty());
    assert(w + 0 == w);
    assert(value_bits(v % pow2(w), w) + Seq::<bool>::empty() =~= value_bits(v % pow2(w), w));
}

/// Reading back the `w`-bit form of `v` gives `v` modulo `2^w`.
pub proof fn lemma_bits_value_of(v: nat, w: nat)
    ensures
        bits_value(value_bits(v, w)) == v % pow2(w),
    decreases w,
{
    lemma_pow2_pos(w);
    if w == 0 {
        lemma2_to64();
    } else {
        let p = pow2((w - 1) as nat);
        lemma_pow2_unfold(w);
        lemma_pow2_pos((w - 1) as nat);
        lemma_bits_value_of(v / 2, (w - 1) as nat);
        let s = value_bits(v, w);
        assert(s.skip(1) =~= value_bits(v / 2, (w - 1) as nat));
        lemma_mod_breakdown(v as int, 2, p as int);
    }
}

/// A sequence of bits is the `len`-bit form of its own value.
pub proof fn lemma_value_bits_of(s: Seq<bool>)
    ensures
        value_bits(bits_value(s), s.len()) == s,
    decreases s.len(),
{
    if s.len() > 0 {
        let t = s.skip(1);
        lemma_value_bits_of(t);
        let b: nat = if s[0] { 1 } else { 0 };
        lemma_fundamental_div_mod_converse(bits_value(s) as int, 2, bits_value(t) as int, b as int);
        assert(value_bits(bits_value(s), s.len()) =~= s);
    }
}

/// The value of the bits is below `2^len`.
pub proof fn lemma_bits_value_bound(s: Seq<bool>)
    ensures
        bits_value(s) < pow2(s.len()),
    decreases s.len(),
{
    if s.len() == 0 {
        lemma2_to64();
    } else {
        lemma_bits_value_bound(s.skip(1));
        lemma_pow2_unfold(s.len());
    }
}

pub proof fn lemma_bytes_bits_len(b: Seq<u8>)
    ensures
        bytes_bits(b).len() == 8 * b.len(),
    decreases b.len(),
{
    if b.len() > 0 {
        lemma_bytes_bits_len(b.drop_last());
        lemma_value_bits_len(b.last() as nat, 8);
    }
}

/// The bits of two buffers one after the other.
pub proof fn lemma_bytes_bits_append(a: Seq<u8>, b: Seq<u8>)
    ensures
        bytes_bits(a + b) == bytes_bits(a) + bytes_bits(b),
    decreases b.len(),
{
    if b.len() == 0 {
        assert(a + b =~= a);
        assert(bytes_bits(a) + bytes_bits(b) =~= bytes_bits(a));
    } else {
        lemma_bytes_bits_append(a, b.drop_last());
        assert((a + b).drop_last() =~= a + b.drop_last());
        assert(bytes_bits(a + b) =~= bytes_bits(a) + bytes_bits(b));
    }
}

/// The bits of byte `i` of a buffer stand at `8 * i` in its bit sequence.
pub proof fn lemma_bytes_bits_range(b: Seq<u8>, i: int, j: int)
    requires
        0 <= i <= j <= b.len(),
    ensures
        bytes_bits(b).subrange(8 * i, 8 * j) == bytes_bits(b.subrange(i, j)),
{
    let x = b.subrange(0, i);
    let y = b.subrange(i, j);
    let z = b.subrange(j, b.len() as int);
    assert(b =~= x + y + z);
    lemma_bytes_bits_append(x + y, z);
    lemma_bytes_bits_append(x, y);
    lemma_bytes_bits_len(x);
    lemma_bytes_bits_len(y);
    assert(bytes_bits(b).subrange(8 * i, 8 * j) =~= bytes_bits(y));
}

} // verus!
