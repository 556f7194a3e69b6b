//! Bit widths and width-tagged values, the units of the bit stream codec.
use crate::bitseq::{
    bits_value, bytes_bits, lemma_value_bits_len, lemma_value_bits_low, lemma_value_bits_split,
    value_bits,
};
use vstd::arithmetic::power2::{
    lemma2_to64, lemma_pow2_pos, lemma_pow2_strictly_increases, lemma_pow2_unfold, pow2,
};
use vstd::bits::{lemma_u32_low_bits_mask_is_mod, lemma_u32_shl_is_mul, lemma_u32_shr_is_div, low_bits_mask};
use vstd::prelude::*;

verus! {

/// A field width of 1 to 24 bits.
#[derive(Debug, Clone, Copy, PartialEq, Eq, Structural, PartialOrd, Ord)]
pub enum BitSize {
    Bit1,
    Bit2,
    Bit3,
    Bit4,
    Bit5,
    Bit6,
    Bit7,
    Bit8,
    Bit9,
    Bit10,
    Bit11,
    Bit12,
    Bit13,
    Bit14,
    Bit15,
    Bit16,
    Bit17,
    Bit18,
    Bit19,
    Bit20,
    Bit21,
    Bit22,
    Bit23,
    Bit24,
}

impl BitSize {
    pub const NIBBLE: BitSize = BitSize::Bit4;

    pub const BYTE: BitSize = BitSize::Bit8;

    pub const OCTET: BitSize = BitSize::Bit8;

    /// The widest field supported.
    pub const MAX: BitSize = BitSize::Bit24;

    /// The number of bits this width stands for.
    pub open spec fn bits(self) -> nat {
        match self {
            BitSize::Bit1 => 1,
            BitSize::Bit2 => 2,
            BitSize::Bit3 => 3,
            BitSize::Bit4 => 4,
            BitSize::Bit5 => 5,
            BitSize::Bit6 => 6,
            BitSize::Bit7 => 7,
            BitSize::Bit8 => 8,
            BitSize::Bit9 => 9,
            BitSize::Bit10 => 10,
            BitSize::Bit11 => 11,
            BitSize::Bit12 => 12,
            BitSize::Bit13 => 13,
            BitSize::Bit14 => 14,
            BitSize::Bit15 => 15,
            BitSize::Bit16 => 16,
            BitSize::Bit17 => 17,
            BitSize::Bit18 => 18,
            BitSize::Bit19 => 19,
            BitSize::Bit20 => 20,
            BitSize::Bit21 => 21,
            BitSize::Bit22 => 22,
            BitSize::Bit23 => 23,
            BitSize::Bit24 => 24,
        }
    }

    /// Every width lies in `1..=24`.
    pub proof fn lemma_bounds(self)
        ensures
            1 <= self.bits() <= 24,
    {
    }

    pub fn as_u8(&self) -> (r: u8)
        ensures
            r == self.bits(),
    {
        match self {
            BitSize::Bit1 => 1,
            BitSize::Bit2 => 2,
            BitSize::Bit3 => 3,
            BitSize::Bit4 => 4,
            BitSize::Bit5 => 5,
            BitSize::Bit6 => 6,
            BitSize::Bit7 => 7,
            BitSize::Bit8 => 8,
            BitSize::Bit9 => 9,
            BitSize::Bit10 => 10,
            BitSize::Bit11 => 11,
            BitSize::Bit12 => 12,
            BitSize::Bit13 => 13,
            BitSize::Bit14 => 14,
            BitSize::Bit15 => 15,
            BitSize::Bit16 => 16,
            BitSize::Bit17 => 17,
            BitSize::Bit18 => 18,
            BitSize::Bit19 => 19,
            BitSize::Bit20 => 20,
            BitSize::Bit21 => 21,
            BitSize::Bit22 => 22,
            BitSize::Bit23 => 23,
            BitSize::Bit24 => 24,
        }
    }

    pub fn as_usize(&self) -> (r: usize)
        ensures
            r == self.bits(),
    {
        self.as_u8() as usize
    }

    pub fn as_u32(&self) -> (r: u32)
        ensures
            r == self.bits(),
    {
        self.as_u8() as u32
    }

    /// The width of `value` bits, if `value` lies in `1..=24`.
    pub fn new(value: u8) -> (r: Option<BitSize>)
        ensures
            r is Some <==> 1 <= value <= 24,
            r matches Some(s) ==> s.bits() == value,
    {
        match value {
            1 => Some(BitSize::Bit1),
            2 => Some(BitSize::Bit2),
            3 => Some(BitSize::Bit3),
            4 => Some(BitSize::Bit4),
            5 => Some(BitSize::Bit5),
            6 => Some(BitSize::Bit6),
            7 => Some(BitSize::Bit7),
            8 => Some(BitSize::Bit8),
            9 => Some(BitSize::Bit9),
            10 => Some(BitSize::Bit10),
            11 => Some(BitSize::Bit11),
            12 => Some(BitSize::Bit12),
            13 => Some(BitSize::Bit13),
            14 => Some(BitSize::Bit14),
            15 => Some(BitSize::Bit15),
            16 => Some(BitSize::Bit16),
            17 => Some(BitSize::Bit17),
            18 => Some(BitSize::Bit18),
            19 => Some(BitSize::Bit19),
            20 => Some(BitSize::Bit20),
            21 => Some(BitSize::Bit21),
            22 => Some(BitSize::Bit22),
            23 => Some(BitSize::Bit23),
            24 => Some(BitSize::Bit24),
            _ => None,
        }
    }

    /// The width of `value` bits, for a caller that knows `value` to be valid.
    pub fn new_unchecked(value: u8) -> (r: BitSize)
        requires
            1 <= value <= 24,
        ensures
            r.bits() == value,
    {
        match BitSize::new(value) {
            Some(s) => s,
            None => BitSize::Bit1,
        }
    }

    /// The mask of the low `bits()` bits.
    pub fn mask(&self) -> (r: u32)
        ensures
            r == pow2(self.bits()) - 1,
    {
        let p = self.power_of_two();
        proof {
            lemma_pow2_pos(self.bits());
        }
        p - 1
    }

    /// Two raised to `bits()`.
    pub fn power_of_two(&self) -> (r: u32)
        ensures
            r == pow2(self.bits()),
    {
        let w = self.as_u32();
        proof {
            self.lemma_bounds();
            lemma2_to64();
            if w < 24 {
                lemma_pow2_strictly_increases(w as nat, 24);
            }
            lemma_u32_shl_is_mul(1, w);
        }
        1u32 << w
    }
}

/// The low `w` bits of `v` as the digits '0' and '1', most significant
/// first.
pub open spec fn bit_text(v: nat, w: nat) -> Seq<char> {
    value_bits(v, w).reverse().map_values(|b: bool| if b { '1' } else { '0' })
}

/// Bit `i` of the `w`-bit form of `v` is bit `i` of `v`.
proof fn lemma_value_bit(v: nat, w: nat, i: nat)
    requires
        i < w,
    ensures
        value_bits(v, w)[i as int] == ((v / pow2(i)) % 2 == 1),
{
    lemma_value_bits_split(v, i, (w - i) as nat);
    lemma_value_bits_len(v % pow2(i), i);
    lemma_pow2_pos(i);
    vstd::arithmetic::div_mod::lemma_div_pos_is_pos(v as int, pow2(i) as int);
    let q = v / pow2(i);
    let rest = (w - i) as nat;
    assert(value_bits(q, rest) == seq![q % 2 == 1] + value_bits(q / 2, (rest - 1) as nat));
    assert(value_bits(v, w)[i as int] == value_bits(q, rest)[0]);
}

/// Relies on `String::from_utf8`: bytes below 128 are ASCII, and each
/// decodes to the char of the same code.
#[verifier::external_body]
fn ascii_string(b: Vec<u8>) -> (r: String)
    requires
        forall|i: int| 0 <= i < b@.len() ==> b@[i] < 128,
    ensures
        r@.len() == b@.len(),
        forall|i: int| 0 <= i < b@.len() ==> r@[i] == b@[i] as char,
{
    String::from_utf8(b).unwrap_or_default()
}

/// Reversing a payload that fits its width twice gives it back.
pub proof fn lemma_reversed_twice(v: nat, w: nat)
    requires
        v < pow2(w),
    ensures
        reversed_value(reversed_value(v, w), w) == v,
{
    let s = value_bits(v, w);
    let r = s.reverse();
    lemma_value_bits_len(v, w);
    assert(r.len() == w);
    crate::bitseq::lemma_value_bits_of(r);
    assert(r.reverse() =~= s);
    crate::bitseq::lemma_bits_value_of(v, w);
    vstd::arithmetic::div_mod::lemma_small_mod(v, pow2(w));
}

impl VarBitValue {
    /// `reversed` undoes itself on a value whose payload fits its width:
    /// the width stays and the payload comes back.
    pub proof fn lemma_reversed_reversed(self, once: VarBitValue, twice: VarBitValue)
        requires
            self.payload() < pow2(self.width()),
            once.size_of() == self.size_of(),
            once.payload() == reversed_value(self.payload(), self.width()),
            twice.size_of() == once.size_of(),
            twice.payload() == reversed_value(once.payload(), once.width()),
        ensures
            twice.size_of() == self.size_of(),
            twice.payload() == self.payload(),
    {
        lemma_reversed_twice(self.payload(), self.width());
    }
}

/// Counts the bits set in a byte buffer.
pub fn count_bits(array: &[u8]) -> (r: usize)
    requires
        array@.len() <= usize::MAX / 8,
    ensures
        r == ones(bytes_bits(array@)),
{
    let mut total: usize = 0;
    let mut i: usize = 0;
    while i < array.len()
        invariant
            i <= array@.len() <= usize::MAX / 8,
            total == ones(bytes_bits(array@.take(i as int))),
            total <= 8 * i,
        decreases array@.len() - i,
    {
        let byte = array[i];
        let mut x: u8 = byte;
        let mut k: usize = 0;
        let mut n: usize = 0;
        while k < 8
            invariant
                k <= 8,
                n <= k,
                n + ones(value_bits(x as nat, (8 - k) as nat)) == ones(value_bits(byte as nat, 8)),
            decreases 8 - k,
        {
            if x & 1 == 1 {
                n = n + 1;
            }
            proof {
                assert(x & 1 == x % 2) by (bit_vector);
                let rest = value_bits((x / 2) as nat, (8 - k - 1) as nat);
                lemma_ones_append(seq![x % 2 == 1], rest);
                assert(value_bits(x as nat, (8 - k) as nat) == seq![x % 2 == 1] + rest);
                lemma_ones_single(x % 2 == 1);
                assert(x >> 1 == x / 2) by (bit_vector);
            }
            x = x >> 1;
            k = k + 1;
        }
        proof {
            assert(value_bits(x as nat, 0) =~= Seq::<bool>::empty()) by {
                crate::bitseq::lemma_value_bits_len(x as nat, 0);
            }
            let a = array@.take(i as int);
            let b = array@.take(i as int + 1);
            assert(b.drop_last() =~= a);
            lemma_ones_append(bytes_bits(a), value_bits(byte as nat, 8));
            lemma_ones_bound(value_bits(byte as nat, 8));
            crate::bitseq::lemma_value_bits_len(byte as nat, 8);
        }
        total = total + n;
        i = i + 1;
    }
    proof {
        assert(array@.take(i as int) =~= array@);
    }
    total
}

/// The number of set bits in `s`.
pub open spec fn ones(s: Seq<bool>) -> nat
    decreases s.len(),
{
    if s.len() == 0 {
        0
    } else {
        (if s[0] { 1nat } else { 0nat }) + ones(s.skip(1))
    }
}

proof fn lemma_ones_append(s: Seq<bool>, t: Seq<bool>)
    ensures
        ones(s + t) == ones(s) + ones(t),
    decreases s.len(),
{
    if s.len() == 0 {
        assert(s + t =~= t);
    } else {
        lemma_ones_append(s.skip(1), t);
        assert((s + t).skip(1) =~= s.skip(1) + t);
    }
}

proof fn lemma_ones_single(b: bool)
    ensures
        ones(seq![b]) == if b { 1nat } else { 0nat },
{
    reveal_with_fuel(ones, 2);
    assert(seq![b].skip(1) =~= Seq::<bool>::empty());
}

proof fn lemma_ones_bound(s: Seq<bool>)
    ensures
        ones(s) <= s.len(),
    decreases s.len(),
{
    if s.len() > 0 {
        lemma_ones_bound(s.skip(1));
    }
}

/// The smallest power of two that is at least `v`, searching up from `p`.
pub open spec fn next_pow2_from(p: nat, v: nat) -> nat
    decreases (if p < v { v - p } else { 0 }),
{
    if p == 0 || p >= v {
        p
    } else {
        next_pow2_from(2 * p, v)
    }
}

/// The power of two nearest to `v`: the next power of two at or above `v`
/// once `v` reaches three quarters of it, else the one below; zero for zero.
pub open spec fn nearest_pow2(v: nat) -> nat {
    let next = next_pow2_from(1, v);
    if v == 0 {
        0
    } else if next == v || v >= (next / 4) * 3 {
        next
    } else {
        next / 2
    }
}

/// Rounds `value` to the nearest power of two; a value at three quarters of
/// the next power or above goes up.
pub fn nearest_power_of_two(value: usize) -> (r: usize)
    requires
        value <= usize::MAX / 2,
    ensures
        r == nearest_pow2(value as nat),
{
    if value == 0 {
        return 0;
    }
    let mut next: usize = 1;
    while next < value
        invariant
            1 <= next,
            1 <= value <= usize::MAX / 2,
            next <= 2 * value,
            next_pow2_from(next as nat, value as nat) == next_pow2_from(1, value as nat),
        decreases 2 * value - next,
    {
        next = next * 2;
    }
    assert(next_pow2_from(next as nat, value as nat) == next);
    if next == value {
        return next;
    }
    proof {
        assert(next >> 2 == next / 4) by (bit_vector);
        assert(next >> 1 == next / 2) by (bit_vector);
    }
    let threshold = (next >> 2) * 3;
    if value >= threshold {
        next
    } else {
        next >> 1
    }
}

/// A four-bit value.
#[derive(Debug, Clone, Copy, PartialEq, Eq, Structural)]
pub struct Nibble {
    v: u8,
}

impl Nibble {
    /// The number this nibble holds.
    pub closed spec fn val(self) -> nat {
        self.v as nat
    }

    pub fn new(value: u8) -> (r: Option<Nibble>)
        ensures
            r is Some <==> value < 16,
            r matches Some(n) ==> n.val() == value,
    {
        if value < 16 {
            Some(Nibble { v: value })
        } else {
            None
        }
    }

    pub fn as_u8(&self) -> (r: u8)
        ensures
            r == self.val(),
    {
        self.v
    }

    pub fn as_u32(&self) -> (r: u32)
        ensures
            r == self.val(),
    {
        self.v as u32
    }
}

/// A payload of up to 24 bits tagged with the width it is written in.
#[derive(Debug, Clone, Copy)]
pub struct VarBitValue {
    size: BitSize,
    bits: u32,
}

/// The number of bits taken by the present values of `s`.
pub open spec fn tagged_bits(s: Seq<Option<VarBitValue>>) -> nat
    decreases s.len(),
{
    if s.len() == 0 {
        0
    } else {
        tagged_bits(s.drop_last()) + match s.last() {
            Some(v) => v.width(),
            None => 0,
        }
    }
}

/// Values compare by payload alone; the width tag is not part of it.
impl PartialEq for VarBitValue {
    fn eq(&self, other: &VarBitValue) -> (r: bool) {
        self.bits == other.bits
    }
}

impl vstd::std_specs::cmp::PartialEqSpecImpl for VarBitValue {
    open spec fn obeys_eq_spec() -> bool {
        true
    }

    open spec fn eq_spec(&self, other: &VarBitValue) -> bool {
        self.payload() == other.payload()
    }
}

/// The low `w` bits of `v` in reverse order, read as a number.
pub open spec fn reversed_value(v: nat, w: nat) -> nat {
    bits_value(value_bits(v, w).reverse())
}

impl VarBitValue {
    /// The width tag.
    pub closed spec fn size_of(self) -> BitSize {
        self.size
    }

    /// The number of bits in the width tag.
    pub open spec fn width(self) -> nat {
        self.size_of().bits()
    }

    /// The payload, already cut to 24 bits.
    pub closed spec fn payload(self) -> nat {
        self.bits as nat
    }

    /// The bits that writing this value puts in a stream.
    pub open spec fn stream_bits(self) -> Seq<bool> {
        value_bits(self.payload(), self.width())
    }

    /// Tags `value`, cut to its low 24 bits, with `size`; the payload may be
    /// wider than `size`.
    pub fn new(size: BitSize, value: u32) -> (r: VarBitValue)
        ensures
            r.size_of() == size,
            r.payload() == value % 0x100_0000,
    {
        proof {
            assert(value & 0x00ff_ffff == value % 0x100_0000) by (bit_vector);
        }
        VarBitValue { size, bits: value & 0x00ff_ffff }
    }

    /// Tags `value` with `size` if it fits in `size` bits.
    pub fn new_checked(size: BitSize, value: u32) -> (r: Option<VarBitValue>)
        ensures
            r is Some <==> value < pow2(size.bits()),
            r matches Some(x) ==> x.size_of() == size && x.payload() == value,
    {
        let m = size.mask();
        proof {
            size.lemma_bounds();
            lemma_u32_low_bits_mask_is_mod(value, size.bits());
            lemma_pow2_pos(size.bits());
            lemma2_to64();
            if size.bits() < 24 {
                lemma_pow2_strictly_increases(size.bits(), 24);
            }
            assert(value % 0x100_0000 == value ==> value < 0x100_0000);
            let p = pow2(size.bits());
            assert(m == low_bits_mask(size.bits()) as u32);
            if value < p {
                vstd::arithmetic::div_mod::lemma_small_mod(value as nat, p);
            } else {
                vstd::arithmetic::div_mod::lemma_mod_pos_bound(value as int, p as int);
            }
        }
        if value & m == value {
            proof {
                assert(value < 0x100_0000);
                assert(value & 0x00ff_ffff == value % 0x100_0000) by (bit_vector);
            }
            Some(VarBitValue { size, bits: value & 0x00ff_ffff })
        } else {
            None
        }
    }

    /// A single bit: 1 for `true`.
    pub fn with_bool(value: bool) -> (r: VarBitValue)
        ensures
            r.size_of() == BitSize::Bit1,
            r.payload() == if value { 1nat } else { 0nat },
    {
        VarBitValue::new(BitSize::Bit1, if value { 1 } else { 0 })
    }

    /// A four-bit value.
    pub fn with_nibble(value: Nibble) -> (r: VarBitValue)
        ensures
            r.size_of() == BitSize::Bit4,
            r.payload() == value.val(),
    {
        VarBitValue::new(BitSize::NIBBLE, value.as_u32())
    }

    /// An eight-bit value.
    pub fn with_byte(value: u8) -> (r: VarBitValue)
        ensures
            r.size_of() == BitSize::Bit8,
            r.payload() == value,
    {
        VarBitValue::new(BitSize::Bit8, value as u32)
    }

    pub fn size(&self) -> (r: BitSize)
        ensures
            r == self.size_of(),
    {
        self.size
    }

    pub fn value(&self) -> (r: u32)
        ensures
            r == self.payload(),
    {
        self.bits
    }

    /// The value of the same width whose low `width()` bits are this
    /// payload's in reverse order; bits above the width are dropped.
    pub fn reversed(&self) -> (r: VarBitValue)
        ensures
            r.size_of() == self.size_of(),
            r.payload() == reversed_value(self.payload(), self.width()),
    {
        let size = self.size;
        let n = size.as_usize();
        let mut value: u32 = 0;
        let mut input: u32 = self.bits;
        let mut i: usize = 0;
        proof {
            size.lemma_bounds();
            lemma2_to64();
            lemma_value_bits_len(self.bits as nat, 0);
            assert(value_bits(self.bits as nat, 0).reverse() =~= Seq::<bool>::empty());
        }
        while i < n
            invariant
                n == size.bits(),
                n <= 24,
                i <= n,
                value == bits_value(value_bits(self.bits as nat, i as nat).reverse()),
                value < pow2(i as nat),
                input == self.bits as nat / pow2(i as nat),
            decreases n - i,
        {
            proof {
                let old_bits = value_bits(self.bits as nat, i as nat);
                lemma_value_bits_split(self.bits as nat, i as nat, 1);
                lemma_value_bits_low(self.bits as nat, i as nat);
                lemma_value_bits_len(self.bits as nat, i as nat);
                let b = value_bits(input as nat, 1);
                assert(b =~= seq![input % 2 == 1]) by {
                    lemma_value_bits_len((input / 2) as nat, 0);
                }
                let new_bits = old_bits + b;
                assert(new_bits.reverse() =~= seq![input % 2 == 1] + old_bits.reverse());
                assert((seq![input % 2 == 1] + old_bits.reverse()).skip(1) =~= old_bits.reverse());
                assert(input & 1 == input % 2) by (bit_vector);
                lemma_pow2_unfold(i as nat + 1);
                lemma2_to64();
                lemma_pow2_strictly_increases(i as nat, 24);
                lemma_u32_shl_is_mul(value, 1);
                assert(value << 1 | input & 1 == (value << 1) + (input & 1)) by (bit_vector);
                lemma_u32_shr_is_div(input, 1);
                vstd::arithmetic::div_mod::lemma_div_denominator(self.bits as int, pow2(i as nat) as int, 2);
                vstd::arithmetic::mul::lemma_mul_is_commutative(pow2(i as nat) as int, 2);
            }
            value = (value << 1) | (input & 1);
            input = input >> 1;
            i = i + 1;
        }
        proof {
            lemma_pow2_pos(n as nat);
            if n < 24 {
                lemma_pow2_strictly_increases(n as nat, 24);
            }
            vstd::arithmetic::div_mod::lemma_small_mod(value as nat, 0x100_0000);
        }
        VarBitValue::new(size, value)
    }

    /// The number of bits that the present values take, absent ones
    /// counting nothing.
    pub fn total_bit_count(values: &[Option<VarBitValue>]) -> (r: usize)
        requires
            values@.len() * 24 <= usize::MAX,
        ensures
            r == tagged_bits(values@),
            r <= values@.len() * 24,
    {
        let mut total: usize = 0;
        let mut i: usize = 0;
        while i < values.len()
            invariant
                i <= values@.len(),
                values@.len() * 24 <= usize::MAX,
                total == tagged_bits(values@.take(i as int)),
                total <= i * 24,
            decreases values@.len() - i,
        {
            proof {
                assert(values@.take(i as int + 1).drop_last() =~= values@.take(i as int));
            }
            match &values[i] {
                Some(v) => {
                    proof {
                        v.size.lemma_bounds();
                    }
                    total = total + v.size().as_usize();
                },
                None => {},
            }
            i = i + 1;
        }
        proof {
            assert(values@.take(i as int) =~= values@);
        }
        total
    }

    /// The number of bytes that the present values fill.
    pub fn total_len(values: &[Option<VarBitValue>]) -> (r: usize)
        requires
            values@.len() * 24 + 7 <= usize::MAX,
        ensures
            r == (tagged_bits(values@) + 7) / 8,
    {
        (VarBitValue::total_bit_count(values) + 7) / 8
    }

    /// The payload as `width()` binary digits, most significant first,
    /// right-aligned with spaces to `min_width` characters.
    pub fn to_text(&self, min_width: usize) -> (r: String)
        ensures
            ({
                let pad = if min_width > self.width() { min_width - self.width() } else { 0 };
                r@ == Seq::new(pad as nat, |i: int| ' ') + bit_text(self.payload(), self.width())
            }),
    {
        let size = self.size.as_usize();
        proof {
            self.size.lemma_bounds();
        }
        let pad: usize = if min_width > size { min_width - size } else { 0 };
        let ghost text = bit_text(self.bits as nat, size as nat);
        proof {
            lemma_value_bits_len(self.bits as nat, size as nat);
        }
        let mut out: Vec<u8> = Vec::new();
        let mut k: usize = 0;
        while k < pad
            invariant
                k <= pad,
                out@.len() == k,
                forall|j: int| 0 <= j < k ==> out@[j] == 32,
            decreases pad - k,
        {
            out.push(32u8);
            k = k + 1;
        }
        let mut i: usize = size;
        while i > 0
            invariant
                i <= size <= 24,
                size == self.width(),
                text == bit_text(self.bits as nat, size as nat),
                self.bits as nat == self.payload(),
                text.len() == size,
                out@.len() == pad + (size - i),
                forall|j: int| 0 <= j < pad ==> out@[j] == 32,
                forall|j: int|
                    pad <= j < out@.len() ==> out@[j] == if text[j - pad] == '1' { 49u8 } else { 48u8 },
            decreases i,
        {
            i = i - 1;
            let bit = (self.bits >> (i as u32)) & 1;
            proof {
                let x = self.bits >> (i as u32);
                assert(x & 1 == x % 2) by (bit_vector);
                lemma_u32_shr_is_div(self.bits, i as u32);
                lemma_value_bit(self.bits as nat, size as nat, i as nat);
                let vb = value_bits(self.bits as nat, size as nat);
                lemma_value_bits_len(self.bits as nat, size as nat);
                assert(vb.reverse().len() == size);
                let k = (size - 1 - i) as int;
                assert(vb.reverse()[k] == vb[i as int]);
                assert(text[k] == (if vb.reverse()[k] { '1' } else { '0' }));
                assert(text[(size - 1 - i) as int] == if value_bits(self.bits as nat, size as nat)[i as int] {
                    '1'
                } else {
                    '0'
                });
            }
            out.push(if bit == 1 { 49u8 } else { 48u8 });
        }
        let r = ascii_string(out);
        proof {
            assert(r@ =~= Seq::new(pad as nat, |i: int| ' ') + text) by {
                assert forall|j: int| 0 <= j < r@.len() implies r@[j] == (Seq::new(pad as nat, |i: int| ' ') + text)[j] by {
                    if j >= pad {
                        if text[j - pad] == '1' {
                            assert(r@[j] == 49u8 as char);
                        } else {
                            assert(text[j - pad] == '0');
                            assert(r@[j] == 48u8 as char);
                        }
                    } else {
                        assert(r@[j] == 32u8 as char);
                    }
                }
            }
        }
        r
    }

    /// Reverses the payload's bits in place, as `reversed` does.
    pub fn reverse(&mut self)
        ensures
            final(self).size_of() == old(self).size_of(),
            final(self).payload() == reversed_value(old(self).payload(), old(self).width()),
    {
        *self = self.reversed();
    }
}

} // verus!
