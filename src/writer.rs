//! Packing width-tagged values into bytes, least significant bit first.
use crate::bits::{Nibble, VarBitValue};
use crate::bitseq::{
    bytes_bits, lemma_bytes_bits_len, lemma_value_bits_len, lemma_value_bits_low,
    lemma_value_bits_split, value_bits,
};
use vstd::arithmetic::div_mod::{lemma_fundamental_div_mod_converse, lemma_small_mod};
use vstd::arithmetic::power2::{lemma2_to64, lemma_pow2_adds, lemma_pow2_pos, lemma_pow2_strictly_increases, pow2};
use vstd::bits::{lemma_u32_shl_is_mul, lemma_u32_shr_is_div};
use vstd::prelude::*;

verus! {

/// `n` zero bits.
pub open spec fn zeros(n: nat) -> Seq<bool> {
    Seq::new(n, |i: int| false)
}

/// The number of zero bits that pad `n` bits to a whole number of bytes.
pub open spec fn padding(n: nat) -> nat {
    if n % 8 == 0 {
        0
    } else {
        (8 - n % 8) as nat
    }
}

/// The bits that writing `values` in order puts in a stream.
pub open spec fn stream_of(values: Seq<VarBitValue>) -> Seq<bool>
    decreases values.len(),
{
    if values.len() == 0 {
        Seq::empty()
    } else {
        stream_of(values.drop_last()) + values.last().stream_bits()
    }
}

proof fn lemma_zero_bits(n: nat)
    ensures
        value_bits(0, n) == zeros(n),
    decreases n,
{
    if n > 0 {
        lemma_zero_bits((n - 1) as nat);
        assert(value_bits(0, n) =~= zeros(n));
    }
}

/// Collects bits into a byte buffer: bit 0 of each value first, each byte
/// filled from its bit 0 upwards.
pub struct BitStreamWriter {
    buf: Vec<u8>,
    acc: u8,
    bit_position: u8,
}

impl View for BitStreamWriter {
    type V = Seq<bool>;

    /// Every bit written so far, the pending partial byte included.
    closed spec fn view(&self) -> Seq<bool> {
        bytes_bits(self.buf@) + value_bits(self.acc as nat, self.bit_position as nat)
    }
}

impl BitStreamWriter {
    /// The pending byte holds fewer than eight bits, and nothing above them.
    pub closed spec fn wf(&self) -> bool {
        &&& self.bit_position < 8
        &&& self.acc < pow2(self.bit_position as nat)
    }

    pub fn new() -> (r: BitStreamWriter)
        ensures
            r.wf(),
            r@ == Seq::<bool>::empty(),
    {
        let r = BitStreamWriter { buf: Vec::new(), acc: 0, bit_position: 0 };
        proof {
            lemma2_to64();
            lemma_value_bits_len(0, 0);
            assert(r@ =~= Seq::<bool>::empty());
        }
        r
    }

    /// The number of bits written so far.
    pub fn bit_count(&self) -> (r: usize)
        requires
            self.wf(),
            self@.len() <= usize::MAX,
        ensures
            r == self@.len(),
    {
        proof {
            lemma_bytes_bits_len(self.buf@);
            lemma_value_bits_len(self.acc as nat, self.bit_position as nat);
        }
        self.buf.len() * 8 + self.bit_position as usize
    }

    pub fn push_bool(&mut self, value: bool)
        requires
            old(self).wf(),
        ensures
            final(self).wf(),
            final(self)@ == old(self)@ + value_bits(if value { 1nat } else { 0nat }, 1),
    {
        self.push(VarBitValue::with_bool(value));
    }

    pub fn push_byte(&mut self, value: u8)
        requires
            old(self).wf(),
        ensures
            final(self).wf(),
            final(self)@ == old(self)@ + value_bits(value as nat, 8),
    {
        self.push(VarBitValue::with_byte(value));
    }

    pub fn push_nibble(&mut self, value: Nibble)
        requires
            old(self).wf(),
        ensures
            final(self).wf(),
            final(self)@ == old(self)@ + value_bits(value.val(), 4),
    {
        self.push(VarBitValue::with_nibble(value));
    }

    /// Writes each value in order.
    pub fn push_slice(&mut self, value: &[VarBitValue])
        requires
            old(self).wf(),
        ensures
            final(self).wf(),
            final(self)@ == old(self)@ + stream_of(value@),
    {
        let mut i: usize = 0;
        while i < value.len()
            invariant
                i <= value@.len(),
                self.wf(),
                self@ == old(self)@ + stream_of(value@.take(i as int)),
            decreases value@.len() - i,
        {
            proof {
                assert(value@.take(i as int + 1).drop_last() =~= value@.take(i as int));
            }
            self.push(value[i]);
            proof {
                assert(self@ =~= old(self)@ + stream_of(value@.take(i as int + 1)));
            }
            i = i + 1;
        }
        proof {
            assert(value@.take(i as int) =~= value@);
        }
    }

    /// Writes the low `width()` bits of the value, bit 0 first.
    pub fn push(&mut self, value: VarBitValue)
        requires
            old(self).wf(),
        ensures
            final(self).wf(),
            final(self)@ == old(self)@ + value.stream_bits(),
    {
        let size = value.size();
        let w = size.as_u8();
        let raw = value.value();
        let v = raw & size.mask();
        let p = self.bit_position;
        proof {
            size.lemma_bounds();
            lemma2_to64();
            vstd::bits::lemma_u32_low_bits_mask_is_mod(raw, w as nat);
            lemma_pow2_pos(w as nat);
            lemma_pow2_pos(p as nat);
            lemma_pow2_adds(p as nat, w as nat);
            lemma_pow2_strictly_increases((p + w) as nat, 32);
            lemma_value_bits_low(value.payload(), w as nat);
            let pp = pow2(p as nat);
            let pw = pow2(w as nat);
            assert(v * pp <= (pw - 1) * pp) by (nonlinear_arith)
                requires v <= pw - 1, pp > 0;
            assert((pw - 1) * pp == pw * pp - pp) by (nonlinear_arith);
            lemma_u32_shl_is_mul(v, p as u32);
        }
        let mut total: u32 = self.acc as u32 + (v << (p as u32));
        let mut n: u8 = p + w;
        proof {
            lemma_fundamental_div_mod_converse(total as int, pow2(p as nat) as int, v as int, self.acc as int);
            lemma_value_bits_split(total as nat, p as nat, w as nat);
            assert(self@ + value.stream_bits() =~= bytes_bits(self.buf@) + value_bits(total as nat, n as nat));
        }
        while n >= 8
            invariant
                n <= 31,
                total < pow2(n as nat),
                bytes_bits(self.buf@) + value_bits(total as nat, n as nat) == old(self)@ + value.stream_bits(),
            decreases n,
        {
            let byte = (total & 0xff) as u8;
            proof {
                assert(total & 0xff == total % 256) by (bit_vector);
                lemma_value_bits_split(total as nat, 8, (n - 8) as nat);
                lemma_u32_shr_is_div(total, 8);
                lemma2_to64();
                lemma_pow2_adds(8, (n - 8) as nat);
                let q = pow2((n - 8) as nat);
                assert(total / 256 < q) by (nonlinear_arith)
                    requires total < 256 * q, q > 0;
            }
            let ghost old_buf = self.buf@;
            self.buf.push(byte);
            proof {
                assert(self.buf@.drop_last() =~= old_buf);
                assert(bytes_bits(self.buf@) + value_bits((total / 256) as nat, (n - 8) as nat)
                    =~= bytes_bits(old_buf) + value_bits(total as nat, n as nat));
            }
            total = total >> 8;
            n = n - 8;
        }
        proof {
            lemma2_to64();
            lemma_pow2_strictly_increases(n as nat, 8);
        }
        self.acc = total as u8;
        self.bit_position = n;
    }

    /// Pads the pending partial byte with zero bits and moves it to the
    /// buffer.
    pub fn skip_to_next_byte_boundary(&mut self)
        requires
            old(self).wf(),
        ensures
            final(self).wf(),
            final(self)@ == old(self)@ + zeros(padding(old(self)@.len())),
            final(self)@.len() % 8 == 0,
    {
        proof {
            lemma_bytes_bits_len(self.buf@);
            lemma_value_bits_len(self.acc as nat, self.bit_position as nat);
            lemma2_to64();
        }
        if self.bit_position > 0 {
            let ghost old_view = self@;
            let ghost bp = self.bit_position as nat;
            proof {
                lemma_value_bits_split(self.acc as nat, bp, (8 - bp) as nat);
                lemma_small_mod(self.acc as nat, pow2(bp));
                vstd::arithmetic::div_mod::lemma_basic_div(self.acc as int, pow2(bp) as int);
                lemma_zero_bits((8 - bp) as nat);
            }
            let ghost old_buf = self.buf@;
            self.buf.push(self.acc);
            self.acc = 0;
            self.bit_position = 0;
            proof {
                assert(self.buf@.drop_last() =~= old_buf);
                lemma_value_bits_len(0, 0);
                lemma_bytes_bits_len(self.buf@);
                assert(self@ =~= old_view + zeros(padding(old_view.len())));
            }
        } else {
            proof {
                assert(self@ =~= old(self)@ + zeros(padding(old(self)@.len())));
            }
        }
    }

    /// Pads the last byte with zero bits and hands over the buffer.
    pub fn into_bytes(self) -> (r: Vec<u8>)
        requires
            self.wf(),
        ensures
            bytes_bits(r@) == self@ + zeros(padding(self@.len())),
    {
        let mut w = self;
        w.skip_to_next_byte_boundary();
        proof {
            lemma_value_bits_len(w.acc as nat, w.bit_position as nat);
            lemma_bytes_bits_len(w.buf@);
            assert(w@ =~= bytes_bits(w.buf@));
        }
        w.buf
    }
}

/// A sink that values of type `T` can be written to, as bits.
pub trait Write<T>: Sized {
    /// Whether the sink is in a state to take a value.
    spec fn ready(&self) -> bool;

    /// Every bit written so far.
    spec fn written(&self) -> Seq<bool>;

    /// The bits that writing `value` appends.
    spec fn encoding(value: T) -> Seq<bool>;

    fn write(&mut self, value: T)
        requires
            old(self).ready(),
        ensures
            final(self).ready(),
            final(self).written() == old(self).written() + Self::encoding(value),
    ;
}

impl Write<bool> for BitStreamWriter {
    open spec fn ready(&self) -> bool {
        self.wf()
    }

    open spec fn written(&self) -> Seq<bool> {
        self@
    }

    open spec fn encoding(value: bool) -> Seq<bool> {
        value_bits(if value { 1nat } else { 0nat }, 1)
    }

    fn write(&mut self, value: bool) {
        self.push_bool(value);
    }
}

impl Write<Nibble> for BitStreamWriter {
    open spec fn ready(&self) -> bool {
        self.wf()
    }

    open spec fn written(&self) -> Seq<bool> {
        self@
    }

    open spec fn encoding(value: Nibble) -> Seq<bool> {
        value_bits(value.val(), 4)
    }

    fn write(&mut self, value: Nibble) {
        self.push_nibble(value);
    }
}

impl Write<u8> for BitStreamWriter {
    open spec fn ready(&self) -> bool {
        self.wf()
    }

    open spec fn written(&self) -> Seq<bool> {
        self@
    }

    open spec fn encoding(value: u8) -> Seq<bool> {
        value_bits(value as nat, 8)
    }

    fn write(&mut self, value: u8) {
        self.push_byte(value);
    }
}

impl<'a> Write<&'a [u8]> for BitStreamWriter {
    open spec fn ready(&self) -> bool {
        self.wf()
    }

    open spec fn written(&self) -> Seq<bool> {
        self@
    }

    open spec fn encoding(value: &'a [u8]) -> Seq<bool> {
        bytes_bits(value@)
    }

    fn write(&mut self, value: &'a [u8]) {
        let mut i: usize = 0;
        while i < value.len()
            invariant
                i <= value@.len(),
                self.wf(),
                self@ == old(self)@ + bytes_bits(value@.take(i as int)),
            decreases value@.len() - i,
        {
            proof {
                assert(value@.take(i as int + 1).drop_last() =~= value@.take(i as int));
            }
            self.push_byte(value[i]);
            proof {
                assert(self@ =~= old(self)@ + bytes_bits(value@.take(i as int + 1)));
            }
            i = i + 1;
        }
        proof {
            assert(value@.take(i as int) =~= value@);
        }
    }
}

impl Write<VarBitValue> for BitStreamWriter {
    open spec fn ready(&self) -> bool {
        self.wf()
    }

    open spec fn written(&self) -> Seq<bool> {
        self@
    }

    open spec fn encoding(value: VarBitValue) -> Seq<bool> {
        value.stream_bits()
    }

    fn write(&mut self, value: VarBitValue) {
        self.push(value);
    }
}

impl<'a> Write<&'a [VarBitValue]> for BitStreamWriter {
    open spec fn ready(&self) -> bool {
        self.wf()
    }

    open spec fn written(&self) -> Seq<bool> {
        self@
    }

    open spec fn encoding(value: &'a [VarBitValue]) -> Seq<bool> {
        stream_of(value@)
    }

    fn write(&mut self, value: &'a [VarBitValue]) {
        self.push_slice(value);
    }
}

impl VarBitValue {
    /// Writes `values` into a fresh writer and returns the padded bytes.
    pub fn to_vec(values: &[VarBitValue]) -> (r: Vec<u8>)
        ensures
            bytes_bits(r@) == stream_of(values@) + zeros(padding(stream_of(values@).len())),
    {
        let mut bs = BitStreamWriter::new();
        bs.push_slice(values);
        proof {
            assert(bs@ =~= stream_of(values@));
        }
        bs.into_bytes()
    }

    /// As `to_vec`, taking the values by value.
    pub fn into_vec(values: Vec<VarBitValue>) -> (r: Vec<u8>)
        ensures
            bytes_bits(r@) == stream_of(values@) + zeros(padding(stream_of(values@).len())),
    {
        VarBitValue::to_vec(values.as_slice())
    }
}

} // verus!
