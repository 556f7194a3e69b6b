//! Reading width-tagged fields back from bytes, in the order the writer
//! packs them.
use crate::bits::{BitSize, Nibble, VarBitValue};
use crate::bitseq::{
    bits_value, bytes_bits, lemma_bits_value_bound, lemma_bits_value_of, lemma_bytes_bits_len,
    lemma_bytes_bits_range, lemma_value_bits_len, lemma_value_bits_low, lemma_value_bits_split,
    value_bits,
};
use crate::writer::{padding, stream_of};
use vstd::arithmetic::div_mod::{lemma_fundamental_div_mod_converse, lemma_small_mod};
use vstd::arithmetic::power2::{lemma2_to64, lemma_pow2_adds, lemma_pow2_pos, lemma_pow2_strictly_increases, pow2};
use vstd::bits::{low_bits_mask, lemma_u32_low_bits_mask_is_mod, lemma_u32_shl_is_mul, lemma_u32_shr_is_div};
use vstd::prelude::*;
use vstd::slice::slice_subrange;

verus! {

/// Reads bits from a borrowed byte buffer, front to back. Bytes are loaded
/// into a small accumulator as reads need them.
pub struct BitStreamReader<'a> {
    acc: u32,
    left: usize,
    data: &'a [u8],
    next: usize,
}

impl<'a> BitStreamReader<'a> {
    /// The whole input buffer.
    pub closed spec fn input(&self) -> Seq<u8> {
        self.data@
    }

    /// The whole input as bits.
    pub open spec fn stream(&self) -> Seq<bool> {
        bytes_bits(self.input())
    }

    /// How many bits of the stream have been consumed.
    pub closed spec fn position(&self) -> nat {
        (self.next * 8 - self.left) as nat
    }

    /// The `w` bits at the reading position, as a number.
    pub open spec fn upcoming(&self, w: nat) -> nat {
        bits_value(self.stream().subrange(self.position() as int, self.position() + w as int))
    }

    /// Whether `w` more bits are there to read.
    pub open spec fn has(&self, w: nat) -> bool {
        self.position() + w <= self.stream().len()
    }

    /// The accumulator holds, as its low `left` bits, the stream bits just
    /// before the next unloaded byte.
    pub closed spec fn wf(&self) -> bool {
        &&& self.next <= self.data@.len()
        &&& self.left <= 31
        &&& self.left <= self.next * 8
        &&& self.acc < pow2(self.left as nat)
        &&& value_bits(self.acc as nat, self.left as nat) == bytes_bits(self.data@).subrange(
            self.next * 8 - self.left,
            self.next * 8,
        )
    }

    /// Every read depends on the input and the position alone: two readers
    /// that agree on both see the same bits from there on. Peeking leaves
    /// both as they were, so repeated peeks and the read after them return
    /// the same value; advancing moves the position as a read of the same
    /// width does, so all later reads go alike.
    pub proof fn lemma_same_place_same_reads(&self, other: &BitStreamReader)
        requires
            self.input() == other.input(),
            self.position() == other.position(),
        ensures
            forall|w: nat| #![trigger self.has(w)] self.has(w) == other.has(w) && self.upcoming(w) == other.upcoming(w),
            self.position() + padding(self.position()) == other.position() + padding(other.position()),
    {
    }

    pub fn new(slice: &'a [u8]) -> (r: BitStreamReader<'a>)
        ensures
            r.wf(),
            r.input() == slice@,
            r.position() == 0,
    {
        let r = BitStreamReader { acc: 0, left: 0, data: slice, next: 0 };
        proof {
            lemma2_to64();
            lemma_value_bits_len(0, 0);
            lemma_bytes_bits_len(slice@);
            assert(value_bits(0, 0) =~= bytes_bits(slice@).subrange(0, 0));
        }
        r
    }

    /// The next unloaded byte, if any; the accumulator is left as it is.
    fn _iter_next(&mut self) -> (r: Option<u8>)
        ensures
            final(self).data == old(self).data,
            final(self).acc == old(self).acc,
            final(self).left == old(self).left,
            old(self).next < old(self).data@.len() ==> r == Some(old(self).data@[old(self).next as int])
                && final(self).next == old(self).next + 1,
            old(self).next >= old(self).data@.len() ==> r is None && final(self).next == old(self).next,
    {
        if self.next < self.data.len() {
            let b = self.data[self.next];
            self.next = self.next + 1;
            Some(b)
        } else {
            None
        }
    }

    /// Loads bytes until `w` bits are buffered or the input runs out.
    fn fill(&mut self, w: usize) -> (r: bool)
        requires
            old(self).wf(),
            1 <= w <= 24,
        ensures
            final(self).wf(),
            final(self).input() == old(self).input(),
            final(self).position() == old(self).position(),
            r == old(self).has(w as nat),
            r ==> final(self).left >= w,
    {
        while self.left < w
            invariant
                self.wf(),
                self.input() == old(self).input(),
                self.position() == old(self).position(),
                1 <= w <= 24,
            decreases self.data@.len() - self.next,
        {
            let ghost s = *self;
            match self._iter_next() {
                None => {
                    proof {
                        lemma_bytes_bits_len(self.data@);
                    }
                    return false;
                },
                Some(b) => {
                    proof {
                        let l = s.left as nat;
                        lemma2_to64();
                        lemma_pow2_adds(l, 8);
                        lemma_pow2_strictly_increases(l + 8, 32);
                        lemma_pow2_pos(l);
                        let pl = pow2(l);
                        assert(b * pl <= 255 * pl) by (nonlinear_arith)
                            requires b <= 255, pl > 0;
                        lemma_u32_shl_is_mul(b as u32, l as u32);
                        let total = s.acc + b * pl;
                        lemma_fundamental_div_mod_converse(total as int, pl as int, b as int, s.acc as int);
                        lemma_value_bits_split(total as nat, l, 8);
                        lemma_small_mod(b as nat, 256);
                        lemma_value_bits_low(b as nat, 8);
                        let bits = bytes_bits(s.data@);
                        lemma_bytes_bits_len(s.data@);
                        lemma_bytes_bits_range(s.data@, s.next as int, s.next + 1);
                        let one = s.data@.subrange(s.next as int, s.next + 1);
                        assert(one.drop_last() =~= Seq::<u8>::empty());
                        assert(bytes_bits(Seq::<u8>::empty()) =~= Seq::<bool>::empty());
                        assert(bytes_bits(one) =~= value_bits(b as nat, 8));
                        assert(bits.subrange(s.next * 8 - l, s.next * 8 + 8) =~= bits.subrange(
                            s.next * 8 - l,
                            s.next * 8,
                        ) + bits.subrange(s.next * 8, s.next * 8 + 8));
                    }
                    self.acc = self.acc + ((b as u32) << (self.left as u32));
                    self.left = self.left + 8;
                },
            }
        }
        proof {
            lemma_bytes_bits_len(self.data@);
        }
        true
    }

    /// Drops the next `w` buffered bits.
    fn _advance(&mut self, w: usize)
        requires
            old(self).wf(),
            w <= old(self).left,
            w <= 24,
        ensures
            final(self).wf(),
            final(self).input() == old(self).input(),
            final(self).position() == old(self).position() + w,
            final(self).next == old(self).next,
    {
        proof {
            let l = self.left as nat;
            lemma2_to64();
            lemma_u32_shr_is_div(self.acc, w as u32);
            lemma_value_bits_split(self.acc as nat, w as nat, (l - w) as nat);
            lemma_value_bits_len(self.acc as nat % pow2(w as nat), w as nat);
            lemma_pow2_adds(w as nat, (l - w) as nat);
            lemma_pow2_pos(w as nat);
            let pw = pow2(w as nat);
            let q = pow2((l - w) as nat);
            assert((self.acc as nat) / pw < q) by (nonlinear_arith)
                requires (self.acc as nat) < pw * q, pw > 0;
            let bits = bytes_bits(self.data@);
            lemma_bytes_bits_len(self.data@);
            let a: int = self.next * 8 - l;
            let e: int = self.next * 8;
            assert(bits.subrange(a + w, e) =~= bits.subrange(a, e).skip(w as int));
            assert(value_bits(self.acc as nat / pw, (l - w) as nat) =~= value_bits(self.acc as nat, l).skip(w as int));
        }
        self.acc = self.acc >> (w as u32);
        self.left = self.left - w;
    }

    /// The low `w` bits of the accumulator are the next `w` of the stream.
    proof fn lemma_buffered(&self, w: nat)
        requires
            self.wf(),
            w <= self.left,
            w <= 24,
        ensures
            self.has(w),
            self.upcoming(w) == self.acc as nat % pow2(w),
    {
        let l = self.left as nat;
        lemma_bytes_bits_len(self.data@);
        lemma_value_bits_split(self.acc as nat, w, (l - w) as nat);
        lemma_value_bits_len(self.acc as nat % pow2(w), w);
        lemma_bits_value_of(self.acc as nat, w);
        lemma_value_bits_low(self.acc as nat, w);
        let bits = bytes_bits(self.data@);
        assert(bits.subrange(self.position() as int, self.position() + w as int) =~= value_bits(
            self.acc as nat,
            l,
        ).take(w as int));
        assert(value_bits(self.acc as nat, l).take(w as int) =~= value_bits(self.acc as nat % pow2(w), w));
    }

    /// The buffered bits under `bits`' mask.
    fn masked(&self, bits: BitSize) -> (r: u32)
        requires
            self.wf(),
            bits.bits() <= self.left,
        ensures
            r == self.upcoming(bits.bits()),
    {
        let m = bits.mask();
        proof {
            bits.lemma_bounds();
            lemma_u32_low_bits_mask_is_mod(self.acc, bits.bits());
            self.lemma_buffered(bits.bits());
            assert(m == low_bits_mask(bits.bits()) as u32);
            lemma2_to64();
            if bits.bits() < 24 {
                lemma_pow2_strictly_increases(bits.bits(), 24);
            }
        }
        self.acc & m
    }

    /// Consumes `bits` bits without returning them; fails, consuming
    /// nothing, where fewer are left.
    pub fn advance(&mut self, bits: BitSize) -> (r: Option<()>)
        requires
            old(self).wf(),
        ensures
            final(self).wf(),
            final(self).input() == old(self).input(),
            r is Some <==> old(self).has(bits.bits()),
            final(self).position() == if r is Some {
                old(self).position() + bits.bits()
            } else {
                old(self).position()
            },
    {
        let w = bits.as_usize();
        proof {
            bits.lemma_bounds();
        }
        if !self.fill(w) {
            return None;
        }
        self._advance(w);
        Some(())
    }

    /// Reads the next bit.
    pub fn read_bool(&mut self) -> (r: Option<bool>)
        requires
            old(self).wf(),
        ensures
            final(self).wf(),
            final(self).input() == old(self).input(),
            r is Some <==> old(self).has(1),
            r matches Some(b) ==> b == old(self).stream()[old(self).position() as int],
            final(self).position() == if r is Some {
                old(self).position() + 1
            } else {
                old(self).position()
            },
    {
        match self.read_bits(BitSize::Bit1) {
            None => None,
            Some(v) => {
                proof {
                    let s = old(self).stream().subrange(
                        old(self).position() as int,
                        old(self).position() + 1int,
                    );
                    assert(s.skip(1) =~= Seq::<bool>::empty());
                    assert(bits_value(Seq::<bool>::empty()) == 0);
                }
                Some(v == 1)
            },
        }
    }

    /// The next bit, one at a time, until the input runs out.
    pub fn next(&mut self) -> (r: Option<bool>)
        requires
            old(self).wf(),
        ensures
            final(self).wf(),
            final(self).input() == old(self).input(),
            r is Some <==> old(self).has(1),
            r matches Some(b) ==> b == old(self).stream()[old(self).position() as int],
            final(self).position() == if r is Some {
                old(self).position() + 1
            } else {
                old(self).position()
            },
    {
        self.read_bool()
    }

    /// Reads the next four bits.
    pub fn read_nibble(&mut self) -> (r: Option<Nibble>)
        requires
            old(self).wf(),
        ensures
            final(self).wf(),
            final(self).input() == old(self).input(),
            r is Some <==> old(self).has(4),
            r matches Some(n) ==> n.val() == old(self).upcoming(4),
            final(self).position() == if r is Some {
                old(self).position() + 4
            } else {
                old(self).position()
            },
    {
        match self.read_bits(BitSize::NIBBLE) {
            None => None,
            Some(v) => {
                proof {
                    let s = old(self).stream().subrange(
                        old(self).position() as int,
                        old(self).position() + 4int,
                    );
                    lemma_bits_value_bound(s);
                    lemma2_to64();
                }
                Nibble::new(v as u8)
            },
        }
    }

    /// Reads the next eight bits.
    pub fn read_byte(&mut self) -> (r: Option<u8>)
        requires
            old(self).wf(),
        ensures
            final(self).wf(),
            final(self).input() == old(self).input(),
            r is Some <==> old(self).has(8),
            r matches Some(b) ==> b == old(self).upcoming(8),
            final(self).position() == if r is Some {
                old(self).position() + 8
            } else {
                old(self).position()
            },
    {
        match self.read_bits(BitSize::BYTE) {
            None => None,
            Some(v) => {
                proof {
                    let s = old(self).stream().subrange(
                        old(self).position() as int,
                        old(self).position() + 8int,
                    );
                    lemma_bits_value_bound(s);
                    lemma2_to64();
                }
                Some(v as u8)
            },
        }
    }

    /// Reads the next `bits` bits, the first one as bit 0 of the result;
    /// fails, consuming nothing, where fewer are left.
    pub fn read_bits(&mut self, bits: BitSize) -> (r: Option<u32>)
        requires
            old(self).wf(),
        ensures
            final(self).wf(),
            final(self).input() == old(self).input(),
            r is Some <==> old(self).has(bits.bits()),
            r matches Some(v) ==> v == old(self).upcoming(bits.bits()),
            final(self).position() == if r is Some {
                old(self).position() + bits.bits()
            } else {
                old(self).position()
            },
    {
        let w = bits.as_usize();
        proof {
            bits.lemma_bounds();
        }
        if !self.fill(w) {
            return None;
        }
        let result = self.masked(bits);
        self._advance(w);
        Some(result)
    }

    /// The next `bits` bits, as `read_bits` gives them, without consuming
    /// them.
    pub fn peek_bits(&mut self, bits: BitSize) -> (r: Option<u32>)
        requires
            old(self).wf(),
        ensures
            final(self).wf(),
            final(self).input() == old(self).input(),
            final(self).position() == old(self).position(),
            r is Some <==> old(self).has(bits.bits()),
            r matches Some(v) ==> v == old(self).upcoming(bits.bits()),
    {
        let w = bits.as_usize();
        proof {
            bits.lemma_bounds();
        }
        if !self.fill(w) {
            return None;
        }
        Some(self.masked(bits))
    }

    /// Drops the rest of a partly read byte.
    pub fn skip_to_next_byte_boundary(&mut self)
        requires
            old(self).wf(),
        ensures
            final(self).wf(),
            final(self).input() == old(self).input(),
            final(self).position() == old(self).position() + padding(old(self).position()),
            final(self).position() % 8 == 0,
    {
        let r = self.left & 7;
        proof {
            lemma_low_three_bits(self.left);
        }
        if r != 0 {
            self._advance(r);
        }
    }

    /// The next byte of a reader at a byte boundary.
    fn _read_next_byte(&mut self) -> (r: Option<u8>)
        requires
            old(self).wf(),
            old(self).position() % 8 == 0,
        ensures
            final(self).wf(),
            final(self).input() == old(self).input(),
            r is Some <==> old(self).has(8),
            r matches Some(b) ==> b == old(self).upcoming(8),
            final(self).position() == if r is Some {
                old(self).position() + 8
            } else {
                old(self).position()
            },
            final(self).position() % 8 == 0,
    {
        if self.left == 0 {
            let ghost s = *self;
            let r = self._iter_next();
            proof {
                lemma_bytes_bits_len(s.data@);
                lemma2_to64();
                if s.next < s.data@.len() {
                    let b = s.data@[s.next as int];
                    lemma_bytes_bits_range(s.data@, s.next as int, s.next + 1);
                    let one = s.data@.subrange(s.next as int, s.next + 1);
                    assert(one.drop_last() =~= Seq::<u8>::empty());
                    assert(bytes_bits(Seq::<u8>::empty()) =~= Seq::<bool>::empty());
                    assert(bytes_bits(one) =~= value_bits(b as nat, 8));
                    lemma_bits_value_of(b as nat, 8);
                    lemma_small_mod(b as nat, 256);
                    lemma_value_bits_len(0, 0);
                    assert(value_bits(0, 0) =~= bytes_bits(s.data@).subrange(s.next * 8 + 8, s.next * 8 + 8));
                }
            }
            r
        } else {
            self.read_byte()
        }
    }

    /// Moves to the next byte boundary and reads the byte there.
    pub fn read_next_byte(&mut self) -> (r: Option<u8>)
        requires
            old(self).wf(),
        ensures
            final(self).wf(),
            final(self).input() == old(self).input(),
            ({
                let p: int = (old(self).position() + padding(old(self).position())) as int;
                &&& r is Some <==> p + 8 <= old(self).stream().len()
                &&& r matches Some(b) ==> b == bits_value(old(self).stream().subrange(p, p + 8))
                &&& final(self).position() == if r is Some { p + 8 } else { p }
            }),
    {
        self.skip_to_next_byte_boundary();
        self._read_next_byte()
    }

    /// Moves to the next byte boundary and reads `N` whole bytes; fails,
    /// reading none, where fewer are left.
    pub fn read_next_bytes<const N: usize>(&mut self) -> (r: Option<[u8; N]>)
        requires
            old(self).wf(),
        ensures
            final(self).wf(),
            final(self).input() == old(self).input(),
            ({
                let p: int = (old(self).position() + padding(old(self).position())) as int;
                &&& r is Some <==> p + 8 * N <= old(self).stream().len()
                &&& r matches Some(a) ==> bytes_bits(a@) == old(self).stream().subrange(p as int, p + 8 * N)
                &&& final(self).position() == if r is Some { p + 8 * N } else { p }
            }),
    {
        self.skip_to_next_byte_boundary();
        proof {
            lemma_low_three_bits(self.left);
            lemma_bytes_bits_len(self.data@);
        }
        let avail = (self.data.len() - self.next) + self.left / 8;
        if N > avail {
            return None;
        }
        let ghost p = self.position();
        let mut result = [0u8; N];
        let mut i: usize = 0;
        while i < N
            invariant
                self.wf(),
                self.input() == old(self).input(),
                i <= N,
                p + 8 * N <= self.stream().len(),
                self.position() == p + 8 * i,
                p % 8 == 0,
                result@.len() == N,
                bytes_bits(result@.take(i as int)) == self.stream().subrange(p as int, p + 8 * i),
            decreases N - i,
        {
            let ghost before = *self;
            match self._read_next_byte() {
                None => {
                    return None;
                },
                Some(b) => {
                    proof {
                        let prev = result@.take(i as int);
                        let s = before.stream().subrange(p + 8 * i, p + 8 * i + 8);
                        lemma_value_bits_of_len8(s);
                    }
                    let ghost prev = result@.take(i as int);
                    result[i] = b;
                    proof {
                        assert(result@.take(i as int + 1).drop_last() =~= prev);
                        let st = self.stream();
                        assert(st.subrange(p as int, p + 8 * i + 8) =~= st.subrange(p as int, p + 8 * i)
                            + st.subrange(p + 8 * i, p + 8 * i + 8));
                    }
                    i = i + 1;
                },
            }
        }
        proof {
            assert(result@.take(N as int) =~= result@);
        }
        Some(result)
    }

    /// Moves to the next byte boundary and hands out the next `size` bytes
    /// of the input as they stand; fails, taking none, where fewer are left.
    pub fn read_next_bytes_slice(&mut self, size: usize) -> (r: Option<&'a [u8]>)
        requires
            old(self).wf(),
        ensures
            final(self).wf(),
            final(self).input() == old(self).input(),
            ({
                let p: int = (old(self).position() + padding(old(self).position())) as int;
                &&& r is Some <==> p + 8 * size <= old(self).stream().len()
                &&& r matches Some(s) ==> bytes_bits(s@) == old(self).stream().subrange(p as int, p + 8 * size)
                &&& final(self).position() == if r is Some { p + 8 * size } else { p }
            }),
    {
        self.skip_to_next_byte_boundary();
        proof {
            lemma_low_three_bits(self.left);
            lemma_bytes_bits_len(self.data@);
        }
        let start = self.next - self.left / 8;
        if size > self.data.len() - start {
            return None;
        }
        let end = start + size;
        let out = slice_subrange(self.data, start, end);
        proof {
            lemma_bytes_bits_range(self.data@, start as int, end as int);
            lemma2_to64();
            lemma_value_bits_len(0, 0);
            assert(value_bits(0, 0) =~= bytes_bits(self.data@).subrange(end * 8, end * 8));
        }
        self.acc = 0;
        self.left = 0;
        self.next = end;
        Some(out)
    }
}

proof fn lemma_stream_of_append(a: Seq<VarBitValue>, b: Seq<VarBitValue>)
    ensures
        stream_of(a + b) == stream_of(a) + stream_of(b),
    decreases b.len(),
{
    if b.len() == 0 {
        assert(a + b =~= a);
        assert(stream_of(a) + stream_of(b) =~= stream_of(a));
    } else {
        lemma_stream_of_append(a, b.drop_last());
        assert((a + b).drop_last() =~= a + b.drop_last());
        assert(stream_of(a + b) =~= stream_of(a) + stream_of(b));
    }
}

/// Values written one after another, each fitting its width, read back in
/// the same order and widths: the bits of value `i` start where those of the
/// values before it end, and read as its payload, whatever follows them.
pub proof fn lemma_round_trip(values: Seq<VarBitValue>, tail: Seq<bool>, i: int)
    requires
        0 <= i < values.len(),
        forall|j: int| 0 <= j < values.len() ==> #[trigger] values[j].payload() < pow2(values[j].width()),
    ensures
        ({
            let s = stream_of(values) + tail;
            let at = stream_of(values.take(i)).len();
            let w = values[i].width();
            &&& at + w <= s.len()
            &&& bits_value(s.subrange(at as int, (at + w) as int)) == values[i].payload()
        }),
{
    let v = values[i];
    let before = values.take(i);
    let after = values.skip(i + 1);
    assert(values =~= before + seq![v] + after);
    lemma_stream_of_append(before + seq![v], after);
    lemma_stream_of_append(before, seq![v]);
    assert(seq![v].drop_last() =~= Seq::<VarBitValue>::empty());
    reveal_with_fuel(stream_of, 2);
    assert(stream_of(seq![v]) =~= v.stream_bits());
    lemma_value_bits_len(v.payload(), v.width());
    let s = stream_of(values) + tail;
    let at = stream_of(before).len();
    assert(s.subrange(at as int, (at + v.width()) as int) =~= v.stream_bits());
    lemma_bits_value_of(v.payload(), v.width());
    lemma_small_mod(v.payload(), pow2(v.width()));
}

proof fn lemma_low_three_bits(x: usize)
    ensures
        x & 7 == x % 8,
{
    assert(x & 7 == x % 8) by (bit_vector);
}

/// A byte read back from its eight stream bits.
proof fn lemma_value_bits_of_len8(s: Seq<bool>)
    requires
        s.len() == 8,
    ensures
        bits_value(s) < 256,
        value_bits(bits_value(s), 8) == s,
{
    lemma_bits_value_bound(s);
    lemma2_to64();
    crate::bitseq::lemma_value_bits_of(s);
}

} // verus!
