//! MSB-first bit writer and reader, and the VMX Exp-Golomb style codes.
//!
//! VMX uses two code families:
//!
//! * **value code** (`0` prefix): an unsigned `v >= 2` is written as
//!   `bit_len(v) - 1` zero bits followed by the `bit_len(v)` bits of `v`;
//! * **run code** (`1` prefix): a count `n >= 1` is written as a `1`, then
//!   `bit_len(n) - 1` zero bits, then the `bit_len(n)` bits of `n`.
//!
//! Signed values are mapped with [`to_code`] and [`from_code`]. The model of a
//! stream is a `Seq<bool>`, first bit first.

use vstd::prelude::*;
use vstd::std_specs::bits::*;

verus! {

/// Bit `k` of `v`, counted from the least significant one.
pub open spec fn bit_at(v: u64, k: int) -> bool {
    (v >> (k as u64)) & 1u64 == 1u64
}

/// The low `n` bits of `v`, most significant first.
pub open spec fn bits_of(v: u64, n: nat) -> Seq<bool> {
    Seq::new(n, |i: int| bit_at(v, n - 1 - i))
}

/// Bit `j` of byte `b`, counted from the most significant one.
pub open spec fn byte_bit(b: u8, j: int) -> bool {
    bit_at(b as u64, 7 - j)
}

/// The bits of a byte string.
pub open spec fn bytes_bits(s: Seq<u8>) -> Seq<bool> {
    Seq::new(8 * s.len(), |i: int| byte_bit(s[i / 8], i % 8))
}

/// `n` zero bits.
pub open spec fn zero_bits(n: nat) -> Seq<bool> {
    Seq::new(n, |i: int| false)
}

/// `s` padded with zero bits to a byte boundary.
pub open spec fn pad8(s: Seq<bool>) -> Seq<bool> {
    s + zero_bits(((8 - s.len() as int % 8) % 8) as nat)
}

/// The number whose binary digits are `s`.
pub open spec fn value_of(s: Seq<bool>) -> nat
    decreases s.len(),
{
    if s.len() == 0 {
        0
    } else {
        2 * value_of(s.drop_last()) + (if s.last() {
            1nat
        } else {
            0nat
        })
    }
}

/// The byte string whose bits are `pad8(s)`.
pub open spec fn pack(s: Seq<bool>) -> Seq<u8> {
    Seq::new(
        (pad8(s).len() / 8) as nat,
        |i: int| value_of(pad8(s).subrange(8 * i, 8 * i + 8)) as u8,
    )
}

/// Number of significant bits of `v`.
pub open spec fn bit_len(v: u64) -> nat
    decreases v,
{
    if v == 0 {
        0
    } else {
        1 + bit_len(v / 2)
    }
}

/// The value code of `v >= 1`.
pub open spec fn value_code(v: u64) -> Seq<bool> {
    zero_bits((bit_len(v) - 1) as nat) + bits_of(v, bit_len(v))
}

/// The run code of `n`: empty for 0.
pub open spec fn run_code(n: u64) -> Seq<bool> {
    if n == 0 {
        Seq::empty()
    } else {
        seq![true] + value_code(n)
    }
}

/// `x` reduced to the range of a 16-bit two's complement word.
pub open spec fn wrap16(x: int) -> int {
    (x + 32768) % 65536 - 32768
}

/// The value-code integer of a signed coefficient: `2v + 1` for positive
/// `v`, `2|v|` otherwise.
pub open spec fn code_of(v: int) -> int {
    if v > 0 {
        2 * v + 1
    } else {
        -2 * v
    }
}

/// The signed coefficient that a value-code integer stands for, cut to 16 bits.
pub open spec fn coefficient_of(code: nat) -> int {
    wrap16(if code % 2 == 0 {
        -(code / 2)
    } else {
        (code - 1) / 2
    })
}

// ---------------------------------------------------------------------------
// Facts about words
// ---------------------------------------------------------------------------

proof fn lemma_append_word(a: u64, v: u64, n: u64, k: u64)
    by (bit_vector)
    requires
        n <= 32,
        k < 64,
    ensures
        (((a << n) | (v & (((1u64 << n) - 1) as u64))) >> k) & 1u64 == (if k < n {
            (v >> k) & 1u64
        } else {
            (a >> ((k - n) as u64)) & 1u64
        }),
{
}

proof fn lemma_word_byte(a: u64, s: u64, k: u64)
    by (bit_vector)
    requires
        s < 64,
        k < 8,
    ensures
        ((((a >> s) as u8) as u64) >> k) & 1u64 == (if s + k < 64 {
            (a >> ((s + k) as u64)) & 1u64
        } else {
            0u64
        }),
{
}

proof fn lemma_word_shr(a: u64, s: u64, k: u64)
    by (bit_vector)
    requires
        s < 64,
        k < 64,
        s + k < 64,
    ensures
        ((a >> s) >> k) & 1u64 == (a >> ((s + k) as u64)) & 1u64,
{
}

proof fn lemma_word_shl(a: u64, s: u64, k: u64)
    by (bit_vector)
    requires
        s < 64,
        k < 64,
    ensures
        ((a << s) >> k) & 1u64 == (if k >= s {
            (a >> ((k - s) as u64)) & 1u64
        } else {
            0u64
        }),
{
}

proof fn lemma_word_or(a: u64, b: u64, k: u64)
    by (bit_vector)
    requires
        k < 64,
    ensures
        ((a | b) >> k) & 1u64 == ((a >> k) & 1u64) | ((b >> k) & 1u64),
        (0u64 >> k) & 1u64 == 0,
        ((a >> k) & 1u64) == 0 || ((a >> k) & 1u64) == 1,
        ((b >> k) & 1u64) == 0 || ((b >> k) & 1u64) == 1,
        0u64 | 0u64 == 0u64,
        0u64 | 1u64 == 1u64,
        1u64 | 0u64 == 1u64,
        1u64 | 1u64 == 1u64,
{
}

proof fn lemma_word_halve(v: u64)
    by (bit_vector)
    ensures
        v >> 1u64 == v / 2,
        v & 1u64 == v % 2,
        v >> 0u64 == v,
        0u64 & 1u64 == 0u64,
{
}

/// Bit 0 and the bits of the halved word.
pub proof fn lemma_bit_halve(v: u64, k: int)
    requires
        0 <= k < 64,
    ensures
        bit_at(v, 0) == (v % 2 == 1),
        k < 63 ==> bit_at(v, k + 1) == bit_at(v / 2, k),
        !bit_at(0, k),
{
    lemma_word_halve(v);
    if k < 63 {
        lemma_word_shr(v, 1, k as u64);
    }
    lemma_word_or(v, v, k as u64);
}

/// Bits at and above `bit_len(v)` are clear, the one below it is set.
pub proof fn lemma_bit_len(v: u64)
    ensures
        bit_len(v) <= 64,
        forall|k: int| bit_len(v) <= k < 64 ==> !#[trigger] bit_at(v, k),
        v > 0 ==> bit_len(v) > 0 && bit_at(v, bit_len(v) - 1),
    decreases v,
{
    if v == 0 {
        assert forall|k: int| bit_len(v) <= k < 64 implies !#[trigger] bit_at(v, k) by {
            lemma_bit_halve(v, k);
        }
    } else {
        lemma_bit_len(v / 2);
        lemma_half_bound(v);
        assert forall|k: int| bit_len(v) <= k < 64 implies !#[trigger] bit_at(v, k) by {
            lemma_bit_halve(v, k - 1);
            assert(!bit_at(v / 2, k - 1));
        }
        let n = bit_len(v) - 1;
        if n == 0 {
            lemma_bit_halve(v, 0);
        } else {
            lemma_bit_halve(v, n - 1);
            assert(bit_at(v / 2, n - 1));
        }
    }
}

/// A halved 64-bit word has at most 63 significant bits.
proof fn lemma_half_bound(v: u64)
    ensures
        bit_len(v / 2) <= 63,
{
    lemma_bit_len_pow(v / 2, 63);
    reveal_with_fuel(vstd::arithmetic::power2::pow2, 1);
    vstd::arithmetic::power2::lemma2_to64();
    vstd::arithmetic::power2::lemma2_to64_rest();
}

/// `v < 2^n` has at most `n` significant bits, and conversely.
pub proof fn lemma_bit_len_pow(v: u64, n: nat)
    ensures
        v < vstd::arithmetic::power2::pow2(n) <==> bit_len(v) <= n,
    decreases n,
{
    vstd::arithmetic::power2::lemma2_to64();
    if n > 0 {
        vstd::arithmetic::power2::lemma_pow2_unfold(n);
        lemma_bit_len_pow(v / 2, (n - 1) as nat);
    }
}

/// A number read from its own digits.
pub proof fn lemma_value_of_bits(v: u64, n: nat)
    requires
        n <= 64,
        bit_len(v) <= n,
    ensures
        value_of(bits_of(v, n)) == v,
    decreases n,
{
    if n == 0 {
    } else {
        let s = bits_of(v, n);
        assert(bit_len(v / 2) <= n - 1);
        lemma_value_of_bits(v / 2, (n - 1) as nat);
        lemma_bit_halve(v, 0);
        assert(s.drop_last() =~= bits_of(v / 2, (n - 1) as nat)) by {
            assert forall|i: int| 0 <= i < n - 1 implies s[i] == bits_of(v / 2, (n - 1) as nat)[i] by {
                lemma_bit_halve(v, n - 2 - i);
            }
        }
    }
}

/// Leading zero digits are zero bits.
pub proof fn lemma_bits_of_small(v: u64, a: nat, b: nat)
    requires
        a + b <= 64,
        bit_len(v) <= b,
    ensures
        bits_of(v, a + b) == zero_bits(a) + bits_of(v, b),
{
    lemma_bit_len(v);
    assert(bits_of(v, a + b) =~= zero_bits(a) + bits_of(v, b));
}

/// Leading zeros and significant bits make up the word.
pub proof fn lemma_leading_zeros(v: u64)
    ensures
        u64_leading_zeros(v) == 64 - bit_len(v),
        bit_len(v) <= 64,
    decreases v,
{
    reveal(u64_leading_zeros);
    lemma_bit_len(v);
    if v > 0 {
        lemma_leading_zeros(v / 2);
    }
}

proof fn lemma_byte_value(b: u8)
    ensures
        value_of(bits_of(b as u64, 8)) == b,
{
    vstd::arithmetic::power2::lemma2_to64();
    lemma_bit_len_pow(b as u64, 8);
    lemma_value_of_bits(b as u64, 8);
}

/// Packing undoes taking the bits apart.
pub proof fn lemma_pack_bytes_bits(r: Seq<u8>, s: Seq<bool>)
    requires
        bytes_bits(r) == pad8(s),
    ensures
        r == pack(s),
{
    assert(pad8(s).len() == 8 * r.len());
    assert forall|i: int| 0 <= i < r.len() implies r[i] == pack(s)[i] by {
        lemma_byte_value(r[i]);
        assert(pad8(s).subrange(8 * i, 8 * i + 8) =~= bits_of(r[i] as u64, 8)) by {
            assert forall|j: int| 0 <= j < 8 implies #[trigger] bytes_bits(r)[8 * i + j]
                == byte_bit(r[i], j) by {}
        }
    }
    assert(r =~= pack(s));
}

/// Appending a byte appends its bits.
pub proof fn lemma_bytes_bits_push(s: Seq<u8>, b: u8)
    ensures
        bytes_bits(s.push(b)) == bytes_bits(s) + bits_of(b as u64, 8),
{
    assert(bytes_bits(s.push(b)) =~= bytes_bits(s) + bits_of(b as u64, 8));
}

// ---------------------------------------------------------------------------
// Code mapping
// ---------------------------------------------------------------------------

/// Maps a signed coefficient to its value-code integer; never 0 or 1 for
/// non-zero input.
pub fn to_code(v: i32) -> (r: u32)
    requires
        -0x3FFF_FFFF <= v <= 0x3FFF_FFFF,
    ensures
        r == code_of(v as int),
{
    if v > 0 {
        (2 * v + 1) as u32
    } else {
        (2 * (-v)) as u32
    }
}

proof fn lemma_cut16(x: i64)
    by (bit_vector)
    ensures
        (x as i16) as int == (x + 32768) % 65536 - 32768,
{
}

/// Inverse of [`to_code`], cut to 16 bits.
pub fn from_code(code: u64) -> (r: i16)
    ensures
        r == coefficient_of(code as nat),
{
    let half: i64 = (code / 2) as i64;
    let x: i64 = if code % 2 == 0 {
        -half
    } else {
        half
    };
    proof {
        lemma_cut16(x);
    }
    x as i16
}

/// The code mapping is lossless on 16-bit coefficients.
pub proof fn lemma_code_round_trip(v: int)
    requires
        -32768 <= v <= 32767,
    ensures
        coefficient_of(code_of(v) as nat) == v,
        v != 0 ==> code_of(v) >= 2,
{
}

// ---------------------------------------------------------------------------
// Writer
// ---------------------------------------------------------------------------

/// Growable MSB-first bit writer.
///
/// Bits collect in a 64-bit accumulator and leave it 32 at a time; only the
/// low `nbits` (< 32 between calls) bits of `acc` are pending, anything
/// above them has already been written.
pub struct BitWriter {
    buf: Vec<u8>,
    acc: u64,
    nbits: u32,
}

impl View for BitWriter {
    type V = Seq<bool>;

    /// The bits written so far.
    closed spec fn view(&self) -> Seq<bool> {
        bytes_bits(self.buf@) + bits_of(self.acc, self.nbits as nat)
    }
}

impl Default for BitWriter {
    fn default() -> (r: Self)
        ensures
            r@ == Seq::<bool>::empty(),
            r.wf(),
    {
        BitWriter::with_capacity(0)
    }
}

impl BitWriter {
    /// Fewer than 32 bits are pending.
    pub closed spec fn wf(self) -> bool {
        self.nbits < 32
    }

    /// An empty writer with room for `n` bytes.
    pub fn with_capacity(n: usize) -> (r: Self)
        ensures
            r@ == Seq::<bool>::empty(),
            r.wf(),
    {
        let r = BitWriter { buf: Vec::with_capacity(n), acc: 0, nbits: 0 };
        assert(r@ =~= Seq::<bool>::empty());
        r
    }

    /// Appends the low `n` bits of `v`.
    pub fn put(&mut self, v: u64, n: u32)
        requires
            old(self).wf(),
            n <= 64,
        ensures
            final(self).wf(),
            final(self)@ == old(self)@ + bits_of(v, n as nat),
    {
        if n > 32 {
            self.put_long(v, n);
        } else {
            self.put32(v, n);
        }
    }

    fn put_long(&mut self, v: u64, n: u32)
        requires
            old(self).wf(),
            32 < n <= 64,
        ensures
            final(self).wf(),
            final(self)@ == old(self)@ + bits_of(v, n as nat),
    {
        self.put32(v >> 32, n - 32);
        self.put32(v, 32);
        proof {
            assert forall|k: int| 0 <= k < n - 32 implies #[trigger] bit_at(v >> 32u64, k)
                == bit_at(v, k + 32) by {
                lemma_word_shr(v, 32, k as u64);
            }
            assert(bits_of(v, n as nat) =~= bits_of(v >> 32u64, (n - 32) as nat) + bits_of(v, 32));
            assert(self@ =~= old(self)@ + bits_of(v, n as nat));
        }
    }

    /// Appends the low `n <= 32` bits of `v`.
    fn put32(&mut self, v: u64, n: u32)
        requires
            old(self).wf(),
            n <= 32,
        ensures
            final(self).wf(),
            final(self)@ == old(self)@ + bits_of(v, n as nat),
    {
        let ghost acc0 = self.acc;
        let ghost nb0 = self.nbits;
        assert(1u64 << (n as u64) >= 1u64) by (bit_vector)
            requires
                n <= 32,
        ;
        self.acc = (self.acc << n) | (v & ((1u64 << n) - 1));
        self.nbits = self.nbits + n;
        proof {
            let acc1 = self.acc;
            let total = (nb0 + n) as nat;
            assert forall|k: int| 0 <= k < 64 implies #[trigger] bit_at(acc1, k) == (if k < n {
                bit_at(v, k)
            } else {
                bit_at(acc0, k - n)
            }) by {
                lemma_append_word(acc0, v, n as u64, k as u64);
            }
            assert(bits_of(acc1, total) =~= bits_of(acc0, nb0 as nat) + bits_of(v, n as nat));
            assert(self@ =~= old(self)@ + bits_of(v, n as nat));
        }
        if self.nbits >= 32 {
            let ghost before = self@;
            let ghost nb1 = self.nbits;
            let ghost buf1 = self.buf@;
            self.nbits = self.nbits - 32;
            let s: u32 = self.nbits;
            let b0: u8 = (self.acc >> (s + 24)) as u8;
            let b1: u8 = (self.acc >> (s + 16)) as u8;
            let b2: u8 = (self.acc >> (s + 8)) as u8;
            let b3: u8 = (self.acc >> s) as u8;
            self.buf.push(b0);
            self.buf.push(b1);
            self.buf.push(b2);
            self.buf.push(b3);
            proof {
                let acc1 = self.acc;
                lemma_bytes_bits_push(buf1, b0);
                lemma_bytes_bits_push(buf1.push(b0), b1);
                lemma_bytes_bits_push(buf1.push(b0).push(b1), b2);
                lemma_bytes_bits_push(buf1.push(b0).push(b1).push(b2), b3);
                assert forall|k: int| 0 <= k < 8 implies #[trigger] bit_at(b0 as u64, k) == bit_at(
                    acc1,
                    s + 24 + k,
                ) by {
                    lemma_word_byte(acc1, (s + 24) as u64, k as u64);
                }
                assert forall|k: int| 0 <= k < 8 implies #[trigger] bit_at(b1 as u64, k) == bit_at(
                    acc1,
                    s + 16 + k,
                ) by {
                    lemma_word_byte(acc1, (s + 16) as u64, k as u64);
                }
                assert forall|k: int| 0 <= k < 8 implies #[trigger] bit_at(b2 as u64, k) == bit_at(
                    acc1,
                    s + 8 + k,
                ) by {
                    lemma_word_byte(acc1, (s + 8) as u64, k as u64);
                }
                assert forall|k: int| 0 <= k < 8 implies #[trigger] bit_at(b3 as u64, k) == bit_at(
                    acc1,
                    s + k,
                ) by {
                    lemma_word_byte(acc1, s as u64, k as u64);
                }
                assert(bits_of(acc1, nb1 as nat) =~= bits_of(b0 as u64, 8) + bits_of(b1 as u64, 8)
                    + bits_of(b2 as u64, 8) + bits_of(b3 as u64, 8) + bits_of(acc1, s as nat));
                assert(self@ =~= before);
            }
        }
    }

    /// Value code for `v >= 1`.
    pub fn put_value(&mut self, v: u32)
        requires
            old(self).wf(),
            v >= 1,
        ensures
            final(self).wf(),
            final(self)@ == old(self)@ + value_code(v as u64),
    {
        proof {
            lemma_leading_zeros(v as u64);
            lemma_bit_len(v as u64);
            vstd::arithmetic::power2::lemma2_to64();
            lemma_bit_len_pow(v as u64, 32);
        }
        let bl: u32 = 64 - (v as u64).leading_zeros();
        self.put(v as u64, 2 * bl - 1);
        proof {
            lemma_bits_of_small(v as u64, (bl - 1) as nat, bl as nat);
        }
    }

    /// Run code for `n >= 1`; nothing for `n == 0`.
    pub fn put_run(&mut self, n: u32)
        requires
            old(self).wf(),
        ensures
            final(self).wf(),
            final(self)@ == old(self)@ + run_code(n as u64),
    {
        if n == 0 {
            assert(self@ =~= old(self)@ + run_code(0));
            return ;
        }
        self.put(1, 1);
        self.put_value(n);
        assert(bits_of(1, 1) =~= seq![true]) by {
            lemma_bit_halve(1, 0);
        }
        assert(self@ =~= old(self)@ + run_code(n as u64));
    }

    /// Run code for `run` (nothing if 0) followed by the value code for
    /// `v >= 1`.
    pub fn put_run_value(&mut self, run: u32, v: u32)
        requires
            old(self).wf(),
            v >= 1,
        ensures
            final(self).wf(),
            final(self)@ == old(self)@ + run_code(run as u64) + value_code(v as u64),
    {
        self.put_run(run);
        self.put_value(v);
    }

    /// Pads with zero bits to the next byte boundary.
    pub fn align(&mut self)
        requires
            old(self).wf(),
        ensures
            final(self).wf(),
            final(self)@ == pad8(old(self)@),
    {
        let n: u32 = (8 - self.nbits % 8) % 8;
        self.put(0, n);
        proof {
            assert(n == (8 - old(self)@.len() as int % 8) % 8);
            assert(bits_of(0, n as nat) =~= zero_bits(n as nat)) by {
                assert forall|k: int| 0 <= k < n implies !#[trigger] bit_at(0, k) by {
                    lemma_bit_halve(0, k);
                }
            }
        }
    }

    /// The bytes written, padded with zero bits to a byte boundary.
    pub fn into_bytes(self) -> (r: Vec<u8>)
        requires
            self.wf(),
        ensures
            r@ == pack(self@),
    {
        let mut w = self;
        w.align();
        let ghost bits = w@;
        let mut buf: Vec<u8> = w.buf;
        let mut n: u32 = w.nbits;
        let acc: u64 = w.acc;
        assert(n % 8 == 0) by {
            assert(bits.len() % 8 == 0);
        }
        while n > 0
            invariant
                n < 32,
                n % 8 == 0,
                bytes_bits(buf@) + bits_of(acc, n as nat) == bits,
            decreases n,
        {
            let ghost n0 = n;
            let ghost buf0 = buf@;
            n = n - 8;
            let b: u8 = (acc >> n) as u8;
            buf.push(b);
            proof {
                lemma_bytes_bits_push(buf0, b);
                assert forall|k: int| 0 <= k < 8 implies #[trigger] bit_at(b as u64, k) == bit_at(
                    acc,
                    n + k,
                ) by {
                    lemma_word_byte(acc, n as u64, k as u64);
                }
                assert(bits_of(acc, n0 as nat) =~= bits_of(b as u64, 8) + bits_of(acc, n as nat));
                assert(bytes_bits(buf@) + bits_of(acc, n as nat) =~= bits);
            }
        }
        proof {
            assert(bytes_bits(buf@) =~= bits);
            lemma_pack_bytes_bits(buf@, self@);
        }
        buf
    }
}

// ---------------------------------------------------------------------------
// Reader
// ---------------------------------------------------------------------------

/// One decoded AC stream symbol.
#[derive(Clone, Copy, Debug, PartialEq, Eq, Structural)]
pub enum AcSymbol {
    /// A run of this many zero coefficients.
    Run(u64),
    /// A non-zero coefficient's value code (see [`from_code`]).
    Value(u64),
}

/// Error raised when a bitstream is malformed.
#[derive(Clone, Copy, Debug, PartialEq, Eq, Structural)]
pub struct Corrupt;

/// Bit `i` of a stream; past its end every bit is set.
pub open spec fn stream_bit(data: Seq<u8>, i: int) -> bool {
    if i < 8 * data.len() {
        byte_bit(data[i / 8], i % 8)
    } else {
        true
    }
}

/// The `n` stream bits from position `pos` on.
pub open spec fn stream_bits(data: Seq<u8>, pos: int, n: nat) -> Seq<bool> {
    Seq::new(n, |i: int| stream_bit(data, pos + i))
}

/// How many zero bits start at `pos`, counted up to `limit`.
pub open spec fn zero_run(data: Seq<u8>, pos: int, limit: nat) -> nat
    decreases limit,
{
    if limit == 0 || stream_bit(data, pos) {
        0
    } else {
        1 + zero_run(data, pos + 1, (limit - 1) as nat)
    }
}

/// What follows the prefix of a code at `pos`: `z` zeros, then `z + 2` bits.
/// Gives those bits' value and the position after them, or `None` for a code
/// longer than the format allows.
pub open spec fn tail_at(data: Seq<u8>, pos: int) -> Option<(u64, int)> {
    let z = zero_run(data, pos, 57);
    if z > 54 {
        None
    } else {
        Some((value_of(stream_bits(data, pos + z, z + 2)) as u64, pos + z + z + 2))
    }
}

/// The AC symbol at `pos` and the position after it.
pub open spec fn symbol_at(data: Seq<u8>, pos: int) -> Option<(AcSymbol, int)> {
    if stream_bit(data, pos) {
        if stream_bit(data, pos + 1) {
            Some((AcSymbol::Run(1), pos + 2))
        } else {
            match tail_at(data, pos + 2) {
                Some((v, p)) => Some((AcSymbol::Run(v), p)),
                None => None,
            }
        }
    } else {
        match tail_at(data, pos + 1) {
            Some((v, p)) => Some((AcSymbol::Value(v), p)),
            None => None,
        }
    }
}

/// The top `c` bits of `w` are the stream bits from `pos` on.
spec fn shows(w: u64, data: Seq<u8>, pos: int, c: int) -> bool {
    forall|j: int| 0 <= j < c ==> #[trigger] bit_at(w, 63 - j) == stream_bit(data, pos + j)
}

proof fn lemma_shows_shift(w: u64, data: Seq<u8>, pos: int, c: int, h: int)
    requires
        shows(w, data, pos, c),
        0 <= h <= c <= 64,
        h < 64,
    ensures
        shows(w << (h as u64), data, pos + h, c - h),
{
    assert forall|j: int| 0 <= j < c - h implies #[trigger] bit_at(w << (h as u64), 63 - j)
        == stream_bit(data, pos + h + j) by {
        lemma_word_shl(w, h as u64, (63 - j) as u64);
        assert(bit_at(w, 63 - (h + j)) == stream_bit(data, pos + (h + j)));
    }
}

/// The zeros at the top of a word that shows the stream.
proof fn lemma_shows_zeros(w: u64, data: Seq<u8>, pos: int, c: int, limit: nat)
    requires
        shows(w, data, pos, c),
        limit <= c <= 64,
    ensures
        u64_leading_zeros(w) >= 0,
        zero_run(data, pos, limit) == if u64_leading_zeros(w) < limit {
            u64_leading_zeros(w)
        } else {
            limit as int
        },
{
    lemma_leading_zeros(w);
    lemma_bit_len(w);
    let z = u64_leading_zeros(w);
    assert forall|j: int| 0 <= j < z && j < c implies !#[trigger] stream_bit(data, pos + j) by {
        assert(!bit_at(w, 63 - j));
    }
    if z < limit {
        assert(bit_at(w, 63 - z));
        assert(stream_bit(data, pos + z));
        lemma_zero_run(data, pos, limit, z as nat);
    } else {
        lemma_zero_run_full(data, pos, limit);
    }
}

/// A run of exactly `z` zeros.
pub proof fn lemma_zero_run(data: Seq<u8>, pos: int, limit: nat, z: nat)
    requires
        z < limit,
        forall|j: int| 0 <= j < z ==> !#[trigger] stream_bit(data, pos + j),
        stream_bit(data, pos + z),
    ensures
        zero_run(data, pos, limit) == z,
    decreases limit,
{
    if z > 0 {
        assert(!stream_bit(data, pos + 0));
        assert forall|j: int| 0 <= j < z - 1 implies !#[trigger] stream_bit(data, pos + 1 + j) by {
            assert(!stream_bit(data, pos + (1 + j)));
        }
        assert(stream_bit(data, pos + 1 + (z - 1)));
        lemma_zero_run(data, pos + 1, (limit - 1) as nat, (z - 1) as nat);
    } else {
        assert(stream_bit(data, pos + 0));
    }
}

proof fn lemma_zero_run_full(data: Seq<u8>, pos: int, limit: nat)
    requires
        forall|j: int| 0 <= j < limit ==> !#[trigger] stream_bit(data, pos + j),
    ensures
        zero_run(data, pos, limit) == limit,
    decreases limit,
{
    if limit > 0 {
        assert(!stream_bit(data, pos + 0));
        assert forall|j: int| 0 <= j < limit - 1 implies !#[trigger] stream_bit(
            data,
            pos + 1 + j,
        ) by {
            assert(!stream_bit(data, pos + (1 + j)));
        }
        lemma_zero_run_full(data, pos + 1, (limit - 1) as nat);
    }
}

/// A zero run ends at a set bit.
pub proof fn lemma_zero_run_end(data: Seq<u8>, pos: int, limit: nat)
    ensures
        zero_run(data, pos, limit) <= limit,
        zero_run(data, pos, limit) < limit ==> stream_bit(data, pos + zero_run(data, pos, limit)),
    decreases limit,
{
    if limit > 0 && !stream_bit(data, pos) {
        lemma_zero_run_end(data, pos + 1, (limit - 1) as nat);
    }
}

/// The first `n` stream bits as a number, taken from the top of a word.
proof fn lemma_shows_value(w: u64, data: Seq<u8>, pos: int, c: int, n: nat)
    requires
        shows(w, data, pos, c),
        0 < n <= c <= 64,
    ensures
        (w >> ((64 - n) as u64)) as nat == value_of(stream_bits(data, pos, n)),
{
    let v = w >> ((64 - n) as u64);
    assert forall|k: int| 0 <= k < n implies #[trigger] bit_at(v, k) == bit_at(w, k + 64 - n) by {
        lemma_word_shr(w, (64 - n) as u64, k as u64);
    }
    assert(bits_of(v, n) =~= stream_bits(data, pos, n)) by {
        assert forall|i: int| 0 <= i < n implies bits_of(v, n)[i] == stream_bits(data, pos, n)[i] by {
            assert(bit_at(v, n - 1 - i) == bit_at(w, 63 - i));
        }
    }
    vstd::bits::lemma_u64_shr_is_div(w, (64 - n) as u64);
    vstd::arithmetic::power2::lemma_pow2_adds(n, (64 - n) as nat);
    vstd::arithmetic::power2::lemma2_to64_rest();
    vstd::arithmetic::power2::lemma_pow2_pos((64 - n) as nat);
    assert(w as nat / vstd::arithmetic::power2::pow2((64 - n) as nat)
        < vstd::arithmetic::power2::pow2(n)) by (nonlinear_arith)
        requires
            w < vstd::arithmetic::power2::pow2(n) * vstd::arithmetic::power2::pow2(
                (64 - n) as nat,
            ),
            vstd::arithmetic::power2::pow2((64 - n) as nat) > 0,
    ;
    lemma_bit_len_pow(v, n);
    lemma_value_of_bits(v, n);
}

/// MSB-first bit reader over one slice stream. Reads past the end return `1`
/// bits, so truncated input ends quickly instead of looping.
pub struct BitReader<'a> {
    data: &'a [u8],
    /// Absolute bit position.
    pos: u64,
}

impl<'a> BitReader<'a> {
    /// The bytes read from.
    pub closed spec fn data(self) -> Seq<u8> {
        self.data@
    }

    /// The bit position.
    pub closed spec fn at(self) -> int {
        self.pos as int
    }

    /// A reader at the first bit of `data`.
    pub fn new(data: &'a [u8]) -> (r: Self)
        ensures
            r.data() == data@,
            r.at() == 0,
    {
        BitReader { data, pos: 0 }
    }

    /// The bit position.
    pub fn position(&self) -> (r: u64)
        ensures
            r == self.at(),
    {
        self.pos
    }

    /// The next bits (MSB-first, at least 57 of them) without consuming them.
    fn peek64(&self) -> (w: u64)
        ensures
            shows(w, self.data(), self.at(), 57),
    {
        let byte: u64 = self.pos / 8;
        let off: u64 = self.pos % 8;
        let len: u64 = self.data.len() as u64;
        let ghost d = self.data@;
        let mut w: u64 = 0;
        let mut k: u64 = 0;
        while k < 8
            invariant
                k <= 8,
                d == self.data@,
                len == self.data.len(),
                byte <= u64::MAX / 8,
                forall|t: int|
                    0 <= t < 8 * k ==> #[trigger] bit_at(w, t) == stream_bit(
                        d,
                        8 * byte + 8 * k - 1 - t,
                    ),
            decreases 8 - k,
        {
            let i: u64 = byte + k;
            let b: u8 = if i < len {
                self.data[i as usize]
            } else {
                0xFF
            };
            let ghost w0 = w;
            w = (w << 8u64) | b as u64;
            k = k + 1;
            proof {
                assert forall|t: int| 0 <= t < 8 * k implies #[trigger] bit_at(w, t) == stream_bit(
                    d,
                    8 * byte + 8 * k - 1 - t,
                ) by {
                    lemma_word_or(w0 << 8u64, b as u64, t as u64);
                    lemma_word_shl(w0, 8, t as u64);
                    if t < 8 {
                        let j = 8 * byte + 8 * k - 1 - t;
                        assert(j / 8 == i && j % 8 == 7 - t);
                        if i >= len {
                            lemma_ones(t as u64);
                        }
                    } else {
                        vstd::arithmetic::power2::lemma2_to64();
                        lemma_bit_len_pow(b as u64, 8);
                        lemma_bit_len(b as u64);
                        assert(!bit_at(b as u64, t));
                        assert(bit_at(w0, t - 8) == stream_bit(d, 8 * byte + 8 * (k - 1) - 1 - (t - 8)));
                    }
                }
            }
        }
        proof {
            assert(shows(w, d, 8 * byte, 64)) by {
                assert forall|j: int| 0 <= j < 64 implies #[trigger] bit_at(w, 63 - j)
                    == stream_bit(d, 8 * byte + j) by {
                    assert(bit_at(w, 63 - j) == stream_bit(d, 8 * byte + 8 * k - 1 - (63 - j)));
                }
            }
            lemma_shows_shift(w, d, 8 * byte, 64, off as int);
        }
        w << off
    }

    /// Reads one bit.
    pub fn bit(&mut self) -> (r: u32)
        requires
            old(self).at() < 0x1000_0000_0000_0000,
        ensures
            final(self).data() == old(self).data(),
            final(self).at() == old(self).at() + 1,
            r == if stream_bit(old(self).data(), old(self).at()) {
                1u32
            } else {
                0u32
            },
    {
        let w: u64 = self.peek64();
        proof {
            lemma_word_or(w, w, 63);
            lemma_top_bit(w);
            assert(bit_at(w, 63 - 0) == stream_bit(self.data@, self.pos + 0));
        }
        let b: u32 = (w >> 63u64) as u32;
        self.pos = self.pos + 1;
        b
    }

    /// Counts and consumes leading zero bits (at most 56).
    pub fn zeros(&mut self) -> (r: Result<u32, Corrupt>)
        requires
            old(self).at() < 0x1000_0000_0000_0000,
        ensures
            final(self).data() == old(self).data(),
            match r {
                Ok(z) => {
                    &&& z == zero_run(old(self).data(), old(self).at(), 57)
                    &&& z <= 56
                    &&& final(self).at() == old(self).at() + z
                },
                Err(_) => {
                    &&& zero_run(old(self).data(), old(self).at(), 57) == 57
                    &&& final(self).at() == old(self).at()
                },
            },
    {
        let w: u64 = self.peek64();
        proof {
            lemma_shows_zeros(w, self.data@, self.pos as int, 57, 57);
            lemma_leading_zeros(w);
        }
        let z: u32 = w.leading_zeros();
        if z > 56 {
            return Err(Corrupt);
        }
        self.pos = self.pos + z as u64;
        Ok(z)
    }

    /// Reads `n <= 56` bits.
    pub fn bits(&mut self, n: u32) -> (r: u64)
        requires
            old(self).at() < 0x1000_0000_0000_0000,
            n <= 56,
        ensures
            final(self).data() == old(self).data(),
            final(self).at() == old(self).at() + n,
            r == value_of(stream_bits(old(self).data(), old(self).at(), n as nat)),
    {
        if n == 0 {
            return 0;
        }
        let w: u64 = self.peek64();
        proof {
            lemma_shows_value(w, self.data@, self.pos as int, 57, n as nat);
        }
        let v: u64 = w >> ((64 - n) as u64);
        self.pos = self.pos + n as u64;
        v
    }

    /// Reads the tail of a value or run code whose leading `0` (value) or
    /// `1` + `0` (run) has already been consumed: remaining zeros, then
    /// `zeros + 2` bits.
    pub fn code_tail(&mut self) -> (r: Result<u64, Corrupt>)
        requires
            old(self).at() < 0x0800_0000_0000_0000,
        ensures
            final(self).data() == old(self).data(),
            old(self).at() <= final(self).at() <= old(self).at() + 112,
            match tail_at(old(self).data(), old(self).at()) {
                Some((v, p)) => r == Ok::<u64, Corrupt>(v) && final(self).at() == p,
                None => r == Err::<u64, Corrupt>(Corrupt),
            },
    {
        let z: u32 = self.zeros()?;
        let n: u32 = z + 2;
        if n > 56 {
            return Err(Corrupt);
        }
        Ok(self.bits(n))
    }

    /// Reads one symbol of the AC stream: a run code (`1` prefix) or a value
    /// code (`0` prefix), from a single peek whenever the whole code is
    /// inside it.
    pub fn ac_symbol(&mut self) -> (r: Result<AcSymbol, Corrupt>)
        requires
            old(self).at() < 0x0400_0000_0000_0000,
        ensures
            final(self).data() == old(self).data(),
            old(self).at() <= final(self).at() <= old(self).at() + 114,
            match symbol_at(old(self).data(), old(self).at()) {
                Some((s, p)) => r == Ok::<AcSymbol, Corrupt>(s) && final(self).at() == p,
                None => r == Err::<AcSymbol, Corrupt>(Corrupt),
            },
    {
        let w: u64 = self.peek64();
        let ghost d = self.data@;
        let ghost p = self.pos as int;
        proof {
            lemma_top_bit(w);
            lemma_top_two(w);
            lemma_word_or(w, w, 63);
            lemma_word_or(w, w, 62);
            assert(bit_at(w, 63 - 0) == stream_bit(d, p + 0));
            assert(bit_at(w, 63 - 1) == stream_bit(d, p + 1));
        }
        if w >> 62u64 == 3 {
            self.pos = self.pos + 2;
            return Ok(AcSymbol::Run(1));
        }
        let run: u64 = w >> 63u64;
        let head: u64 = 1 + run;
        let wh: u64 = w << head;
        proof {
            lemma_shows_shift(w, d, p, 57, head as int);
            lemma_shows_zeros(wh, d, p + head, 57 - head, (57 - head) as nat);
            lemma_leading_zeros(wh);
        }
        let z: u32 = wh.leading_zeros();
        if z <= 26 {
            let n: u32 = z + 2;
            proof {
                lemma_shows_shift(wh, d, p + head, 57 - head, z as int);
                lemma_shows_value(wh << (z as u64), d, p + head + z, 57 - head - z, n as nat);
                lemma_zero_run_limits(d, p + head, (57 - head) as nat, 57);
            }
            let v: u64 = (wh << (z as u64)) >> ((64 - n) as u64);
            self.pos = self.pos + head + z as u64 + n as u64;
            return Ok(
                if run == 1 {
                    AcSymbol::Run(v)
                } else {
                    AcSymbol::Value(v)
                },
            );
        }
        self.pos = self.pos + head;
        let v: u64 = self.code_tail()?;
        Ok(
            if run == 1 {
                AcSymbol::Run(v)
            } else {
                AcSymbol::Value(v)
            },
        )
    }

    /// Skips to the next byte boundary.
    pub fn align(&mut self)
        requires
            old(self).at() < 0x1000_0000_0000_0000,
        ensures
            final(self).data() == old(self).data(),
            final(self).at() == (old(self).at() + 7) / 8 * 8,
    {
        self.pos = (self.pos + 7) / 8 * 8;
    }
}

proof fn lemma_top_bit(w: u64)
    by (bit_vector)
    ensures
        w >> 63u64 <= 1,
        w >> 63u64 == (w >> 63u64) & 1u64,
{
}

proof fn lemma_top_two(w: u64)
    by (bit_vector)
    ensures
        w >> 62u64 == 3 <==> ((w >> 63u64) & 1u64 == 1 && (w >> 62u64) & 1u64 == 1),
{
}

proof fn lemma_ones(k: u64)
    by (bit_vector)
    requires
        k < 8,
    ensures
        ((0xFFu8 as u64) >> k) & 1u64 == 1,
{
}

/// A run that ends inside the smaller limit is the same under the larger one.
pub proof fn lemma_zero_run_limits(data: Seq<u8>, pos: int, a: nat, b: nat)
    requires
        a <= b,
        zero_run(data, pos, a) < a,
    ensures
        zero_run(data, pos, b) == zero_run(data, pos, a),
    decreases a,
{
    if !stream_bit(data, pos) {
        lemma_zero_run_limits(data, pos + 1, (a - 1) as nat, (b - 1) as nat);
    }
}

/// A number with `n` digits, the first one set.
pub proof fn lemma_value_bounds(s: Seq<bool>)
    requires
        s.len() > 0,
    ensures
        value_of(s) < vstd::arithmetic::power2::pow2(s.len()),
        s[0] ==> value_of(s) >= vstd::arithmetic::power2::pow2((s.len() - 1) as nat),
    decreases s.len(),
{
    vstd::arithmetic::power2::lemma2_to64();
    vstd::arithmetic::power2::lemma_pow2_unfold(s.len());
    if s.len() == 1 {
        assert(s.drop_last() =~= Seq::empty());
        assert(value_of(s.drop_last()) == 0);
    } else {
        lemma_value_bounds(s.drop_last());
        vstd::arithmetic::power2::lemma_pow2_unfold((s.len() - 1) as nat);
    }
}

/// A tail holds at least 2 and ends within 112 bits.
pub proof fn lemma_tail(data: Seq<u8>, pos: int)
    ensures
        match tail_at(data, pos) {
            Some((v, p)) => 2 <= v < 0x0100_0000_0000_0000 && pos + 2 <= p <= pos + 110,
            None => true,
        },
{
    let z = zero_run(data, pos, 57);
    lemma_zero_run_end(data, pos, 57);
    if z <= 54 {
        let s = stream_bits(data, pos + z, z + 2);
        lemma_value_bounds(s);
        vstd::arithmetic::power2::lemma2_to64();
        vstd::arithmetic::power2::lemma2_to64_rest();
        if z + 1 > 1 {
            vstd::arithmetic::power2::lemma_pow2_strictly_increases(1, z + 1);
        }
        if z + 2 < 56 {
            vstd::arithmetic::power2::lemma_pow2_strictly_increases(z + 2, 56);
        }
    }
}

/// The digits of a number are the digits it was made of.
pub proof fn lemma_bits_of_value(s: Seq<bool>)
    requires
        s.len() <= 64,
    ensures
        value_of(s) < 0x1_0000_0000_0000_0000,
        bits_of(value_of(s) as u64, s.len()) == s,
    decreases s.len(),
{
    vstd::arithmetic::power2::lemma2_to64();
    vstd::arithmetic::power2::lemma2_to64_rest();
    if s.len() > 0 {
        lemma_value_bounds(s);
        if s.len() < 64 {
            vstd::arithmetic::power2::lemma_pow2_strictly_increases(s.len(), 64);
        }
        let h = s.drop_last();
        lemma_bits_of_value(h);
        let v = value_of(s) as u64;
        assert(v / 2 == value_of(h) as u64);
        assert forall|i: int| 0 <= i < s.len() implies bits_of(v, s.len())[i] == s[i] by {
            let k = s.len() - 1 - i;
            if k == 0 {
                lemma_bit_halve(v, 0);
            } else {
                lemma_bit_halve(v, k - 1);
                assert(bits_of(value_of(h) as u64, h.len())[i] == h[i]);
            }
        }
    }
    assert(bits_of(value_of(s) as u64, s.len()) =~= s);
}

/// Packed bits are found in the stream, each at its place.
pub proof fn lemma_packed(s: Seq<bool>, i: int)
    requires
        0 <= i < pad8(s).len(),
    ensures
        stream_bit(pack(s), i) == pad8(s)[i],
{
    let p = pad8(s);
    let b = p.subrange(8 * (i / 8), 8 * (i / 8) + 8);
    lemma_bits_of_value(b);
    lemma_value_bounds(b);
    vstd::arithmetic::power2::lemma2_to64();
    let v = value_of(b) as u8;
    assert(pack(s)[i / 8] == v);
    assert(v as u64 == value_of(b) as u64);
    assert(bits_of(v as u64, 8)[i % 8] == b[i % 8]);
}

} // verus!
