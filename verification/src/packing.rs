//! Most-significant-bit-first bit packing for every width from 1 to 32.
//!
//! One [`BitWriter`] and one [`BitReader`] serve all widths; the dispatch
//! [`Strategy`] (native copy, whole groups in a 64-bit word, or the generic
//! accumulator) only changes how the same bytes are produced.

use vstd::prelude::*;
use vstd::arithmetic::power2::*;
use vstd::arithmetic::mul::*;
use vstd::arithmetic::div_mod::lemma_small_mod;
use crate::bitseq::{
    bits_of, bytes_bits, decode, nat_of, pad_bits, stream_of, to_bytes, zeros, lemma_bits_of_concat,
    lemma_bits_of_eq, lemma_bits_of_len, lemma_bits_of_mod, lemma_bits_of_split, lemma_bits_of_zero,
    lemma_bytes_bits_len, lemma_bytes_bits_push, lemma_pow2_basics, lemma_bytes_bits_at,
    lemma_bytes_bits_skip, lemma_bits_of_window, lemma_bits_of_nat_of, lemma_nat_of_append,
    lemma_zero_window, lemma_decode_split, lemma_to_bytes, lemma_decode_stream,
    lemma_stream_decode, lemma_decode_fits,
    lemma_pow2_strictly_increases_or_eq, lemma_stream_append, lemma_stream_len, lemma_stream_push,
    lemma_to_bytes_unique, lemma_nat_of_bits_of,
};
use crate::model::{Width, gcd, native_width, lemma_pack_group_closes_bytes};

verus! {

/// Error while packing.
#[derive(Debug, Clone, Copy, PartialEq, Eq, Structural)]
pub enum PackError {
    /// A value does not fit in `bits` bits.
    ValueTooWide {
        /// Position of the value in the sequence.
        index: usize,
        /// The refused value.
        value: u32,
        /// The width it does not fit in.
        bits: u8,
    },
}

/// Error while unpacking.
#[derive(Debug, Clone, Copy, PartialEq, Eq, Structural)]
pub enum UnpackError {
    /// The buffer is shorter than `n_symbols` symbols need.
    Truncated {
        /// Bytes needed for `n_symbols` symbols.
        expected_bytes: usize,
        /// Bytes received.
        got_bytes: usize,
    },
    /// Bytes are left over past what `n_symbols` symbols take.
    TrailingBytes {
        /// Bytes needed for `n_symbols` symbols.
        expected_bytes: usize,
        /// Bytes received.
        got_bytes: usize,
    },
    /// The completion bits of the last byte are not zero.
    PaddingNotZero {
        /// How many completion bits the last byte has.
        padding_bits: u32,
        /// The last byte, as received.
        last_byte: u8,
    },
}

/// Largest value that fits in `bits` bits.
pub open spec fn max_value_of(bits: nat) -> nat {
    if bits >= 32 {
        u32::MAX as nat
    } else {
        (pow2(bits) - 1) as nat
    }
}

/// Bytes taken by `n` symbols of `b` bits, the completion included.
pub open spec fn packed_len_of(n: nat, b: nat) -> nat {
    (n * b + 7) / 8
}

/// Position of the first value that does not fit in `b` bits, if any.
pub open spec fn first_too_wide(vals: Seq<u32>, b: nat) -> Option<int>
    decreases vals.len(),
{
    if vals.len() == 0 {
        None
    } else {
        match first_too_wide(vals.drop_last(), b) {
            Some(i) => Some(i),
            None => if vals.last() as nat >= pow2(b) {
                Some(vals.len() - 1)
            } else {
                None
            },
        }
    }
}

/// What [`first_too_wide`] says of the values.
pub proof fn lemma_first_too_wide(vals: Seq<u32>, b: nat)
    ensures
        match first_too_wide(vals, b) {
            Some(i) => 0 <= i < vals.len() && vals[i] as nat >= pow2(b) && forall|j: int|
                0 <= j < i ==> (vals[j] as nat) < pow2(b),
            None => forall|j: int| 0 <= j < vals.len() ==> (vals[j] as nat) < pow2(b),
        },
    decreases vals.len(),
{
    if vals.len() > 0 {
        lemma_first_too_wide(vals.drop_last(), b);
        assert forall|j: int| 0 <= j < vals.len() - 1 implies vals[j] == vals.drop_last()[j] by {}
    }
}

/// Once a prefix holds a value too wide, the first such value stays the first.
proof fn lemma_first_too_wide_prefix(vals: Seq<u32>, k: int, b: nat)
    requires
        0 <= k <= vals.len(),
        first_too_wide(vals.take(k), b) is Some,
    ensures
        first_too_wide(vals, b) == first_too_wide(vals.take(k), b),
    decreases vals.len() - k,
{
    if k < vals.len() {
        assert(vals.take(k + 1).drop_last() =~= vals.take(k));
        lemma_first_too_wide_prefix(vals, k + 1, b);
    } else {
        assert(vals.take(k) =~= vals);
    }
}

/// What packing `vals` in `b` bits gives: the first value too wide, or the bytes.
pub open spec fn spec_pack(vals: Seq<u32>, b: nat) -> Result<Seq<u8>, PackError> {
    match first_too_wide(vals, b) {
        Some(i) => Err(PackError::ValueTooWide { index: i as usize, value: vals[i], bits: b as u8 }),
        None => Ok(to_bytes(stream_of(vals, b))),
    }
}

/// What unpacking exactly `n` symbols of `b` bits from `bytes` gives.
pub open spec fn spec_unpack(bytes: Seq<u8>, n: nat, b: nat) -> Result<Seq<u32>, UnpackError> {
    let expected = packed_len_of(n, b);
    let pad = pad_bits(n * b);
    if bytes.len() < expected {
        Err(UnpackError::Truncated { expected_bytes: expected as usize, got_bytes: bytes.len() as usize })
    } else if bytes.len() > expected {
        Err(
            UnpackError::TrailingBytes {
                expected_bytes: expected as usize,
                got_bytes: bytes.len() as usize,
            },
        )
    } else if pad > 0 && (bytes.last() as nat) % pow2(pad) != 0 {
        Err(UnpackError::PaddingNotZero { padding_bits: pad as u32, last_byte: bytes.last() })
    } else {
        Ok(decode(bytes_bits(bytes), b, n))
    }
}

/// Largest value that fits in `bits` bits.
pub fn max_value(bits: u8) -> (r: u32)
    ensures
        r == max_value_of(bits as nat),
{
    if bits >= 32 {
        u32::MAX
    } else {
        proof {
            vstd::bits::lemma_u32_pow2_no_overflow(bits as nat);
            vstd::bits::lemma_u32_shl_is_mul(1, bits as u32);
        }
        (1u32 << bits) - 1
    }
}

/// Bytes taken by `n_symbols` symbols of width `w`, the completion included.
pub fn packed_len(n_symbols: usize, w: Width) -> (r: usize)
    requires
        n_symbols * w.spec_bits() <= usize::MAX,
    ensures
        r == packed_len_of(n_symbols as nat, w.spec_bits() as nat),
{
    let bits = n_symbols * (w.bits() as usize);
    let extra: usize = if bits % 8 != 0 {
        1
    } else {
        0
    };
    bits / 8 + extra
}

/// Dispatch strategy chosen for a width.
#[derive(Debug, Clone, Copy, PartialEq, Eq, Structural)]
pub enum Strategy {
    /// `b` is 8, 16 or 32: a symbol is 1, 2 or 4 whole bytes.
    Native {
        /// Bytes per symbol: 1, 2 or 4.
        bytes: u8,
    },
    /// A group of `lcm(b, 8) / b` symbols that fits in a 64-bit word and closes in bytes.
    Group {
        /// Symbols per group.
        symbols: u8,
        /// Bytes per group.
        bytes: u8,
    },
    /// The generic 64-bit accumulator, byte by byte.
    Generic,
}

/// Strategy of a width given in bits.
pub open spec fn strategy_of(b: nat) -> Strategy {
    if native_width(b) {
        Strategy::Native { bytes: (b / 8) as u8 }
    } else if (8nat / gcd(b, 8)) * b <= 64 {
        Strategy::Group { symbols: (8nat / gcd(b, 8)) as u8, bytes: (b / gcd(b, 8)) as u8 }
    } else {
        Strategy::Generic
    }
}

impl Strategy {
    /// Strategy of the width `w`.
    pub fn of(w: Width) -> (r: Strategy)
        ensures
            r == strategy_of(w.spec_bits() as nat),
    {
        let b = w.bits();
        if w.is_native() {
            return Strategy::Native { bytes: b / 8 };
        }
        let symbols = w.pack_group_symbols();
        proof {
            lemma_pack_group_closes_bytes(b as nat);
            assert((symbols as u32) * (b as u32) <= 256) by (nonlinear_arith)
                requires
                    symbols <= 8,
                    b <= 32,
            ;
        }
        if (symbols as u32) * (w.bits() as u32) <= 64 {
            Strategy::Group { symbols, bytes: w.pack_group_bytes() }
        } else {
            Strategy::Generic
        }
    }

    /// Short name for reports and benchmarks.
    pub fn label(self) -> (r: &'static str)
        ensures
            r@ == (match self {
                Strategy::Native { .. } => "native"@,
                Strategy::Group { .. } => "group"@,
                Strategy::Generic => "generic"@,
            }),
    {
        match self {
            Strategy::Native { .. } => "native",
            Strategy::Group { .. } => "group",
            Strategy::Generic => "generic",
        }
    }
}

/// Facts about the strategy of every width of the sweep.
pub proof fn lemma_strategy_facts(b: nat)
    requires
        1 <= b <= 32,
    ensures
        strategy_of(b) matches Strategy::Native { bytes } ==> (bytes == 1 || bytes == 2 || bytes
            == 4) && bytes * 8 == b,
        strategy_of(b) matches Strategy::Group { symbols, bytes } ==> symbols >= 1 && symbols
            * b == bytes * 8 && symbols * b <= 64 && bytes >= 1,
{
    lemma_pack_group_closes_bytes(b);
    let g = gcd(b, 8);
    let s = 8nat / g;
    assert((s as u8) as nat == s);
    assert(((b / g) as u8) as nat == b / g);
}

/// Bytes `(x >> p) as u8` of a word: bits `p..p + 8` from the bottom.
proof fn lemma_byte_of(x: u64, p: u64)
    requires
        p < 64,
    ensures
        ((x >> p) as u8) as nat == (x as nat / pow2(p as nat)) % 256,
{
    vstd::bits::lemma_u64_shr_is_div(x, p);
    let y = x >> p;
    assert((y as u8) as u64 == y % 256) by (bit_vector);
}

/// Shifting `v` (of `b` bits) in below `acc` (of `p` bits).
fn shift_in(acc: u64, p: u32, v: u32, b: u32) -> (r: u64)
    requires
        1 <= b <= 32,
        p + b <= 64,
        (acc as nat) < pow2(p as nat),
        (v as nat) < pow2(b as nat),
    ensures
        r as nat == acc as nat * pow2(b as nat) + v as nat,
        (r as nat) < pow2((p + b) as nat),
        bits_of(r as nat, (p + b) as nat) == bits_of(acc as nat, p as nat) + bits_of(
            v as nat,
            b as nat,
        ),
{
    proof {
        lemma_pow2_basics(b as nat);
        lemma_pow2_adds(p as nat, b as nat);
        lemma_pow2_strictly_increases_or_eq((p + b) as nat, 64);
        lemma2_to64();
        lemma_bits_of_concat(acc as nat, v as nat, p as nat, b as nat);
        assert(acc as nat * pow2(b as nat) < pow2((p + b) as nat)) by (nonlinear_arith)
            requires
                (acc as nat) < pow2(p as nat),
                pow2((p + b) as nat) == pow2(p as nat) * pow2(b as nat),
                pow2(b as nat) > 0,
        ;
        vstd::bits::lemma_u64_shl_is_mul(acc, b as u64);
        vstd::bits::lemma_u64_pow2_no_overflow(b as nat);
        vstd::bits::lemma_u64_shl_is_mul(1, b as u64);
    }
    let hi = acc << b;
    let vv = v as u64;
    assert(vv < (1u64 << (b as u64)));
    assert((hi | vv) == hi + vv) by (bit_vector)
        requires
            hi == acc << (b as u64),
            vv < (1u64 << (b as u64)),
            b < 64,
    ;
    hi | vv
}

/// Emits, most significant first, the whole bytes of the `pending` low bits of
/// `acc`, and gives back how many bits are left.
pub(crate) fn drain(out: &mut Vec<u8>, acc: u64, pending: u32) -> (p: u32)
    requires
        pending <= 64,
    ensures
        p == pending % 8,
        bytes_bits(final(out)@) + bits_of(acc as nat, p as nat) == bytes_bits(old(out)@) + bits_of(
            acc as nat,
            pending as nat,
        ),
        final(out)@.len() >= old(out)@.len(),
        final(out)@.take(old(out)@.len() as int) == old(out)@,
{
    let mut p = pending;
    while p >= 8
        invariant
            p <= pending <= 64,
            p % 8 == pending % 8,
            out@.len() >= old(out)@.len(),
            out@.take(old(out)@.len() as int) == old(out)@,
            bytes_bits(out@) + bits_of(acc as nat, p as nat) == bytes_bits(old(out)@) + bits_of(
                acc as nat,
                pending as nat,
            ),
        decreases p,
    {
        let ghost before = out@;
        p = p - 8;
        let byte = (acc >> p) as u8;
        proof {
            lemma_byte_of(acc, p as u64);
            lemma_pow2_basics(8);
            lemma_bits_of_split(acc as nat, 8, p as nat);
            assert(8 + p == p + 8);
            lemma_bits_of_mod(acc as nat, p as nat);
            lemma_bits_of_eq(acc as nat / pow2(p as nat), byte as nat, 8);
        }
        out.push(byte);
        proof {
            assert(out@.take(old(out)@.len() as int) =~= before.take(old(out)@.len() as int));
            lemma_bytes_bits_push(before, byte);
            assert(bytes_bits(out@) + bits_of(acc as nat, p as nat) =~= bytes_bits(before) + bits_of(
                acc as nat,
                (p + 8) as nat,
            ));
        }
    }
    p
}

/// Finds the first value that does not fit in `bits` bits.
fn find_too_wide(values: &[u32], bits: u8) -> (r: Option<usize>)
    requires
        1 <= bits <= 32,
    ensures
        match r {
            Some(i) => first_too_wide(values@, bits as nat) == Some(i as int),
            None => first_too_wide(values@, bits as nat) is None,
        },
{
    proof {
        lemma2_to64();
        assert(values@.take(0) =~= Seq::<u32>::empty());
    }
    let limite = max_value(bits);
    let mut i: usize = 0;
    while i < values.len()
        invariant
            i <= values@.len(),
            1 <= bits <= 32,
            limite as nat == max_value_of(bits as nat),
            pow2(32) == 0x1_0000_0000,
            first_too_wide(values@.take(i as int), bits as nat) is None,
        decreases values@.len() - i,
    {
        proof {
            assert(values@.take(i + 1).drop_last() =~= values@.take(i as int));
        }
        if bits < 32 && values[i] > limite {
            proof {
                lemma_first_too_wide_prefix(values@, i + 1, bits as nat);
            }
            return Some(i);
        }
        proof {
            lemma_pow2_basics(bits as nat);
            if bits < 32 {
                assert(values@[i as int] <= limite);
                assert(limite as nat == pow2(bits as nat) - 1);
            } else {
                assert(values@[i as int] <= u32::MAX);
            }
            assert((values@[i as int] as nat) < pow2(bits as nat));
            assert(values@.take(i + 1).last() == values@[i as int]);
        }
        i = i + 1;
    }
    proof {
        assert(values@.take(values@.len() as int) =~= values@);
    }
    None
}

/// Most-significant-bit-first bit writer with a 64-bit accumulator.
///
/// The pending bits stay in the `pending` low bits of `acc`; `pending` never
/// reaches 8 between calls.
#[derive(Debug)]
pub struct BitWriter {
    out: Vec<u8>,
    acc: u64,
    pending: u32,
}

impl View for BitWriter {
    type V = Seq<bool>;

    /// Every bit written so far, the pending ones included.
    closed spec fn view(&self) -> Seq<bool> {
        bytes_bits(self.out@) + bits_of(self.acc as nat, self.pending as nat)
    }
}

impl BitWriter {
    /// Internal consistency of the writer.
    pub closed spec fn wf(&self) -> bool {
        &&& self.pending < 8
        &&& (self.acc as nat) < pow2(self.pending as nat)
        &&& self.view().len() <= u64::MAX
    }

    proof fn lemma_view_len(&self)
        ensures
            self.view().len() == 8 * self.out@.len() + self.pending,
    {
        lemma_bytes_bits_len(self.out@);
        lemma_bits_of_len(self.acc as nat, self.pending as nat);
    }

    /// An empty writer.
    pub fn new() -> (r: BitWriter)
        ensures
            r.wf(),
            r@ == Seq::<bool>::empty(),
    {
        let r = BitWriter { out: Vec::new(), acc: 0, pending: 0 };
        proof {
            lemma_pow2_basics(0);
            assert(r@ =~= Seq::<bool>::empty());
        }
        r
    }

    /// An empty writer with room for `n_symbols` symbols of width `w`.
    pub fn with_capacity_for(n_symbols: usize, w: Width) -> (r: BitWriter)
        requires
            n_symbols * w.spec_bits() <= usize::MAX,
        ensures
            r.wf(),
            r@ == Seq::<bool>::empty(),
    {
        let r = BitWriter { out: Vec::with_capacity(packed_len(n_symbols, w)), acc: 0, pending: 0 };
        proof {
            lemma_pow2_basics(0);
            assert(r@ =~= Seq::<bool>::empty());
        }
        r
    }

    /// `true` when no bit is pending and writing is aligned to the byte.
    pub fn is_byte_aligned(&self) -> (r: bool)
        requires
            self.wf(),
        ensures
            r == (self@.len() % 8 == 0),
    {
        proof {
            self.lemma_view_len();
        }
        self.pending == 0
    }

    /// Bits written so far, the pending ones included.
    pub fn bits_written(&self) -> (r: u64)
        requires
            self.wf(),
        ensures
            r == self@.len(),
    {
        proof {
            self.lemma_view_len();
        }
        self.out.len() as u64 * 8 + self.pending as u64
    }

    /// Writes `bits` bits of `value`, which fits in them.
    fn push_unchecked(&mut self, value: u32, bits: u32)
        requires
            old(self).wf(),
            1 <= bits <= 32,
            (value as nat) < pow2(bits as nat),
            old(self)@.len() + bits <= u64::MAX,
        ensures
            final(self).wf(),
            final(self)@ == old(self)@ + bits_of(value as nat, bits as nat),
    {
        let acc = shift_in(self.acc, self.pending, value, bits);
        let total = self.pending + bits;
        let ghost out0 = self.out@;
        let p = drain(&mut self.out, acc, total);
        proof {
            vstd::bits::lemma_u64_pow2_no_overflow(p as nat);
            vstd::bits::lemma_u64_shl_is_mul(1, p as u64);
            vstd::bits::lemma_u64_low_bits_mask_is_mod(acc, p as nat);
            lemma_pow2_basics(p as nat);
        }
        let mask = (1u64 << p) - 1;
        assert(mask == vstd::bits::low_bits_mask(p as nat) as u64);
        self.acc = acc & mask;
        self.pending = p;
        proof {
            lemma_bits_of_mod(acc as nat, p as nat);
            assert(bytes_bits(out0) + bits_of(acc as nat, total as nat) =~= old(self)@ + bits_of(
                value as nat,
                bits as nat,
            ));
            self.lemma_view_len();
            old(self).lemma_view_len();
            lemma_bits_of_len(value as nat, bits as nat);
        }
    }

    /// Writes one symbol of width `w`.
    pub fn push(&mut self, value: u32, w: Width) -> (r: Result<(), PackError>)
        requires
            old(self).wf(),
            old(self)@.len() + w.spec_bits() <= u64::MAX,
        ensures
            final(self).wf(),
            w.spec_bits() < 32 && value as nat >= pow2(w.spec_bits() as nat) ==> r == Err::<
                (),
                PackError,
            >(PackError::ValueTooWide { index: 0, value, bits: w.spec_bits() })
                && *final(self) == *old(self),
            !(w.spec_bits() < 32 && value as nat >= pow2(w.spec_bits() as nat)) ==> r == Ok::<
                (),
                PackError,
            >(()) && final(self)@ == old(self)@ + bits_of(value as nat, w.spec_bits() as nat),
    {
        let bits = w.bits();
        proof {
            lemma2_to64();
        }
        if bits < 32 && value > max_value(bits) {
            return Err(PackError::ValueTooWide { index: 0, value, bits });
        }
        self.push_unchecked(value, bits as u32);
        Ok(())
    }

    /// Writes a whole sequence, dispatching on the strategy of `w`.
    ///
    /// The whole sequence is checked before a single bit is written, so an
    /// error leaves the writer as it was.
    pub fn push_all(&mut self, values: &[u32], w: Width) -> (r: Result<(), PackError>)
        requires
            old(self).wf(),
            old(self)@.len() + values@.len() * w.spec_bits() <= u64::MAX,
        ensures
            final(self).wf(),
            match first_too_wide(values@, w.spec_bits() as nat) {
                Some(i) => r == Err::<(), PackError>(
                    PackError::ValueTooWide {
                        index: i as usize,
                        value: values@[i],
                        bits: w.spec_bits(),
                    },
                ) && *final(self) == *old(self),
                None => r == Ok::<(), PackError>(()) && final(self)@ == old(self)@ + stream_of(
                    values@,
                    w.spec_bits() as nat,
                ),
            },
    {
        let bits = w.bits();
        proof {
            lemma_first_too_wide(values@, bits as nat);
        }
        match find_too_wide(values, bits) {
            Some(index) => {
                return Err(PackError::ValueTooWide { index, value: values[index], bits });
            },
            None => {},
        }
        proof {
            lemma_strategy_facts(bits as nat);
        }
        proof {
            assert(values@.skip(0) =~= values@);
        }
        if self.pending != 0 {
            self.push_generic(values, bits as u32, 0);
            return Ok(());
        }
        match Strategy::of(w) {
            Strategy::Native { bytes } => {
                self.push_all_native(values, bits as u32);
            },
            Strategy::Group { symbols, .. } => {
                self.push_all_group(values, bits as u32, symbols as u32);
            },
            Strategy::Generic => {
                self.push_generic(values, bits as u32, 0);
            },
        }
        Ok(())
    }

    /// Writes `values[from..]` one symbol at a time through the accumulator.
    fn push_generic(&mut self, values: &[u32], bits: u32, from: usize)
        requires
            old(self).wf(),
            1 <= bits <= 32,
            from <= values@.len(),
            forall|j: int| 0 <= j < values@.len() ==> (values@[j] as nat) < pow2(bits as nat),
            old(self)@.len() + (values@.len() - from) * bits <= u64::MAX,
        ensures
            final(self).wf(),
            final(self)@ == old(self)@ + stream_of(values@.skip(from as int), bits as nat),
    {
        let mut i = from;
        proof {
            assert(values@.skip(from as int).take(0) =~= Seq::<u32>::empty());
            assert(old(self)@ + stream_of(Seq::<u32>::empty(), bits as nat) =~= old(self)@);
        }
        while i < values.len()
            invariant
                self.wf(),
                1 <= bits <= 32,
                from <= i <= values@.len(),
                forall|j: int| 0 <= j < values@.len() ==> (values@[j] as nat) < pow2(bits as nat),
                self@ == old(self)@ + stream_of(values@.subrange(from as int, i as int), bits as nat),
                old(self)@.len() + (values@.len() - from) * bits <= u64::MAX,
            decreases values@.len() - i,
        {
            proof {
                lemma_stream_len(values@.subrange(from as int, i as int), bits as nat);
                lemma_mul_inequality((i - from + 1) as int, (values@.len() - from) as int, bits as int);
                lemma_mul_is_distributive_add_other_way(bits as int, (i - from) as int, 1);
            }
            self.push_unchecked(values[i], bits);
            proof {
                lemma_stream_push(values@.subrange(from as int, i as int), values@[i as int], bits as nat);
                assert(values@.subrange(from as int, i + 1) =~= values@.subrange(from as int, i as int).push(
                    values@[i as int],
                ));
            }
            i = i + 1;
        }
        proof {
            assert(values@.subrange(from as int, values@.len() as int) =~= values@.skip(from as int));
        }
    }

    /// `b` is 8, 16 or 32: every symbol is copied as its whole bytes.
    fn push_all_native(&mut self, values: &[u32], bits: u32)
        requires
            old(self).wf(),
            old(self).pending == 0,
            bits == 8 || bits == 16 || bits == 32,
            forall|j: int| 0 <= j < values@.len() ==> (values@[j] as nat) < pow2(bits as nat),
            old(self)@.len() + values@.len() * bits <= u64::MAX,
        ensures
            final(self).wf(),
            final(self)@ == old(self)@ + stream_of(values@, bits as nat),
    {
        let mut i: usize = 0;
        proof {
            assert(values@.take(0) =~= Seq::<u32>::empty());
            assert(old(self)@ + stream_of(Seq::<u32>::empty(), bits as nat) =~= old(self)@);
        }
        while i < values.len()
            invariant
                self.wf(),
                self.pending == 0,
                bits == 8 || bits == 16 || bits == 32,
                i <= values@.len(),
                forall|j: int| 0 <= j < values@.len() ==> (values@[j] as nat) < pow2(bits as nat),
                self@ == old(self)@ + stream_of(values@.take(i as int), bits as nat),
                old(self)@.len() + values@.len() * bits <= u64::MAX,
            decreases values@.len() - i,
        {
            let ghost before = self@;
            let ghost out0 = self.out@;
            let v = values[i];
            proof {
                lemma_stream_len(values@.take(i as int), bits as nat);
                lemma_mul_inequality((i + 1) as int, values@.len() as int, bits as int);
                lemma_mul_is_distributive_add_other_way(bits as int, i as int, 1);
                self.lemma_view_len();
            }
            let p = drain(&mut self.out, v as u64, bits);
            proof {
                assert(p == 0);
                lemma_pow2_basics(0);
                assert(bits_of(v as nat, 0) =~= Seq::<bool>::empty());
                assert(bits_of(self.acc as nat, 0) =~= Seq::<bool>::empty());
                assert(bytes_bits(self.out@) =~= bytes_bits(out0) + bits_of(v as nat, bits as nat));
                lemma_stream_push(values@.take(i as int), v, bits as nat);
                assert(values@.take(i + 1) =~= values@.take(i as int).push(v));
                assert(self@ =~= before + bits_of(v as nat, bits as nat));
                lemma_bits_of_len(v as nat, bits as nat);
            }
            i = i + 1;
        }
        proof {
            assert(values@.take(values@.len() as int) =~= values@);
        }
    }

    /// Groups of `symbols` symbols are assembled in one 64-bit word and
    /// emitted at once; the incomplete tail goes through the accumulator.
    fn push_all_group(&mut self, values: &[u32], bits: u32, symbols: u32)
        requires
            old(self).wf(),
            old(self).pending == 0,
            1 <= bits <= 32,
            1 <= symbols,
            symbols * bits <= 64,
            (symbols * bits) % 8 == 0,
            forall|j: int| 0 <= j < values@.len() ==> (values@[j] as nat) < pow2(bits as nat),
            old(self)@.len() + values@.len() * bits <= u64::MAX,
        ensures
            final(self).wf(),
            final(self)@ == old(self)@ + stream_of(values@, bits as nat),
    {
        let n = values.len();
        let ns = symbols as usize;
        let mut i: usize = 0;
        proof {
            assert(values@.take(0) =~= Seq::<u32>::empty());
            assert(old(self)@ + stream_of(Seq::<u32>::empty(), bits as nat) =~= old(self)@);
        }
        while n - i >= ns
            invariant
                self.wf(),
                self.pending == 0,
                1 <= bits <= 32,
                1 <= symbols,
                ns == symbols,
                n == values@.len(),
                symbols * bits <= 64,
                (symbols * bits) % 8 == 0,
                i <= n,
                forall|j: int| 0 <= j < values@.len() ==> (values@[j] as nat) < pow2(bits as nat),
                self@ == old(self)@ + stream_of(values@.take(i as int), bits as nat),
                old(self)@.len() + values@.len() * bits <= u64::MAX,
            decreases n - i,
        {
            let ghost before = self@;
            let ghost out0 = self.out@;
            let mut word: u64 = 0;
            let mut nbits: u32 = 0;
            let mut j: usize = 0;
            proof {
                lemma_pow2_basics(0);
                assert(bits_of(0, 0) =~= stream_of(values@.subrange(i as int, i as int), bits as nat));
            }
            while j < ns
                invariant
                    1 <= bits <= 32,
                    symbols * bits <= 64,
                    ns == symbols,
                    i + ns <= n,
                    n == values@.len(),
                    j <= ns,
                    nbits == j * bits,
                    (word as nat) < pow2(nbits as nat),
                    bits_of(word as nat, nbits as nat) == stream_of(
                        values@.subrange(i as int, (i + j) as int),
                        bits as nat,
                    ),
                    forall|k: int| 0 <= k < values@.len() ==> (values@[k] as nat) < pow2(bits as nat),
                decreases ns - j,
            {
                proof {
                    lemma_mul_inequality((j + 1) as int, ns as int, bits as int);
                    lemma_mul_is_distributive_add_other_way(bits as int, j as int, 1);
                }
                let v = values[i + j];
                let next = shift_in(word, nbits, v, bits);
                proof {
                    lemma_stream_push(values@.subrange(i as int, (i + j) as int), v, bits as nat);
                    assert(values@.subrange(i as int, (i + j + 1) as int) =~= values@.subrange(
                        i as int,
                        (i + j) as int,
                    ).push(v));
                }
                word = next;
                nbits = nbits + bits;
                j = j + 1;
            }
            let p = drain(&mut self.out, word, nbits);
            proof {
                assert(p == 0);
                lemma_pow2_basics(0);
                assert(bits_of(word as nat, 0) =~= Seq::<bool>::empty());
                assert(bits_of(self.acc as nat, 0) =~= Seq::<bool>::empty());
                assert(bytes_bits(self.out@) =~= bytes_bits(out0) + bits_of(word as nat, nbits as nat));
                lemma_stream_append(
                    values@.take(i as int),
                    values@.subrange(i as int, (i + ns) as int),
                    bits as nat,
                );
                assert(values@.take((i + ns) as int) =~= values@.take(i as int) + values@.subrange(
                    i as int,
                    (i + ns) as int,
                ));
                assert(self@ =~= before + bits_of(word as nat, nbits as nat));
                lemma_stream_len(values@.take((i + ns) as int), bits as nat);
                lemma_mul_inequality((i + ns) as int, n as int, bits as int);
                self.lemma_view_len();
                lemma_bits_of_len(word as nat, nbits as nat);
            }
            i = i + ns;
        }
        proof {
            lemma_stream_len(values@.take(i as int), bits as nat);
            assert((n - i) * bits + i * bits == n * bits) by (nonlinear_arith)
                requires
                    i <= n,
            ;
        }
        self.push_generic(values, bits, i);
        proof {
            lemma_stream_append(values@.take(i as int), values@.skip(i as int), bits as nat);
            assert(values@.take(i as int) + values@.skip(i as int) =~= values@);
        }
    }

    /// Closes the stream, completing the last byte with zeros, and gives the bytes.
    pub fn finish(self) -> (r: Vec<u8>)
        requires
            self.wf(),
        ensures
            r@ == to_bytes(self@),
    {
        let mut out = self.out;
        proof {
            self.lemma_view_len();
        }
        if self.pending > 0 {
            let padding = 8 - self.pending;
            proof {
                lemma_pow2_basics(8);
                lemma_pow2_adds(self.pending as nat, padding as nat);
                vstd::bits::lemma_u64_pow2_no_overflow(padding as nat);
                lemma_pow2_strictly_increases_or_eq(self.pending as nat, 8);
                assert(self.acc as nat * pow2(padding as nat) < 256) by (nonlinear_arith)
                    requires
                        (self.acc as nat) < pow2(self.pending as nat),
                        pow2(8) == pow2(self.pending as nat) * pow2(padding as nat),
                        pow2(8) == 256,
                        pow2(padding as nat) > 0,
                ;
                vstd::bits::lemma_u64_shl_is_mul(self.acc, padding as u64);
            }
            let byte = (self.acc << padding) as u8;
            proof {
                let x = self.acc as nat * pow2(padding as nat);
                assert(byte as nat == x);
                lemma_bits_of_concat(self.acc as nat, 0, self.pending as nat, padding as nat);
                lemma_bits_of_zero(padding as nat);
                lemma_bytes_bits_push(out@, byte);
                lemma_bits_of_len(self.acc as nat, self.pending as nat);
                assert(pad_bits(self@.len()) == padding);
                assert(bytes_bits(out@.push(byte)) =~= self@ + zeros(pad_bits(self@.len())));
            }
            out.push(byte);
            proof {
                lemma_to_bytes_unique(self@, out@);
            }
        } else {
            proof {
                assert(bits_of(self.acc as nat, 0) =~= Seq::<bool>::empty());
                assert(pad_bits(self@.len()) == 0);
                assert(bytes_bits(out@) =~= self@ + zeros(pad_bits(self@.len())));
                lemma_to_bytes_unique(self@, out@);
            }
        }
        out
    }
}

/// Low `t` bits of `x >> s`, as a number.
proof fn lemma_window_of_word(x: u64, sh: u64, t: u64, v: u64)
    requires
        sh < 64,
        t < 64,
        v == (x >> sh) & (((1u64 << t) - 1) as u64),
    ensures
        v as nat == (x as nat / pow2(sh as nat)) % pow2(t as nat),
{
    vstd::bits::lemma_u64_shr_is_div(x, sh);
    vstd::bits::lemma_u64_pow2_no_overflow(t as nat);
    vstd::bits::lemma_u64_shl_is_mul(1, t);
    vstd::bits::lemma_u64_low_bits_mask_is_mod(x >> sh, t as nat);
    lemma_pow2_basics(t as nat);
    assert((1u64 << t) - 1 == vstd::bits::low_bits_mask(t as nat) as u64);
}

/// Most-significant-bit-first bit reader, the mirror of [`BitWriter`].
#[derive(Debug)]
pub struct BitReader<'a> {
    src: &'a [u8],
    /// Read position, in bits from the start of `src`.
    bit_pos: u64,
}

impl<'a> View for BitReader<'a> {
    type V = Seq<bool>;

    /// The bits not read yet.
    closed spec fn view(&self) -> Seq<bool> {
        bytes_bits(self.src@).skip(self.bit_pos as int)
    }
}

impl<'a> BitReader<'a> {
    /// Internal consistency of the reader.
    pub closed spec fn wf(&self) -> bool {
        &&& self.bit_pos <= 8 * self.src@.len()
        &&& 8 * self.src@.len() <= u64::MAX
    }

    /// The bytes being read.
    pub closed spec fn source(&self) -> Seq<u8> {
        self.src@
    }

    /// Bits read so far.
    pub closed spec fn position(&self) -> nat {
        self.bit_pos as nat
    }

    proof fn lemma_view(&self)
        requires
            self.wf(),
        ensures
            self.view().len() == 8 * self.src@.len() - self.bit_pos,
            self.view() == bytes_bits(self.source()).skip(self.position() as int),
    {
        lemma_bytes_bits_len(self.src@);
    }

    /// Reading further on the same bytes only drops bits from the front.
    proof fn lemma_skip_view(&self, earlier: &Self)
        requires
            self.wf(),
            earlier.wf(),
            self.source() == earlier.source(),
            self.position() >= earlier.position(),
        ensures
            self@ == earlier@.skip(self.position() - earlier.position()),
    {
        lemma_bytes_bits_len(self.src@);
        assert(self@ =~= earlier@.skip(self.position() - earlier.position()));
    }

    /// A reader over `src`.
    pub fn new(src: &'a [u8]) -> (r: BitReader<'a>)
        requires
            src@.len() * 8 <= u64::MAX,
        ensures
            r.wf(),
            r@ == bytes_bits(src@),
            r.source() == src@,
            r.position() == 0,
    {
        let r = BitReader { src, bit_pos: 0 };
        proof {
            assert(bytes_bits(src@).skip(0) =~= bytes_bits(src@));
        }
        r
    }

    /// Bits not read yet.
    pub fn bits_remaining(&self) -> (r: u64)
        requires
            self.wf(),
        ensures
            r == self@.len(),
    {
        proof {
            self.lemma_view();
        }
        self.src.len() as u64 * 8 - self.bit_pos
    }

    /// `true` when reading is aligned to the byte.
    pub fn is_byte_aligned(&self) -> (r: bool)
        ensures
            r == (self.position() % 8 == 0),
    {
        self.bit_pos % 8 == 0
    }

    /// `true` when every bit not read yet is zero.
    pub fn remaining_is_zero(&self) -> (r: bool)
        requires
            self.wf(),
        ensures
            r == (self@ == zeros(self@.len())),
    {
        proof {
            self.lemma_view();
            lemma_bytes_bits_len(self.src@);
        }
        let ghost all = bytes_bits(self.src@);
        let len = self.src.len();
        assert(self.bit_pos / 8 <= len);
        let mut k = (self.bit_pos / 8) as usize;
        let off = self.bit_pos % 8;
        assert(k as int == self.bit_pos / 8);
        if off != 0 {
            let byte = self.src[k];
            let rest = (8 - off) as u8;
            proof {
                vstd::bits::lemma_u8_pow2_no_overflow(rest as nat);
                vstd::bits::lemma_u8_shl_is_mul(1, rest);
                vstd::bits::lemma_u8_low_bits_mask_is_mod(byte, rest as nat);
                lemma_pow2_basics(rest as nat);
                assert((1u8 << rest) - 1 == vstd::bits::low_bits_mask(rest as nat) as u8);
                lemma_zero_window(byte as nat, 8, off as nat);
                lemma_bytes_bits_at(self.src@, k as int);
                assert(self@.take(rest as int) =~= bits_of(byte as nat, 8).skip(off as int));
            }
            if byte & ((1u8 << rest) - 1) != 0 {
                proof {
                    assert(self@.take(rest as int) != zeros(rest as nat));
                    if self@ == zeros(self@.len()) {
                        assert(self@.take(rest as int) =~= zeros(rest as nat));
                    }
                }
                return false;
            }
            proof {
                assert(8 * (k + 1) - self.bit_pos == rest);
                assert(self@.take(8 * (k + 1) - self.bit_pos) == zeros(rest as nat));
            }
            k = k + 1;
        } else {
            proof {
                assert(self@.take(8 * k - self.bit_pos) =~= zeros(0));
            }
        }
        while k < self.src.len()
            invariant
                self.wf(),
                8 * k >= self.bit_pos,
                k <= self.src@.len(),
                all == bytes_bits(self.src@),
                all.len() == 8 * self.src@.len(),
                self@ == all.skip(self.bit_pos as int),
                self@.take(8 * k - self.bit_pos) == zeros((8 * k - self.bit_pos) as nat),
            decreases self.src@.len() - k,
        {
            proof {
                lemma_bytes_bits_at(self.src@, k as int);
                lemma_pow2_basics(8);
                lemma_zero_window(self.src@[k as int] as nat, 8, 0);
                assert(bits_of(self.src@[k as int] as nat, 8).skip(0) =~= bits_of(
                    self.src@[k as int] as nat,
                    8,
                ));
                assert(self@.subrange(8 * k - self.bit_pos, 8 * k + 8 - self.bit_pos) =~= bits_of(
                    self.src@[k as int] as nat,
                    8,
                ));
                lemma_small_mod_byte(self.src@[k as int]);
            }
            if self.src[k] != 0 {
                proof {
                    if self@ == zeros(self@.len()) {
                        assert(self@.subrange(8 * k - self.bit_pos, 8 * k + 8 - self.bit_pos) =~= zeros(
                            8,
                        ));
                    }
                }
                return false;
            }
            proof {
                assert(self@.take(8 * (k + 1) - self.bit_pos) =~= self@.take(8 * k - self.bit_pos)
                    + self@.subrange(8 * k - self.bit_pos, 8 * k + 8 - self.bit_pos));
            }
            k = k + 1;
        }
        proof {
            assert(self@.take(8 * k - self.bit_pos) =~= self@);
        }
        true
    }

    /// Reads `bits` bits, which are there.
    fn read_unchecked(&mut self, bits: u32) -> (r: u32)
        requires
            old(self).wf(),
            1 <= bits <= 32,
            old(self)@.len() >= bits,
        ensures
            final(self).wf(),
            final(self).source() == old(self).source(),
            final(self).position() == old(self).position() + bits,
            r as nat == nat_of(old(self)@.take(bits as int)),
            final(self)@ == old(self)@.skip(bits as int),
    {
        proof {
            self.lemma_view();
            lemma_bytes_bits_len(self.src@);
        }
        let ghost all = bytes_bits(self.src@);
        let ghost start = self.bit_pos;
        let mut restante = bits;
        let mut valor: u64 = 0;
        proof {
            assert(all.subrange(start as int, start as int) =~= Seq::<bool>::empty());
            lemma_pow2_basics(0);
        }
        while restante > 0
            invariant
                self.wf(),
                self.src@ == old(self).src@,
                all == bytes_bits(self.src@),
                all.len() == 8 * self.src@.len(),
                1 <= bits <= 32,
                restante <= bits,
                self.bit_pos == start + (bits - restante),
                start + bits <= 8 * self.src@.len(),
                valor as nat == nat_of(all.subrange(start as int, self.bit_pos as int)),
                (valor as nat) < pow2((bits - restante) as nat),
            decreases restante,
        {
            assert(self.bit_pos / 8 < self.src@.len());
            let byte_idx = (self.bit_pos / 8) as usize;
            let offset = (self.bit_pos % 8) as u32;
            let disponiveis = 8 - offset;
            let tomar = if restante < disponiveis {
                restante
            } else {
                disponiveis
            };
            let byte = self.src[byte_idx] as u64;
            let sh = (disponiveis - tomar) as u64;
            proof {
                vstd::bits::lemma_u64_pow2_no_overflow(tomar as nat);
                vstd::bits::lemma_u64_shl_is_mul(1, tomar as u64);
                lemma_pow2_basics(tomar as nat);
            }
            let pedaco = (byte >> sh) & ((1u64 << tomar) - 1);
            proof {
                lemma_window_of_word(byte, sh, tomar as u64, pedaco);
                lemma_bits_of_window(byte as nat, 8, offset as nat, tomar as nat);
                lemma_bytes_bits_at(self.src@, byte_idx as int);
                let piece = all.subrange(self.bit_pos as int, self.bit_pos + tomar);
                assert(piece =~= bits_of(byte as nat, 8).subrange(offset as int, (offset + tomar) as int));
                lemma_bits_of_nat_of(piece);
                lemma_nat_of_append(all.subrange(start as int, self.bit_pos as int), piece);
                assert(all.subrange(start as int, self.bit_pos + tomar) =~= all.subrange(
                    start as int,
                    self.bit_pos as int,
                ) + piece);
                lemma_pow2_strictly_increases_or_eq(tomar as nat, 8);
                lemma_pow2_basics(8);
                assert((pedaco as u32) as nat == pedaco as nat);
            }
            valor = shift_in(valor, bits - restante, pedaco as u32, tomar);
            self.bit_pos = self.bit_pos + tomar as u64;
            restante = restante - tomar;
        }
        proof {
            lemma_pow2_strictly_increases_or_eq(bits as nat, 32);
            lemma2_to64();
            assert(all.subrange(start as int, start + bits) =~= old(self)@.take(bits as int));
            assert(self@ =~= old(self)@.skip(bits as int));
        }
        valor as u32
    }

    /// Reads one symbol of width `w`, or `None` when fewer bits are left.
    pub fn read(&mut self, w: Width) -> (r: Option<u32>)
        requires
            old(self).wf(),
        ensures
            final(self).wf(),
            final(self).source() == old(self).source(),
            old(self)@.len() < w.spec_bits() ==> r is None && *final(self) == *old(self),
            old(self)@.len() >= w.spec_bits() ==> r == Some(
                nat_of(old(self)@.take(w.spec_bits() as int)) as u32,
            ) && final(self)@ == old(self)@.skip(w.spec_bits() as int) && final(self).position()
                == old(self).position() + w.spec_bits(),
    {
        let bits = w.bits() as u32;
        if self.bits_remaining() < bits as u64 {
            return None;
        }
        Some(self.read_unchecked(bits))
    }

    /// Reads `nbytes` whole bytes as one big-endian word.
    fn read_word(&mut self, nbytes: u32) -> (r: u64)
        requires
            old(self).wf(),
            old(self).position() % 8 == 0,
            1 <= nbytes <= 8,
            old(self)@.len() >= 8 * nbytes,
        ensures
            final(self).wf(),
            final(self).source() == old(self).source(),
            final(self).position() == old(self).position() + 8 * nbytes,
            (r as nat) < pow2((8 * nbytes) as nat),
            bits_of(r as nat, (8 * nbytes) as nat) == old(self)@.take(8 * nbytes),
            final(self)@ == old(self)@.skip(8 * nbytes),
    {
        proof {
            self.lemma_view();
        }
        let len = self.src.len();
        assert(self.bit_pos / 8 <= len);
        let k0 = (self.bit_pos / 8) as usize;
        let ghost rest = self.src@.skip(k0 as int);
        proof {
            lemma_bytes_bits_len(self.src@);
            assert(self.bit_pos % 8 == 0);
            assert(k0 as int == self.bit_pos / 8);
            assert(self.bit_pos == 8 * k0);
            lemma_bytes_bits_skip(self.src@, k0 as int);
            lemma_bytes_bits_len(rest);
            assert(self@ == bytes_bits(rest));
            assert(k0 + nbytes <= self.src@.len());
        }
        let mut word: u64 = 0;
        let mut nbits: u32 = 0;
        let mut j: u32 = 0;
        proof {
            lemma_pow2_basics(0);
            assert(bits_of(0, 0) =~= bytes_bits(rest).take(0));
        }
        while j < nbytes
            invariant
                self.wf(),
                1 <= nbytes <= 8,
                j <= nbytes,
                nbits == 8 * j,
                k0 + nbytes <= self.src@.len(),
                len == self.src@.len(),
                rest == self.src@.skip(k0 as int),
                bytes_bits(rest).len() == 8 * rest.len(),
                (word as nat) < pow2(nbits as nat),
                bits_of(word as nat, nbits as nat) == bytes_bits(rest).take(nbits as int),
            decreases nbytes - j,
        {
            let byte = self.src[k0 + j as usize];
            proof {
                lemma_pow2_basics(8);
                lemma_bytes_bits_at(rest, j as int);
                assert(rest[j as int] == byte);
                assert(bytes_bits(rest).take(nbits + 8) =~= bytes_bits(rest).take(nbits as int)
                    + bytes_bits(rest).subrange(nbits as int, nbits + 8));
            }
            word = shift_in(word, nbits, byte as u32, 8);
            nbits = nbits + 8;
            j = j + 1;
        }
        self.bit_pos = self.bit_pos + 8 * nbytes as u64;
        proof {
            self.lemma_skip_view(old(self));
        }
        word
    }

    /// Reads `n_symbols` symbols into `out`, dispatching on the strategy of `w`.
    pub fn read_all_into(&mut self, out: &mut Vec<u32>, n_symbols: usize, w: Width) -> (r: Result<
        (),
        UnpackError,
    >)
        requires
            old(self).wf(),
            n_symbols * w.spec_bits() <= usize::MAX,
        ensures
            final(self).wf(),
            final(self).source() == old(self).source(),
            old(self)@.len() < n_symbols * w.spec_bits() ==> r == Err::<(), UnpackError>(
                UnpackError::Truncated {
                    expected_bytes: packed_len_of(n_symbols as nat, w.spec_bits() as nat) as usize,
                    got_bytes: (old(self)@.len() / 8) as usize,
                },
            ) && *final(self) == *old(self) && final(out)@ == old(out)@,
            old(self)@.len() >= n_symbols * w.spec_bits() ==> r == Ok::<(), UnpackError>(())
                && final(out)@ == old(out)@ + decode(old(self)@, w.spec_bits() as nat, n_symbols as nat)
                && final(self)@ == old(self)@.skip(n_symbols * w.spec_bits())
                && final(self).position() == old(self).position() + n_symbols * w.spec_bits(),
    {
        let bits = w.bits() as u32;
        let necessarios = n_symbols as u64 * bits as u64;
        let restantes = self.bits_remaining();
        if restantes < necessarios {
            proof {
                self.lemma_view();
                lemma_bytes_bits_len(self.src@);
            }
            return Err(
                UnpackError::Truncated {
                    expected_bytes: packed_len(n_symbols, w),
                    got_bytes: (restantes / 8) as usize,
                },
            );
        }
        proof {
            lemma_strategy_facts(bits as nat);
        }
        if !self.is_byte_aligned() {
            self.read_generic(out, n_symbols, bits);
            return Ok(());
        }
        match Strategy::of(w) {
            Strategy::Native { bytes } => {
                self.read_all_group(out, n_symbols, bits, 1, bytes as u32);
            },
            Strategy::Group { symbols, bytes } => {
                self.read_all_group(out, n_symbols, bits, symbols as u32, bytes as u32);
            },
            Strategy::Generic => {
                self.read_generic(out, n_symbols, bits);
            },
        }
        Ok(())
    }

    /// Reads `n` symbols one at a time.
    fn read_generic(&mut self, out: &mut Vec<u32>, n: usize, bits: u32)
        requires
            old(self).wf(),
            1 <= bits <= 32,
            old(self)@.len() >= n * bits,
        ensures
            final(self).wf(),
            final(self).source() == old(self).source(),
            final(out)@ == old(out)@ + decode(old(self)@, bits as nat, n as nat),
            final(self)@ == old(self)@.skip(n * bits),
            final(self).position() == old(self).position() + n * bits,
    {
        let mut k = n;
        proof {
            assert(old(self)@.skip(0) =~= old(self)@);
        }
        while k > 0
            invariant
                self.wf(),
                old(self).wf(),
                self.position() >= old(self).position(),
                self.source() == old(self).source(),
                1 <= bits <= 32,
                k <= n,
                self@.len() >= k * bits,
                self.position() + k * bits == old(self).position() + n * bits,
                self@ == old(self)@.skip(self.position() - old(self).position()),
                out@ + decode(self@, bits as nat, k as nat) == old(out)@ + decode(
                    old(self)@,
                    bits as nat,
                    n as nat,
                ),
            decreases k,
        {
            proof {
                lemma_mul_is_distributive_add_other_way(bits as int, (k - 1) as int, 1);
                old(self).lemma_view();
                self.lemma_view();
            }
            let ghost cur = self@;
            let v = self.read_unchecked(bits);
            proof {
                lemma_pow2_strictly_increases_or_eq(bits as nat, 32);
                lemma_bits_of_nat_of(cur.take(bits as int));
                lemma2_to64();
                assert(decode(cur, bits as nat, k as nat) == seq![v] + decode(
                    cur.skip(bits as int),
                    bits as nat,
                    (k - 1) as nat,
                ));
                assert(out@.push(v) + decode(self@, bits as nat, (k - 1) as nat) =~= out@ + decode(
                    cur,
                    bits as nat,
                    k as nat,
                ));
                self.lemma_skip_view(old(self));
            }
            out.push(v);
            k = k - 1;
        }
        proof {
            assert(decode(self@, bits as nat, 0) =~= Seq::<u32>::empty());
            assert(out@ =~= old(out)@ + decode(old(self)@, bits as nat, n as nat));
        }
    }

    /// Reads whole groups of `symbols` symbols as one word of `nbytes` bytes,
    /// then the incomplete tail one symbol at a time.
    fn read_all_group(&mut self, out: &mut Vec<u32>, n: usize, bits: u32, symbols: u32, nbytes: u32)
        requires
            old(self).wf(),
            old(self).position() % 8 == 0,
            1 <= bits <= 32,
            1 <= symbols,
            1 <= nbytes <= 8,
            symbols * bits == 8 * nbytes,
            old(self)@.len() >= n * bits,
        ensures
            final(self).wf(),
            final(self).source() == old(self).source(),
            final(out)@ == old(out)@ + decode(old(self)@, bits as nat, n as nat),
            final(self)@ == old(self)@.skip(n * bits),
            final(self).position() == old(self).position() + n * bits,
    {
        let ns = symbols as usize;
        let mut k = n;
        proof {
            assert(old(self)@.skip(0) =~= old(self)@);
        }
        while k >= ns
            invariant
                self.wf(),
                old(self).wf(),
                self.position() >= old(self).position(),
                self.source() == old(self).source(),
                self.position() % 8 == 0,
                1 <= bits <= 32,
                1 <= symbols,
                ns == symbols,
                1 <= nbytes <= 8,
                symbols * bits == 8 * nbytes,
                k <= n,
                self@.len() >= k * bits,
                self.position() + k * bits == old(self).position() + n * bits,
                self@ == old(self)@.skip(self.position() - old(self).position()),
                out@ + decode(self@, bits as nat, k as nat) == old(out)@ + decode(
                    old(self)@,
                    bits as nat,
                    n as nat,
                ),
            decreases k,
        {
            let ghost cur = self@;
            let ghost out_g = out@;
            proof {
                lemma_mul_inequality(ns as int, k as int, bits as int);
                lemma_mul_is_distributive_sub_other_way(bits as int, k as int, ns as int);
                lemma_decode_split(cur, bits as nat, ns as nat, (k - ns) as nat);
                assert((ns + (k - ns)) as nat == k);
                old(self).lemma_view();
            }
            let word = self.read_word(nbytes);
            proof {
                lemma_mul_inequality(1, symbols as int, bits as int);
            }
            let ghost w_bits = bits_of(word as nat, (8 * nbytes) as nat);
            let mut sh: u32 = 8 * nbytes - bits;
            let mut o: u32 = 0;
            let mut i: u32 = 0;
            let ghost mut vc = cur;
            proof {
                lemma_bits_of_len(word as nat, (8 * nbytes) as nat);
                assert(vc.skip(0) =~= vc);
            }
            while i < symbols
                invariant
                    1 <= bits <= 32,
                    symbols * bits == 8 * nbytes,
                    1 <= nbytes <= 8,
                    i <= symbols,
                    o == i * bits,
                    o + bits + sh == 8 * nbytes || i == symbols,
                    i == symbols ==> o == 8 * nbytes,
                    w_bits == bits_of(word as nat, (8 * nbytes) as nat),
                    w_bits == cur.take(8 * nbytes),
                    w_bits.len() == 8 * nbytes,
                    cur.len() >= 8 * nbytes,
                    vc == cur.skip(o as int),
                    out@ + decode(vc, bits as nat, (symbols - i) as nat) == out_g + decode(
                        cur,
                        bits as nat,
                        symbols as nat,
                    ),
                decreases symbols - i,
            {
                proof {
                    lemma_mul_is_distributive_add_other_way(bits as int, i as int, 1);
                    lemma_mul_is_distributive_add_other_way(bits as int, (i + 1) as int, 1);
                    lemma_mul_inequality((i + 1) as int, symbols as int, bits as int);
                    if i + 2 <= symbols {
                        lemma_mul_inequality((i + 2) as int, symbols as int, bits as int);
                    }
                    vstd::bits::lemma_u64_pow2_no_overflow(bits as nat);
                    vstd::bits::lemma_u64_shl_is_mul(1, bits as u64);
                    lemma_pow2_basics(bits as nat);
                }
                let v64 = (word >> sh) & ((1u64 << bits) - 1);
                proof {
                    lemma_window_of_word(word, sh as u64, bits as u64, v64);
                    lemma_bits_of_window(word as nat, (8 * nbytes) as nat, o as nat, bits as nat);
                    assert(vc.take(bits as int) =~= w_bits.subrange(o as int, (o + bits) as int));
                    lemma_bits_of_nat_of(vc.take(bits as int));
                    lemma_pow2_strictly_increases_or_eq(bits as nat, 32);
                    lemma2_to64();
                    assert(decode(vc, bits as nat, (symbols - i) as nat) == seq![v64 as u32] + decode(
                        vc.skip(bits as int),
                        bits as nat,
                        (symbols - i - 1) as nat,
                    ));
                    assert(out@.push(v64 as u32) + decode(vc.skip(bits as int), bits as nat, (symbols - i - 1) as nat) =~= out@ + decode(
                        vc,
                        bits as nat,
                        (symbols - i) as nat,
                    ));
                    assert(vc.skip(bits as int) =~= cur.skip((o + bits) as int));
                }
                out.push(v64 as u32);
                proof {
                    vc = vc.skip(bits as int);
                }
                o = o + bits;
                if i + 1 < symbols {
                    sh = sh - bits;
                }
                i = i + 1;
            }
            proof {
                assert(decode(vc, bits as nat, 0) =~= Seq::<u32>::empty());
                assert(out@ =~= out_g + decode(cur, bits as nat, symbols as nat));
                assert(self@ == vc);
                assert(out@ + decode(self@, bits as nat, (k - ns) as nat) =~= out_g + decode(
                    cur,
                    bits as nat,
                    k as nat,
                ));
                self.lemma_skip_view(old(self));
            }
            k = k - ns;
        }
        let ghost mid = self@;
        let ghost out_m = out@;
        proof {
            self.lemma_view();
        }
        self.read_generic(out, k, bits);
        proof {
            self.lemma_skip_view(old(self));
            assert(out@ =~= old(out)@ + decode(old(self)@, bits as nat, n as nat));
        }
    }
}

proof fn lemma_small_mod_byte(x: u8)
    ensures
        (x as nat) % 256 == x as nat,
        (x == 0) == ((x as nat) % 256 == 0),
{
}

/// Packs `values` in width `w`.
pub fn pack(values: &[u32], w: Width) -> (r: Result<Vec<u8>, PackError>)
    requires
        values@.len() * w.spec_bits() <= usize::MAX,
    ensures
        match r {
            Ok(bytes) => spec_pack(values@, w.spec_bits() as nat) == Ok::<Seq<u8>, PackError>(bytes@),
            Err(e) => spec_pack(values@, w.spec_bits() as nat) == Err::<Seq<u8>, PackError>(e),
        },
{
    let mut writer = BitWriter::with_capacity_for(values.len(), w);
    let b = w.bits();
    proof {
        assert(writer@.len() + values@.len() * b <= u64::MAX);
    }
    match writer.push_all(values, w) {
        Ok(()) => {},
        Err(e) => {
            return Err(e);
        },
    }
    proof {
        assert(writer@ =~= stream_of(values@, b as nat));
    }
    Ok(writer.finish())
}

/// Packs through the generic path only, whatever the strategy of `w`: the
/// reference that the fast paths are held against.
pub fn pack_via_generic(values: &[u32], w: Width) -> (r: Result<Vec<u8>, PackError>)
    requires
        values@.len() * w.spec_bits() <= usize::MAX,
    ensures
        match r {
            Ok(bytes) => spec_pack(values@, w.spec_bits() as nat) == Ok::<Seq<u8>, PackError>(bytes@),
            Err(e) => spec_pack(values@, w.spec_bits() as nat) == Err::<Seq<u8>, PackError>(e),
        },
{
    let bits = w.bits();
    proof {
        lemma_first_too_wide(values@, bits as nat);
    }
    match find_too_wide(values, bits) {
        Some(index) => {
            return Err(PackError::ValueTooWide { index, value: values[index], bits });
        },
        None => {},
    }
    let mut writer = BitWriter::with_capacity_for(values.len(), w);
    writer.push_generic(values, bits as u32, 0);
    proof {
        assert(values@.skip(0) =~= values@);
        assert(writer@ =~= stream_of(values@, bits as nat));
    }
    Ok(writer.finish())
}

/// Unpacks exactly `n_symbols` symbols of width `w`: the length must be exact
/// and the completion bits zero.
pub fn unpack(bytes: &[u8], n_symbols: usize, w: Width) -> (r: Result<Vec<u32>, UnpackError>)
    requires
        n_symbols * w.spec_bits() + 7 <= usize::MAX,
    ensures
        match r {
            Ok(vals) => spec_unpack(bytes@, n_symbols as nat, w.spec_bits() as nat) == Ok::<
                Seq<u32>,
                UnpackError,
            >(vals@),
            Err(e) => spec_unpack(bytes@, n_symbols as nat, w.spec_bits() as nat) == Err::<
                Seq<u32>,
                UnpackError,
            >(e),
        },
{
    let esperados = packed_len(n_symbols, w);
    if bytes.len() < esperados {
        return Err(UnpackError::Truncated { expected_bytes: esperados, got_bytes: bytes.len() });
    }
    if bytes.len() > esperados {
        return Err(UnpackError::TrailingBytes { expected_bytes: esperados, got_bytes: bytes.len() });
    }
    let bits_uteis = n_symbols * (w.bits() as usize);
    let padding = (esperados * 8 - bits_uteis) as u32;
    proof {
        assert(padding == pad_bits((n_symbols * w.spec_bits()) as nat));
    }
    if padding > 0 {
        let ultimo = bytes[esperados - 1];
        proof {
            vstd::bits::lemma_u8_pow2_no_overflow(padding as nat);
            vstd::bits::lemma_u8_shl_is_mul(1, padding as u8);
            vstd::bits::lemma_u8_low_bits_mask_is_mod(ultimo, padding as nat);
            lemma_pow2_basics(padding as nat);
            assert((1u8 << (padding as u8)) - 1 == vstd::bits::low_bits_mask(padding as nat) as u8);
        }
        if ultimo & ((1u8 << (padding as u8)) - 1) != 0 {
            return Err(UnpackError::PaddingNotZero { padding_bits: padding, last_byte: ultimo });
        }
    }
    let mut out: Vec<u32> = Vec::with_capacity(n_symbols);
    let mut reader = BitReader::new(bytes);
    proof {
        lemma_bytes_bits_len(bytes@);
    }
    match reader.read_all_into(&mut out, n_symbols, w) {
        Ok(()) => {},
        Err(e) => {
            return Err(e);
        },
    }
    proof {
        assert(out@ =~= decode(bytes_bits(bytes@), w.spec_bits() as nat, n_symbols as nat));
    }
    Ok(out)
}

/// Unpacks through the generic path only: the counterpart of [`pack_via_generic`].
pub fn unpack_via_generic(bytes: &[u8], n_symbols: usize, w: Width) -> (r: Result<
    Vec<u32>,
    UnpackError,
>)
    requires
        bytes@.len() * 8 <= u64::MAX,
        n_symbols * w.spec_bits() <= usize::MAX,
    ensures
        bytes@.len() * 8 < n_symbols * w.spec_bits() ==> r == Err::<Vec<u32>, UnpackError>(
            UnpackError::Truncated {
                expected_bytes: packed_len_of(n_symbols as nat, w.spec_bits() as nat) as usize,
                got_bytes: bytes@.len() as usize,
            },
        ),
        bytes@.len() * 8 >= n_symbols * w.spec_bits() ==> (r matches Ok(vals) && vals@ == decode(
            bytes_bits(bytes@),
            w.spec_bits() as nat,
            n_symbols as nat,
        )),
{
    let bits = w.bits() as u32;
    let mut reader = BitReader::new(bytes);
    proof {
        lemma_bytes_bits_len(bytes@);
    }
    if reader.bits_remaining() < n_symbols as u64 * bits as u64 {
        return Err(
            UnpackError::Truncated {
                expected_bytes: packed_len(n_symbols, w),
                got_bytes: bytes.len(),
            },
        );
    }
    let mut out: Vec<u32> = Vec::with_capacity(n_symbols);
    reader.read_generic(&mut out, n_symbols, bits);
    proof {
        assert(out@ =~= decode(bytes_bits(bytes@), bits as nat, n_symbols as nat));
    }
    Ok(out)
}

/// The completion bits of a byte stream are zero exactly when the last byte
/// is a multiple of `2^pad`.
proof fn lemma_last_byte_padding(bytes: Seq<u8>, pad: nat)
    requires
        bytes.len() > 0,
        pad <= 8,
    ensures
        ((bytes.last() as nat) % pow2(pad) == 0) <==> bytes_bits(bytes).skip(
            8 * bytes.len() - pad,
        ) == zeros(pad),
{
    let l = bytes.len() - 1;
    lemma_bytes_bits_at(bytes, l);
    lemma_zero_window(bytes.last() as nat, 8, (8 - pad) as nat);
    assert(bytes_bits(bytes).skip(8 * bytes.len() - pad) =~= bits_of(bytes.last() as nat, 8).skip(
        (8 - pad) as int,
    ));
}

/// `true` when [`BitWriter::push`] refuses `v` at `b` bits.
pub open spec fn push_fails(v: u32, b: nat) -> bool {
    b < 32 && v as nat >= pow2(b)
}

/// The bits of a writer that held `view` after pushing `vals` one by one at
/// `b` bits each, as [`BitWriter::push`] appends them.
pub open spec fn pushed(view: Seq<bool>, vals: Seq<u32>, b: nat) -> Seq<bool>
    decreases vals.len(),
{
    if vals.len() == 0 {
        view
    } else {
        pushed(view, vals.drop_last(), b) + bits_of(vals.last() as nat, b)
    }
}

/// [`BitWriter::push_all`] is the same as pushing the values one by one:
/// it refuses exactly when one of the pushes would, at the first such value,
/// and otherwise leaves the bits that the successive pushes leave.
pub proof fn lemma_push_all_is_pushes(view: Seq<bool>, vals: Seq<u32>, b: nat)
    requires
        1 <= b <= 32,
    ensures
        pushed(view, vals, b) == view + stream_of(vals, b),
        match first_too_wide(vals, b) {
            Some(i) => 0 <= i < vals.len() && push_fails(vals[i], b) && forall|j: int|
                0 <= j < i ==> !push_fails(#[trigger] vals[j], b),
            None => forall|j: int| 0 <= j < vals.len() ==> !push_fails(#[trigger] vals[j], b),
        },
    decreases vals.len(),
{
    lemma_first_too_wide(vals, b);
    lemma2_to64();
    if b == 32 {
        assert forall|j: int| 0 <= j < vals.len() implies (vals[j] as nat) < pow2(b) by {}
        if let Some(i) = first_too_wide(vals, b) {
            assert((vals[i] as nat) < pow2(b));
        }
    }
    if vals.len() == 0 {
        assert(view + stream_of(vals, b) =~= view);
    } else {
        lemma_push_all_is_pushes(view, vals.drop_last(), b);
        assert(view + stream_of(vals, b) =~= view + stream_of(vals.drop_last(), b) + bits_of(
            vals.last() as nat,
            b,
        ));
    }
}

/// The bits of a plan of writes, each a value and its width in bits, one
/// after the other.
pub open spec fn written(plan: Seq<(u32, nat)>) -> Seq<bool>
    decreases plan.len(),
{
    if plan.len() == 0 {
        Seq::<bool>::empty()
    } else {
        bits_of(plan[0].0 as nat, plan[0].1) + written(plan.skip(1))
    }
}

/// Pushing one more value appends its bits: a writer that pushed the plan in
/// order holds [`written`] of it.
pub proof fn lemma_written_push(plan: Seq<(u32, nat)>, x: (u32, nat))
    ensures
        written(plan.push(x)) == written(plan) + bits_of(x.0 as nat, x.1),
    decreases plan.len(),
{
    if plan.len() == 0 {
        assert(plan.push(x).skip(1) =~= Seq::<(u32, nat)>::empty());
        assert(plan.push(x)[0] == x);
        assert(written(Seq::<(u32, nat)>::empty()) == Seq::<bool>::empty());
        assert(written(plan.push(x)) == bits_of(x.0 as nat, x.1) + Seq::<bool>::empty());
        assert(written(plan.push(x)) =~= written(plan) + bits_of(x.0 as nat, x.1));
    } else {
        lemma_written_push(plan.skip(1), x);
        assert(plan.push(x).skip(1) =~= plan.skip(1).push(x));
        assert(plan.push(x)[0] == plan[0]);
        let h = bits_of(plan[0].0 as nat, plan[0].1);
        assert(written(plan.push(x)) == h + written(plan.skip(1).push(x)));
        assert(written(plan) == h + written(plan.skip(1)));
        assert(written(plan.push(x)) =~= written(plan) + bits_of(x.0 as nat, x.1));
    }
}

/// [`BitReader`] reads back what [`BitWriter`] pushed: over the bytes of a
/// plan of writes, whatever follows the plan's bits (the zeros that
/// [`BitWriter::finish`] completes the last byte with), the `k`-th read has
/// enough bits, gives the `k`-th value, and leaves the rest of the plan.
pub proof fn lemma_read_back(plan: Seq<(u32, nat)>, rest: Seq<bool>)
    requires
        forall|i: int|
            0 <= i < plan.len() ==> 1 <= (#[trigger] plan[i]).1 <= 32 && (plan[i].0 as nat) < pow2(
                plan[i].1,
            ),
    ensures
        bytes_bits(to_bytes(written(plan))) == written(plan) + zeros(pad_bits(written(plan).len())),
        forall|k: int|
            0 <= k < plan.len() ==> {
                let view = #[trigger] written(plan.skip(k)) + rest;
                &&& view.len() >= plan[k].1
                &&& nat_of(view.take(plan[k].1 as int)) as u32 == plan[k].0
                &&& view.skip(plan[k].1 as int) == written(plan.skip(k + 1)) + rest
            },
{
    lemma_to_bytes(written(plan));
    assert forall|k: int|
        0 <= k < plan.len() implies {
            let view = #[trigger] written(plan.skip(k)) + rest;
            &&& view.len() >= plan[k].1
            &&& nat_of(view.take(plan[k].1 as int)) as u32 == plan[k].0
            &&& view.skip(plan[k].1 as int) == written(plan.skip(k + 1)) + rest
        } by {
        let p = plan.skip(k);
        let (v, b) = plan[k];
        assert(p[0] == plan[k]);
        assert(p.skip(1) =~= plan.skip(k + 1));
        let head = bits_of(v as nat, b);
        let view = written(p) + rest;
        assert(view =~= head + (written(plan.skip(k + 1)) + rest));
        lemma_bits_of_len(v as nat, b);
        lemma_nat_of_bits_of(v as nat, b);
        lemma_small_mod(v as nat, pow2(b));
        assert(view.take(b as int) =~= head);
        assert(view.skip(b as int) =~= written(plan.skip(k + 1)) + rest);
    }
}

/// Packing then unpacking gives the values back, for every width and every
/// sequence of values that fit in it; the packed length is `ceil(n * b / 8)`.
pub proof fn lemma_pack_unpack_roundtrip(vals: Seq<u32>, b: nat)
    requires
        1 <= b <= 32,
        forall|i: int| 0 <= i < vals.len() ==> (vals[i] as nat) < pow2(b),
    ensures
        spec_pack(vals, b) matches Ok(bytes) && bytes.len() == packed_len_of(vals.len(), b)
            && spec_unpack(bytes, vals.len(), b) == Ok::<Seq<u32>, UnpackError>(vals),
{
    lemma_first_too_wide(vals, b);
    if first_too_wide(vals, b) is Some {
        let i = first_too_wide(vals, b)->0;
        assert((vals[i] as nat) < pow2(b));
    }
    let st = stream_of(vals, b);
    let bytes = to_bytes(st);
    lemma_stream_len(vals, b);
    lemma_to_bytes(st);
    lemma_bytes_bits_len(bytes);
    let n = vals.len();
    let pad = pad_bits(n * b);
    assert(bytes.len() == packed_len_of(n, b));
    if pad > 0 {
        lemma_last_byte_padding(bytes, pad);
        assert(bytes_bits(bytes).skip(8 * bytes.len() - pad) =~= zeros(pad));
    }
    lemma_decode_stream(vals, zeros(pad), b);
}

/// What [`unpack`] accepts, [`unpack_via_generic`] accepts too, with the
/// same values: the bytes hold at least `n * b` bits, and the values are the
/// first `n` fields of `b` bits.
pub proof fn lemma_unpack_agrees_with_generic(bytes: Seq<u8>, n: nat, b: nat)
    requires
        1 <= b <= 32,
        spec_unpack(bytes, n, b) is Ok,
    ensures
        bytes.len() * 8 >= n * b,
        spec_unpack(bytes, n, b) == Ok::<Seq<u32>, UnpackError>(decode(bytes_bits(bytes), b, n)),
{
    let nb = n * b;
    assert(8 * ((nb + 7) / 8) >= nb) by (nonlinear_arith);
}

/// Unpacking then packing gives the bytes back: an accepted byte stream is
/// the packing of exactly one sequence of values.
pub proof fn lemma_unpack_pack_roundtrip(bytes: Seq<u8>, n: nat, b: nat)
    requires
        1 <= b <= 32,
        spec_unpack(bytes, n, b) is Ok,
    ensures
        spec_pack(spec_unpack(bytes, n, b)->Ok_0, b) == Ok::<Seq<u8>, PackError>(bytes),
{
    let bb = bytes_bits(bytes);
    let vals = decode(bb, b, n);
    let pad = pad_bits(n * b);
    lemma_bytes_bits_len(bytes);
    assert(bb.len() == n * b + pad);
    lemma_stream_decode(bb, b, n);
    lemma_decode_fits(bb, b, n);
    lemma_first_too_wide(vals, b);
    if first_too_wide(vals, b) is Some {
        let i = first_too_wide(vals, b)->0;
        assert((vals[i] as nat) < pow2(b));
    }
    if pad > 0 {
        lemma_last_byte_padding(bytes, pad);
        assert(bb.skip((n * b) as int) =~= zeros(pad));
    } else {
        assert(bb.skip((n * b) as int) =~= zeros(pad));
    }
    assert(bb =~= bb.take((n * b) as int) + zeros(pad));
    lemma_stream_len(vals, b);
    lemma_to_bytes_unique(stream_of(vals, b), bytes);
}

} // verus!
