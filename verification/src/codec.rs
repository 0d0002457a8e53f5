//! Parametric model: tokenisation, encode and decode of the `.hgr` stream.
//!
//! One [`Model`] serves the 32 widths. The band decides three things:
//!
//! | Band | Tokenisation | Byte not covered |
//! |---|---|---|
//! | LOWER `b < 8` | longest match in the table | ESCAPE (code 0) and 8 raw bits |
//! | BASE `b = 8` | byte by byte | cannot happen: the 256 bytes fit |
//! | HIGHER `b > 8` | longest match, at least 2 bytes | the byte goes in its legacy code |
//!
//! The parser is greedy: longest match through the trie of the table.

use vstd::prelude::*;
use vstd::arithmetic::power2::pow2;
use crate::bitseq::{bits_of, nat_of, zeros, bytes_bits, stream_of, to_bytes, lemma_bits_of_len, lemma_pow2_strictly_increases_or_eq};
use crate::hgr::{Header, HeaderError, HEADER_BYTES, HGR_VERSION, hgr_magic, be, be_value, header_bytes, header_error, header_read};
use crate::packing::BitReader;
use crate::model::{Band, Variant, Width, band_of, variant_wire};
use crate::packing::{BitWriter, PackError, first_too_wide, lemma_first_too_wide};
use crate::table::{Table, ESCAPE_CODE, blocks_fit, block_of_spec, dict_of, first_code_of, lemma_dict_of, slots_of};
use crate::model::variant_from_wire;
use crate::trie::{longest_known, lemma_longest_known};

verus! {

/// Error while encoding.
#[derive(Debug, Clone, Copy, PartialEq, Eq)]
pub enum EncodeError {
    /// The input is larger than the header can declare.
    InputTooLarge {
        /// Bytes of the input.
        got: usize,
    },
    /// A code did not fit in the width, which points at an inconsistent table.
    Packing(PackError),
}

/// Error while decoding. Every case is detected and returned: the decoder
/// never panics, nor gives plausible bytes from an inconsistent stream.
#[derive(Debug, Clone, Copy, PartialEq, Eq)]
#[allow(inconsistent_fields)]
pub enum DecodeError {
    /// Invalid header.
    Header(HeaderError),
    /// The stream was written with another table.
    TableMismatch {
        /// `table_id` declared in the header.
        expected: [u8; 8],
        /// `table_id` of the table given to the decoder.
        got: [u8; 8],
    },
    /// The width of the header is not the table's.
    WidthMismatch {
        /// Width in the header.
        expected: u8,
        /// Width of the table.
        got: u8,
    },
    /// The variant of the header is not the table's.
    VariantMismatch {
        /// Variant in the header.
        expected: u8,
        /// Variant of the table.
        got: u8,
    },
    /// The CRC of the payload does not match.
    CrcMismatch {
        /// CRC declared in the header.
        expected: u32,
        /// CRC computed over the payload received.
        got: u32,
    },
    /// Bits are missing for the declared `n_symbols`.
    Truncated {
        /// Symbols declared in the header.
        declared: u64,
        /// Symbols that the payload holds.
        available: u64,
    },
    /// A code of the stream is not in the table.
    UnknownCode {
        /// The code read.
        code: u32,
        /// Position of the symbol in the stream.
        index: u64,
    },
    /// Decoding gave a number of bytes other than the declared one.
    LengthMismatch {
        /// Bytes declared in the header.
        declared: u64,
        /// Bytes produced.
        got: u64,
    },
    /// The completion bits of the last byte are not zero.
    PaddingNotZero,
    /// The stream declares a feature that is not implemented.
    UnsupportedFlags {
        /// The flag bits of the header.
        flags: u8,
    },
}

impl From<PackError> for EncodeError {
    fn from(e: PackError) -> (r: Self) {
        EncodeError::Packing(e)
    }
}

impl vstd::std_specs::convert::FromSpecImpl<PackError> for EncodeError {
    open spec fn obeys_from_spec() -> bool {
        true
    }

    open spec fn from_spec(v: PackError) -> Self {
        EncodeError::Packing(v)
    }
}

impl From<HeaderError> for DecodeError {
    fn from(e: HeaderError) -> (r: Self) {
        DecodeError::Header(e)
    }
}

impl vstd::std_specs::convert::FromSpecImpl<HeaderError> for DecodeError {
    open spec fn obeys_from_spec() -> bool {
        true
    }

    open spec fn from_spec(v: HeaderError) -> Self {
        DecodeError::Header(v)
    }
}

/// Statistics of an encode.
#[derive(Debug, Clone, Copy, PartialEq, Eq, Default, Structural)]
pub struct EncodeStats {
    /// Bytes of the input.
    pub input_bytes: u64,
    /// Symbols emitted (an ESCAPE counts as one).
    pub n_symbols: u64,
    /// How many of those symbols were ESCAPE (lower band only).
    pub n_escapes: u64,
    /// Bytes of the whole stream, header included.
    pub encoded_bytes: u64,
    /// Bytes of the header, reported apart.
    pub header_bytes: u64,
}

/// One shift of the reflected CRC-32 register: the polynomial `0xEDB88320`
/// is folded in when the bit that leaves is 1.
pub open spec fn crc_shift(c: u32) -> u32 {
    if c & 1u32 == 1u32 {
        (c >> 1u32) ^ 0xEDB8_8320u32
    } else {
        c >> 1u32
    }
}

/// Eight shifts of the register, one per bit of a byte.
pub open spec fn crc_shift8(c: u32) -> u32 {
    crc_shift(crc_shift(crc_shift(crc_shift(crc_shift(crc_shift(crc_shift(crc_shift(c))))))))
}

/// The register after one more byte.
pub open spec fn crc_byte(c: u32, x: u8) -> u32 {
    crc_shift8(c ^ (x as u32))
}

/// The register after `data`, starting from all ones.
pub open spec fn crc_state(data: Seq<u8>) -> u32
    decreases data.len(),
{
    if data.len() == 0 {
        0xFFFF_FFFFu32
    } else {
        crc_byte(crc_state(data.drop_last()), data.last())
    }
}

/// CRC-32 (IEEE 802.3, reflected, initial value and final xor all ones) of
/// a byte sequence.
pub open spec fn crc32_ieee(data: Seq<u8>) -> u32 {
    crc_state(data) ^ 0xFFFF_FFFFu32
}

/// Calls `crc32fast::hash`, which computes the CRC-32 (IEEE) of `data`; the
/// contract claims that it is [`crc32_ieee`].
#[verifier::external_body]
fn crc32(data: &[u8]) -> (r: u32)
    ensures
        r == crc32_ieee(data@),
{
    crc32fast::hash(data)
}

/// A tokenised symbol.
#[derive(Debug, Clone, Copy, PartialEq, Eq, Structural)]
pub enum Symbol {
    /// A code of the table (or a legacy code, in BASE and HIGHER).
    Code(u32),
    /// ESCAPE of the lower band, carrying the raw byte that follows it.
    Escape(u8),
}

/// Blocks of a table with their codes.
pub open spec fn model_dict(t: Table) -> Map<Seq<u8>, u32> {
    dict_of(t.spec_blocks(), first_code_of(t.spec_width().spec_bits() as nat))
}

/// The symbol that greedy tokenisation takes at the front of a non-empty
/// input, and how many bytes it covers.
pub open spec fn step(t: Table, input: Seq<u8>) -> (Symbol, nat) {
    let b = t.spec_width().spec_bits() as nat;
    let found = longest_known(model_dict(t), input, input.len());
    match band_of(b) {
        Band::Base => (Symbol::Code(input[0] as u32), 1),
        Band::Higher => match found {
            Some((c, l)) => if l >= 2 {
                (Symbol::Code(c), l)
            } else {
                (Symbol::Code(input[0] as u32), 1)
            },
            None => (Symbol::Code(input[0] as u32), 1),
        },
        Band::Lower => match found {
            Some((c, l)) => (Symbol::Code(c), l),
            None => (Symbol::Escape(input[0]), 1),
        },
    }
}

/// A step covers at least one byte and no more than the input.
pub proof fn lemma_step_len(t: Table, input: Seq<u8>)
    requires
        input.len() > 0,
    ensures
        1 <= step(t, input).1 <= input.len(),
{
    lemma_longest_known(model_dict(t), input, input.len());
}

/// Greedy tokenisation of `input`: the symbols, front to back.
pub open spec fn tokens(t: Table, input: Seq<u8>) -> Seq<Symbol>
    decreases input.len(),
{
    if input.len() == 0 {
        Seq::<Symbol>::empty()
    } else {
        let (s, l) = step(t, input);
        proof {
            lemma_step_len(t, input);
        }
        seq![s] + tokens(t, input.skip(l as int))
    }
}

/// Bits that a symbol takes in a stream of `b`-bit codes: an ESCAPE is the
/// code 0 followed by its raw byte.
pub open spec fn symbol_bits(s: Symbol, b: nat) -> Seq<bool> {
    match s {
        Symbol::Code(c) => bits_of(c as nat, b),
        Symbol::Escape(raw) => bits_of(ESCAPE_CODE as nat, b) + bits_of(raw as nat, 8),
    }
}

/// Bits of a sequence of symbols, one after the other.
pub open spec fn symbols_bits(ss: Seq<Symbol>, b: nat) -> Seq<bool>
    decreases ss.len(),
{
    if ss.len() == 0 {
        Seq::<bool>::empty()
    } else {
        symbols_bits(ss.drop_last(), b) + symbol_bits(ss.last(), b)
    }
}

/// How many ESCAPE symbols a sequence holds.
pub open spec fn escape_count(ss: Seq<Symbol>) -> nat
    decreases ss.len(),
{
    if ss.len() == 0 {
        0
    } else {
        escape_count(ss.drop_last()) + if ss.last() is Escape {
            1nat
        } else {
            0nat
        }
    }
}

/// Code that a symbol writes first: its own, or the ESCAPE code.
pub open spec fn code_of(s: Symbol) -> u32 {
    match s {
        Symbol::Code(c) => c,
        Symbol::Escape(_) => ESCAPE_CODE,
    }
}

/// Packed payload of an input: the bits of its symbols, the last byte
/// completed with zeros.
pub open spec fn payload_of(t: Table, input: Seq<u8>) -> Seq<u8> {
    to_bytes(symbols_bits(tokens(t, input), t.spec_width().spec_bits() as nat))
}

/// The whole `.hgr` stream of an input: header, then payload.
pub open spec fn encoded_stream(t: Table, input: Seq<u8>) -> Seq<u8> {
    let p = payload_of(t, input);
    hgr_magic() + seq![
        HGR_VERSION,
        t.spec_width().spec_bits(),
        variant_wire(t.spec_variant()),
        0u8,
    ] + t.spec_id().take(8) + be(tokens(t, input).len(), 8) + be(input.len(), 8) + be(
        crc32_ieee(p) as nat,
        4,
    ) + p
}

/// Decoding `k` more symbols from `bits`, `index` symbols having been read
/// and `out` produced: the bytes and the bits left, or the first error.
pub open spec fn decode_symbols(
    t: Table,
    bits: Seq<bool>,
    k: nat,
    index: nat,
    declared: u64,
    out: Seq<u8>,
) -> Result<(Seq<u8>, Seq<bool>), DecodeError>
    decreases k,
{
    let b = t.spec_width().spec_bits() as nat;
    if k == 0 {
        Ok((out, bits))
    } else if bits.len() < b {
        Err(DecodeError::Truncated { declared, available: index as u64 })
    } else {
        let code = nat_of(bits.take(b as int)) as u32;
        let rest = bits.skip(b as int);
        let next = (k - 1) as nat;
        let block = block_of_spec(b, t.spec_blocks(), code as nat);
        match band_of(b) {
            Band::Base => if code < 256 {
                decode_symbols(t, rest, next, index + 1, declared, out.push(code as u8))
            } else {
                Err(DecodeError::UnknownCode { code, index: index as u64 })
            },
            Band::Higher => if code < 256 {
                decode_symbols(t, rest, next, index + 1, declared, out.push(code as u8))
            } else {
                match block {
                    Some(bl) => decode_symbols(t, rest, next, index + 1, declared, out + bl),
                    None => Err(DecodeError::UnknownCode { code, index: index as u64 }),
                }
            },
            Band::Lower => if code == ESCAPE_CODE {
                if rest.len() < 8 {
                    Err(DecodeError::Truncated { declared, available: index as u64 })
                } else {
                    decode_symbols(
                        t,
                        rest.skip(8),
                        next,
                        index + 1,
                        declared,
                        out.push(nat_of(rest.take(8)) as u8),
                    )
                }
            } else {
                match block {
                    Some(bl) => decode_symbols(t, rest, next, index + 1, declared, out + bl),
                    None => Err(DecodeError::UnknownCode { code, index: index as u64 }),
                }
            },
        }
    }
}

/// What decoding `src` with table `t` gives, the checks in their order:
/// header, flags, width, variant, `table_id`, payload CRC, enough bits,
/// each code, zero completion, and the number of bytes produced.
pub open spec fn decode_result(t: Table, src: Seq<u8>) -> Result<Seq<u8>, DecodeError> {
    let b = t.spec_width().spec_bits();
    let id = t.spec_id();
    match header_error(src) {
        Some(e) => Err(DecodeError::Header(e)),
        None => if src[7] != 0 {
            Err(DecodeError::UnsupportedFlags { flags: src[7] })
        } else if src[5] != b {
            Err(DecodeError::WidthMismatch { expected: src[5], got: b })
        } else if variant_from_wire(src[6]) != Some(t.spec_variant()) {
            Err(DecodeError::VariantMismatch { expected: src[6], got: variant_wire(t.spec_variant()) })
        } else if src.subrange(8, 16) != id.take(8) {
            Err(
                DecodeError::TableMismatch {
                    expected: [src[8], src[9], src[10], src[11], src[12], src[13], src[14], src[15]],
                    got: [id[0], id[1], id[2], id[3], id[4], id[5], id[6], id[7]],
                },
            )
        } else {
            let payload = src.skip(HEADER_BYTES as int);
            let declared_crc = be_value(src.subrange(32, 36)) as u32;
            let n = be_value(src.subrange(16, 24));
            let total = 8 * payload.len();
            if crc32_ieee(payload) != declared_crc {
                Err(DecodeError::CrcMismatch { expected: declared_crc, got: crc32_ieee(payload) })
            } else if n * b > total {
                Err(DecodeError::Truncated { declared: n as u64, available: (total / (b as nat)) as u64 })
            } else {
                match decode_symbols(t, bytes_bits(payload), n, 0, n as u64, Seq::<u8>::empty()) {
                    Err(e) => Err(e),
                    Ok((out, rest)) => if rest.len() >= 8 || rest != zeros(rest.len()) {
                        Err(DecodeError::PaddingNotZero)
                    } else if out.len() != be_value(src.subrange(24, 32)) {
                        Err(
                            DecodeError::LengthMismatch {
                                declared: be_value(src.subrange(24, 32)) as u64,
                                got: out.len() as u64,
                            },
                        )
                    } else {
                        Ok(out)
                    },
                }
            }
        },
    }
}

/// What a table of `b` bits keeps that tokenisation relies on.
pub open spec fn table_ok(t: Table) -> bool {
    let b = t.spec_width().spec_bits() as nat;
    &&& 1 <= b <= 32
    &&& blocks_fit(t.spec_blocks(), b)
}

/// Every code of the tokens fits in the width; there are no more symbols
/// than bytes.
pub proof fn lemma_tokens_fit(t: Table, input: Seq<u8>)
    requires
        table_ok(t),
    ensures
        tokens(t, input).len() <= input.len(),
        forall|i: int|
            0 <= i < tokens(t, input).len() ==> (code_of(#[trigger] tokens(t, input)[i]) as nat)
                < pow2(t.spec_width().spec_bits() as nat),
    decreases input.len(),
{
    if input.len() > 0 {
        let b = t.spec_width().spec_bits() as nat;
        let (s, l) = step(t, input);
        lemma_step_len(t, input);
        lemma_tokens_fit(t, input.skip(l as int));
        let rest = tokens(t, input.skip(l as int));
        assert(tokens(t, input) == seq![s] + rest);
        vstd::arithmetic::power2::lemma2_to64();
        lemma_pow2_strictly_increases_or_eq(b, 32);
        lemma_pow2_strictly_increases_or_eq(8, 32);
        if b >= 8 {
            lemma_pow2_strictly_increases_or_eq(8, b);
        }
        let base = first_code_of(b);
        let blocks = t.spec_blocks();
        let found = longest_known(model_dict(t), input, input.len());
        lemma_longest_known(model_dict(t), input, input.len());
        if let Some((c, k)) = found {
            lemma_dict_of(blocks, base, input.take(k as int));
        }
        assert((code_of(s) as nat) < pow2(b));
        assert forall|i: int|
            0 <= i < tokens(t, input).len() implies (code_of(#[trigger] tokens(t, input)[i]) as nat)
            < pow2(b) by {
            if i > 0 {
                assert(tokens(t, input)[i] == rest[i - 1]);
            }
        }
    }
}

/// Length of the bits of a sequence of symbols.
pub proof fn lemma_symbols_bits_len(ss: Seq<Symbol>, b: nat)
    ensures
        symbols_bits(ss, b).len() == ss.len() * b + 8 * escape_count(ss),
        escape_count(ss) <= ss.len(),
    decreases ss.len(),
{
    if ss.len() > 0 {
        lemma_symbols_bits_len(ss.drop_last(), b);
        lemma_bits_of_len(code_of(ss.last()) as nat, b);
        lemma_bits_of_len(0, b);
        match ss.last() {
            Symbol::Escape(raw) => lemma_bits_of_len(raw as nat, 8),
            Symbol::Code(_) => {},
        }
        vstd::arithmetic::mul::lemma_mul_is_distributive_add_other_way(
            b as int,
            (ss.len() - 1) as int,
            1,
        );
    }
}

/// With no ESCAPE, the bits of the symbols are the stream of their codes.
pub proof fn lemma_symbols_stream(ss: Seq<Symbol>, b: nat)
    requires
        escape_count(ss) == 0,
    ensures
        symbols_bits(ss, b) == stream_of(ss.map_values(|s: Symbol| code_of(s)), b),
    decreases ss.len(),
{
    if ss.len() > 0 {
        lemma_symbols_stream(ss.drop_last(), b);
        assert(ss.map_values(|s: Symbol| code_of(s)).drop_last() =~= ss.drop_last().map_values(
            |s: Symbol| code_of(s),
        ));
    } else {
        assert(ss.map_values(|s: Symbol| code_of(s)) =~= Seq::<u32>::empty());
    }
}

/// A prefix holds no more ESCAPE symbols than the whole.
pub proof fn lemma_escape_count_prefix(ss: Seq<Symbol>, k: int)
    requires
        0 <= k <= ss.len(),
    ensures
        escape_count(ss.take(k)) <= escape_count(ss),
    decreases ss.len() - k,
{
    if k < ss.len() {
        lemma_escape_count_prefix(ss, k + 1);
        assert(ss.take(k + 1).drop_last() =~= ss.take(k));
    } else {
        assert(ss.take(k) =~= ss);
    }
}

/// The bits of a symbol put in front of others.
pub proof fn lemma_symbols_bits_prepend(s: Symbol, ss: Seq<Symbol>, b: nat)
    ensures
        symbols_bits(seq![s] + ss, b) == symbol_bits(s, b) + symbols_bits(ss, b),
    decreases ss.len(),
{
    if ss.len() == 0 {
        assert(seq![s] + ss =~= seq![s]);
        assert(seq![s].drop_last() =~= Seq::<Symbol>::empty());
        assert(symbols_bits(Seq::<Symbol>::empty(), b) =~= Seq::<bool>::empty());
        assert(symbols_bits(seq![s], b) =~= symbol_bits(s, b));
        assert(symbol_bits(s, b) + symbols_bits(ss, b) =~= symbol_bits(s, b));
    } else {
        lemma_symbols_bits_prepend(s, ss.drop_last(), b);
        assert((seq![s] + ss).drop_last() =~= seq![s] + ss.drop_last());
        assert(symbols_bits(seq![s] + ss, b) =~= symbol_bits(s, b) + symbols_bits(ss, b));
    }
}

/// A code read back from its own `b` bits.
proof fn lemma_code_read(c: u32, b: nat, tail: Seq<bool>)
    requires
        (c as nat) < pow2(b),
        b <= 32,
    ensures
        (bits_of(c as nat, b) + tail).take(b as int) == bits_of(c as nat, b),
        (bits_of(c as nat, b) + tail).skip(b as int) == tail,
        nat_of(bits_of(c as nat, b)) as u32 == c,
{
    lemma_bits_of_len(c as nat, b);
    crate::bitseq::lemma_nat_of_bits_of(c as nat, b);
    vstd::arithmetic::div_mod::lemma_small_mod(c as nat, pow2(b));
    assert((bits_of(c as nat, b) + tail).take(b as int) =~= bits_of(c as nat, b));
    assert((bits_of(c as nat, b) + tail).skip(b as int) =~= tail);
}

/// What the greedy step takes: a legacy byte, a block of the table under
/// its code, or (lower band) an escaped byte.
pub proof fn lemma_step_facts(t: Table, x: Seq<u8>)
    requires
        table_ok(t),
        x.len() > 0,
    ensures
        ({
            let b = t.spec_width().spec_bits() as nat;
            let (s, l) = step(t, x);
            &&& (code_of(s) as nat) < pow2(b)
            &&& 1 <= l <= x.len()
            &&& match s {
                Symbol::Code(c) => (c < 256 && l == 1 && c == x[0] as u32 && band_of(b) != Band::Lower)
                    || (c >= first_code_of(b) && band_of(b) != Band::Base && block_of_spec(
                    b,
                    t.spec_blocks(),
                    c as nat,
                ) == Some(x.take(l as int))),
                Symbol::Escape(r) => band_of(b) == Band::Lower && r == x[0] && l == 1,
            }
        }),
{
    let b = t.spec_width().spec_bits() as nat;
    let (s, l) = step(t, x);
    lemma_step_len(t, x);
    lemma_tokens_fit(t, x);
    assert(tokens(t, x)[0] == s);
    vstd::arithmetic::power2::lemma2_to64();
    lemma_pow2_strictly_increases_or_eq(b, 32);
    let found = longest_known(model_dict(t), x, x.len());
    lemma_longest_known(model_dict(t), x, x.len());
    if let Some((c, k)) = found {
        lemma_dict_of(t.spec_blocks(), first_code_of(b), x.take(k as int));
    }
}

/// The bytes that a symbol stands for in table `t`: the block of its code,
/// or the raw byte of an ESCAPE.
pub open spec fn symbol_bytes(t: Table, s: Symbol) -> Seq<u8> {
    match s {
        Symbol::Code(c) => match block_of_spec(t.spec_width().spec_bits() as nat, t.spec_blocks(), c as nat) {
            Some(bl) => bl,
            None => Seq::<u8>::empty(),
        },
        Symbol::Escape(r) => seq![r],
    }
}

/// The bytes of a sequence of symbols, one after the other.
pub open spec fn expand(t: Table, ss: Seq<Symbol>) -> Seq<u8>
    decreases ss.len(),
{
    if ss.len() == 0 {
        Seq::<u8>::empty()
    } else {
        symbol_bytes(t, ss[0]) + expand(t, ss.skip(1))
    }
}

/// Expanding the symbols of [`Model::tokenize`] gives the input back, with
/// no more symbols than bytes: every code fits the width and stands for a
/// block of the table; ESCAPE occurs only in the lower band, where code 0 is
/// never emitted; in the base band there is one symbol per byte.
pub proof fn lemma_tokens_expand(t: Table, x: Seq<u8>)
    requires
        table_ok(t),
    ensures
        ({
            let b = t.spec_width().spec_bits() as nat;
            let ts = tokens(t, x);
            &&& expand(t, ts) == x
            &&& ts.len() <= x.len()
            &&& forall|i: int|
                0 <= i < ts.len() ==> match #[trigger] ts[i] {
                    Symbol::Code(c) => (c as nat) < pow2(b) && block_of_spec(b, t.spec_blocks(), c as nat)
                        is Some,
                    Symbol::Escape(_) => band_of(b) == Band::Lower,
                }
            &&& band_of(b) == Band::Lower ==> forall|i: int|
                0 <= i < ts.len() ==> #[trigger] ts[i] != Symbol::Code(ESCAPE_CODE)
            &&& band_of(b) == Band::Base ==> ts.len() == x.len()
        }),
    decreases x.len(),
{
    let b = t.spec_width().spec_bits() as nat;
    let ts = tokens(t, x);
    if x.len() == 0 {
        assert(expand(t, ts) =~= x);
    } else {
        let (s, l) = step(t, x);
        lemma_step_facts(t, x);
        let tail = x.skip(l as int);
        lemma_tokens_expand(t, tail);
        let rest = tokens(t, tail);
        assert(ts == seq![s] + rest);
        assert(ts.skip(1) =~= rest);
        assert(ts[0] == s);
        vstd::arithmetic::power2::lemma2_to64();
        if b >= 8 {
            lemma_pow2_strictly_increases_or_eq(8, b);
        }
        assert(symbol_bytes(t, s) == x.take(l as int)) by {
            match s {
                Symbol::Code(c) => {
                    if c < 256 && l == 1 && c == x[0] as u32 && band_of(b) != Band::Lower {
                        assert(x.take(1) =~= seq![x[0]]);
                        assert(seq![c as u8] =~= seq![x[0]]);
                    }
                },
                Symbol::Escape(r) => {
                    assert(x.take(1) =~= seq![x[0]]);
                },
            }
        }
        assert(x =~= x.take(l as int) + tail);
        assert forall|i: int|
            0 <= i < ts.len() implies match #[trigger] ts[i] {
                Symbol::Code(c) => (c as nat) < pow2(b) && block_of_spec(b, t.spec_blocks(), c as nat)
                    is Some,
                Symbol::Escape(_) => band_of(b) == Band::Lower,
            } by {
            if i > 0 {
                assert(ts[i] == rest[i - 1]);
            } else {
                if let Symbol::Code(c) = s {
                    if c < 256 && l == 1 && c == x[0] as u32 && band_of(b) != Band::Lower {
                        assert(block_of_spec(b, t.spec_blocks(), c as nat) == Some(seq![c as u8]));
                    }
                }
            }
        }
        if band_of(b) == Band::Lower {
            assert forall|i: int| 0 <= i < ts.len() implies #[trigger] ts[i] != Symbol::Code(ESCAPE_CODE) by {
                if i > 0 {
                    assert(ts[i] == rest[i - 1]);
                }
            }
        }
    }
}

/// A base-band table holds no dynamic block.
proof fn lemma_base_dict_empty(t: Table)
    requires
        table_ok(t),
        band_of(t.spec_width().spec_bits() as nat) == Band::Base,
    ensures
        model_dict(t) == Map::<Seq<u8>, u32>::empty(),
{
    vstd::arithmetic::power2::lemma2_to64();
    assert(t.spec_blocks().len() == 0);
}

/// The bytes of one greedy step, and why no longer block was taken.
proof fn lemma_step_longest(t: Table, x: Seq<u8>)
    requires
        table_ok(t),
        x.len() > 0,
    ensures
        ({
            let (s, l) = step(t, x);
            let b = t.spec_width().spec_bits() as nat;
            &&& symbol_bytes(t, s) == x.take(l as int)
            &&& forall|k: int|
                l < k <= x.len() ==> !model_dict(t).contains_key(#[trigger] x.take(k))
            &&& l >= 2 ==> model_dict(t).contains_key(x.take(l as int)) && s == Symbol::Code(
                model_dict(t)[x.take(l as int)],
            )
            &&& band_of(b) == Band::Lower && model_dict(t).contains_key(x.take(l as int)) ==> s
                == Symbol::Code(model_dict(t)[x.take(l as int)])
        }),
{
    let b = t.spec_width().spec_bits() as nat;
    let (s, l) = step(t, x);
    let d = model_dict(t);
    lemma_step_facts(t, x);
    lemma_longest_known(d, x, x.len());
    vstd::arithmetic::power2::lemma2_to64();
    if b >= 8 {
        lemma_pow2_strictly_increases_or_eq(8, b);
    }
    assert(symbol_bytes(t, s) == x.take(l as int)) by {
        match s {
            Symbol::Code(c) => {
                if c < 256 && l == 1 && c == x[0] as u32 && band_of(b) != Band::Lower {
                    assert(x.take(1) =~= seq![x[0]]);
                    assert(seq![c as u8] =~= seq![x[0]]);
                }
            },
            Symbol::Escape(r) => {
                assert(x.take(1) =~= seq![x[0]]);
            },
        }
    }
    if band_of(b) == Band::Base {
        lemma_base_dict_empty(t);
    }
    assert forall|k: int| l < k <= x.len() implies !d.contains_key(#[trigger] x.take(k)) by {
        let kk = k as nat;
        assert(1 <= kk <= x.len());
    }
}

/// Greedy longest match: the `i`-th symbol of the tokens of `x` stands for
/// the bytes of `x` where it starts, and no block of the table longer than
/// it is a prefix of what is left of `x` there; a symbol of two bytes or
/// more, or any block that the lower band emits, carries the code that the
/// table gives that block.
pub proof fn lemma_tokens_longest(t: Table, x: Seq<u8>, i: int)
    requires
        table_ok(t),
        0 <= i < tokens(t, x).len(),
    ensures
        ({
            let ts = tokens(t, x);
            let p = expand(t, ts.take(i)).len();
            let blk = symbol_bytes(t, ts[i]);
            let b = t.spec_width().spec_bits() as nat;
            &&& p + blk.len() <= x.len()
            &&& x.subrange(p as int, (p + blk.len()) as int) == blk
            &&& forall|k: int|
                blk.len() < k <= x.len() - p ==> !model_dict(t).contains_key(
                    #[trigger] x.subrange(p as int, p + k),
                )
            &&& blk.len() >= 2 ==> model_dict(t).contains_key(blk) && ts[i] == Symbol::Code(
                model_dict(t)[blk],
            )
            &&& band_of(b) == Band::Lower && model_dict(t).contains_key(blk) ==> ts[i]
                == Symbol::Code(model_dict(t)[blk])
        }),
    decreases x.len(),
{
    let ts = tokens(t, x);
    let (s, l) = step(t, x);
    lemma_step_len(t, x);
    lemma_step_longest(t, x);
    let tail = x.skip(l as int);
    let rest = tokens(t, tail);
    assert(ts == seq![s] + rest);
    if i == 0 {
        assert(ts.take(0) =~= Seq::<Symbol>::empty());
        assert(ts[0] == s);
        assert(x.subrange(0, l as int) =~= x.take(l as int));
        assert forall|k: int|
            l < k <= x.len() implies !model_dict(t).contains_key(#[trigger] x.subrange(0, 0 + k)) by {
            assert(x.subrange(0, k) =~= x.take(k));
        }
    } else {
        lemma_tokens_longest(t, tail, i - 1);
        let pt = expand(t, rest.take(i - 1)).len();
        assert(ts.take(i) =~= seq![s] + rest.take(i - 1));
        assert((seq![s] + rest.take(i - 1)).skip(1) =~= rest.take(i - 1));
        assert((seq![s] + rest.take(i - 1))[0] == s);
        assert(expand(t, ts.take(i)) == symbol_bytes(t, s) + expand(t, rest.take(i - 1)));
        assert(ts[i] == rest[i - 1]);
        let p = l + pt;
        let blk = symbol_bytes(t, ts[i]);
        assert(x.subrange(p as int, (p + blk.len()) as int) =~= tail.subrange(pt as int, (pt + blk.len()) as int));
        assert forall|k: int|
            blk.len() < k <= x.len() - p implies !model_dict(t).contains_key(
                #[trigger] x.subrange(p as int, p + k),
            ) by {
            assert(x.subrange(p as int, p + k) =~= tail.subrange(pt as int, pt + k));
        }
    }
}

/// A block of the table that is the whole input is its one symbol (in the
/// higher band, a block of two bytes or more).
pub proof fn lemma_whole_block_is_one_symbol(t: Table, x: Seq<u8>)
    requires
        table_ok(t),
        model_dict(t).contains_key(x),
        x.len() >= 2 || (x.len() >= 1 && band_of(t.spec_width().spec_bits() as nat) == Band::Lower),
    ensures
        tokens(t, x) == seq![Symbol::Code(model_dict(t)[x])],
{
    let b = t.spec_width().spec_bits() as nat;
    if band_of(b) == Band::Base {
        lemma_base_dict_empty(t);
    }
    assert(x.take(x.len() as int) =~= x);
    assert(longest_known(model_dict(t), x, x.len()) == Some((model_dict(t)[x], x.len())));
    let (s, l) = step(t, x);
    assert(l == x.len());
    assert(x.skip(l as int) =~= Seq::<u8>::empty());
    assert(tokens(t, x.skip(l as int)) =~= Seq::<Symbol>::empty());
    assert(tokens(t, x) =~= seq![Symbol::Code(model_dict(t)[x])]);
}

/// One decoding step reads back the symbol of one greedy step.
proof fn lemma_decode_step(
    t: Table,
    x: Seq<u8>,
    after: Seq<bool>,
    k: nat,
    index: nat,
    declared: u64,
    out: Seq<u8>,
)
    requires
        table_ok(t),
        x.len() > 0,
    ensures
        decode_symbols(
            t,
            symbol_bits(step(t, x).0, t.spec_width().spec_bits() as nat) + after,
            k + 1,
            index,
            declared,
            out,
        ) == decode_symbols(t, after, k, index + 1, declared, out + x.take(step(t, x).1 as int)),
{
    let b = t.spec_width().spec_bits() as nat;
    let (s, l) = step(t, x);
    lemma_step_facts(t, x);
    vstd::arithmetic::power2::lemma2_to64();
    lemma_pow2_strictly_increases_or_eq(b, 32);
    let bits = symbol_bits(s, b) + after;
    match s {
        Symbol::Code(c) => {
            lemma_code_read(c, b, after);
            lemma_bits_of_len(c as nat, b);
            let code = nat_of(bits.take(b as int)) as u32;
            assert(code == c);
            assert(bits.skip(b as int) == after);
            assert(bits.len() >= b);
            if c < 256 && l == 1 && band_of(b) != Band::Lower {
                assert(x.take(1) =~= seq![x[0]]);
                assert((c as u8) == x[0]);
                assert(out.push(c as u8) =~= out + x.take(1));
            }
            let lhs = decode_symbols(t, bits, k + 1, index, declared, out);
            let rhs = decode_symbols(t, after, k, index + 1, declared, out + x.take(l as int));
            if band_of(b) == Band::Base {
                assert(c < 256);
                assert(lhs == decode_symbols(t, after, k, index + 1, declared, out.push(c as u8)));
                assert(l == 1);
                assert(out.push(c as u8) == out + x.take(l as int));
                assert(lhs == rhs);
            } else if band_of(b) == Band::Higher {
                if c >= 256 {
                    assert(block_of_spec(b, t.spec_blocks(), c as nat) == Some(x.take(l as int)));
                    assert(lhs == rhs);
                } else {
                    assert(lhs == decode_symbols(t, after, k, index + 1, declared, out.push(c as u8)));
                    assert(l == 1);
                    assert(out.push(c as u8) == out + x.take(l as int));
                    assert(lhs == rhs);
                }
            } else {
                assert(c != ESCAPE_CODE);
                assert(block_of_spec(b, t.spec_blocks(), c as nat) == Some(x.take(l as int)));
                assert(lhs == rhs);
            }
        },
        Symbol::Escape(raw) => {
            lemma_code_read(0, b, bits_of(raw as nat, 8) + after);
            lemma_bits_of_len(0, b);
            crate::bitseq::lemma_pow2_basics(8);
            lemma_code_read(raw as u32, 8, after);
            lemma_bits_of_len(raw as nat, 8);
            assert(bits =~= bits_of(0, b) + (bits_of(raw as nat, 8) + after));
            assert(x.take(1) =~= seq![x[0]]);
            assert(out.push(raw) =~= out + x.take(1));
            let lhs = decode_symbols(t, bits, k + 1, index, declared, out);
            let rhs = decode_symbols(t, after, k, index + 1, declared, out + x.take(l as int));
            let rest1 = bits.skip(b as int);
            assert(rest1 == bits_of(raw as nat, 8) + after);
            assert(rest1.len() >= 8);
            assert(rest1.take(8) == bits_of(raw as nat, 8));
            crate::bitseq::lemma_nat_of_bits_of(raw as nat, 8);
            vstd::arithmetic::div_mod::lemma_small_mod(raw as nat, pow2(8));
            assert(nat_of(rest1.take(8)) == raw as nat);
            assert(nat_of(rest1.take(8)) as u8 == raw);
            assert(rest1.skip(8) == after);
            assert(lhs == rhs);
        },
    }
}

/// Decoding the bits of the tokens of `x` gives `x` back and stops right
/// after them.
pub proof fn lemma_decode_tokens(
    t: Table,
    x: Seq<u8>,
    rest: Seq<bool>,
    index: nat,
    declared: u64,
    out: Seq<u8>,
)
    requires
        table_ok(t),
    ensures
        decode_symbols(
            t,
            symbols_bits(tokens(t, x), t.spec_width().spec_bits() as nat) + rest,
            tokens(t, x).len(),
            index,
            declared,
            out,
        ) == Ok::<(Seq<u8>, Seq<bool>), DecodeError>((out + x, rest)),
    decreases x.len(),
{
    let b = t.spec_width().spec_bits() as nat;
    if x.len() == 0 {
        assert(symbols_bits(tokens(t, x), b) + rest =~= rest);
        assert(out + x =~= out);
    } else {
        let (s, l) = step(t, x);
        lemma_step_len(t, x);
        let tail_x = x.skip(l as int);
        let rest_toks = tokens(t, tail_x);
        assert(tokens(t, x) == seq![s] + rest_toks);
        lemma_symbols_bits_prepend(s, rest_toks, b);
        let after = symbols_bits(rest_toks, b) + rest;
        assert(symbols_bits(tokens(t, x), b) + rest =~= symbol_bits(s, b) + after);
        lemma_decode_step(t, x, after, rest_toks.len(), index, declared, out);
        lemma_decode_tokens(t, tail_x, rest, index + 1, declared, out + x.take(l as int));
        assert(out + x.take(l as int) + tail_x =~= out + x);
    }
}

/// Decoding what [`Model::encode`] wrote, with the same table, gives back the input.
pub proof fn lemma_decode_encode(t: Table, input: Seq<u8>)
    requires
        t.inv(),
        input.len() <= u64::MAX,
    ensures
        decode_result(t, encoded_stream(t, input)) == Ok::<Seq<u8>, DecodeError>(input),
{
    let b = t.spec_width().spec_bits();
    let toks = tokens(t, input);
    let bits = symbols_bits(toks, b as nat);
    let p = payload_of(t, input);
    let crc = crc32_ieee(p);
    let src = encoded_stream(t, input);
    let id = t.spec_id();
    lemma_tokens_fit(t, input);
    lemma_symbols_bits_len(toks, b as nat);
    crate::hgr::lemma_be_roundtrip(toks.len(), 8);
    crate::hgr::lemma_be_roundtrip(input.len(), 8);
    crate::hgr::lemma_be_roundtrip(crc as nat, 4);
    vstd::arithmetic::power2::lemma2_to64();
    vstd::arithmetic::div_mod::lemma_small_mod(toks.len(), pow2(64));
    vstd::arithmetic::div_mod::lemma_small_mod(input.len(), pow2(64));
    vstd::arithmetic::div_mod::lemma_small_mod(crc as nat, pow2(32));
    let head = hgr_magic() + seq![HGR_VERSION, b, variant_wire(t.spec_variant()), 0u8] + id.take(8)
        + be(toks.len(), 8) + be(input.len(), 8) + be(crc as nat, 4);
    assert(head.len() == 36);
    assert(src =~= head + p);
    assert(src.take(4) =~= hgr_magic());
    assert(src[4] == HGR_VERSION);
    assert(src[5] == b);
    assert(src[6] == variant_wire(t.spec_variant()));
    assert(src[7] == 0);
    crate::model::lemma_variant_wire_roundtrip(t.spec_variant(), src[6]);
    assert(src.subrange(8, 16) =~= id.take(8));
    assert(src.subrange(16, 24) =~= be(toks.len(), 8));
    assert(src.subrange(24, 32) =~= be(input.len(), 8));
    assert(src.subrange(32, 36) =~= be(crc as nat, 4));
    assert(src.skip(HEADER_BYTES as int) =~= p);
    crate::bitseq::lemma_to_bytes(bits);
    crate::bitseq::lemma_bytes_bits_len(p);
    let pad = crate::bitseq::pad_bits(bits.len());
    assert(toks.len() * b <= 8 * p.len()) by (nonlinear_arith)
        requires
            bits.len() == toks.len() * b + 8 * escape_count(toks),
            p.len() == (bits.len() + 7) / 8,
    ;
    lemma_decode_tokens(t, input, zeros(pad), 0, toks.len() as u64, Seq::<u8>::empty());
    assert(Seq::<u8>::empty() + input =~= input);
    assert(zeros(pad).len() < 8);
    assert(zeros(pad) =~= zeros(zeros(pad).len()));
}

/// The bits of the tokens of `x` in the base band are the bits of its bytes.
proof fn lemma_base_tokens_bits(t: Table, x: Seq<u8>)
    requires
        t.spec_width().spec_bits() == 8,
    ensures
        symbols_bits(tokens(t, x), 8) == bytes_bits(x),
    decreases x.len(),
{
    if x.len() > 0 {
        let rest = x.skip(1);
        lemma_base_tokens_bits(t, rest);
        assert(tokens(t, x) == seq![Symbol::Code(x[0] as u32)] + tokens(t, rest));
        lemma_symbols_bits_prepend(Symbol::Code(x[0] as u32), tokens(t, rest), 8);
        assert(x =~= seq![x[0]] + rest);
        crate::bitseq::lemma_bytes_bits_append(seq![x[0]], rest);
        crate::bitseq::lemma_bytes_bits_single(x[0]);
    } else {
        assert(bytes_bits(x) =~= Seq::<bool>::empty());
    }
}

proof fn lemma_crc_shift_injective(p: u32, q: u32)
    requires
        crc_shift(p) == crc_shift(q),
    ensures
        p == q,
{
    assert(crc_shift(p) == crc_shift(q) ==> p == q) by (bit_vector);
}

proof fn lemma_crc_shift8_injective(p: u32, q: u32)
    requires
        crc_shift8(p) == crc_shift8(q),
    ensures
        p == q,
{
    let p1 = crc_shift(p);
    let q1 = crc_shift(q);
    let p2 = crc_shift(p1);
    let q2 = crc_shift(q1);
    let p3 = crc_shift(p2);
    let q3 = crc_shift(q2);
    let p4 = crc_shift(p3);
    let q4 = crc_shift(q3);
    let p5 = crc_shift(p4);
    let q5 = crc_shift(q4);
    let p6 = crc_shift(p5);
    let q6 = crc_shift(q5);
    let p7 = crc_shift(p6);
    let q7 = crc_shift(q6);
    lemma_crc_shift_injective(p7, q7);
    lemma_crc_shift_injective(p6, q6);
    lemma_crc_shift_injective(p5, q5);
    lemma_crc_shift_injective(p4, q4);
    lemma_crc_shift_injective(p3, q3);
    lemma_crc_shift_injective(p2, q2);
    lemma_crc_shift_injective(p1, q1);
    lemma_crc_shift_injective(p, q);
}

proof fn lemma_crc_byte_injective_state(p: u32, q: u32, x: u8)
    requires
        crc_byte(p, x) == crc_byte(q, x),
    ensures
        p == q,
{
    lemma_crc_shift8_injective(p ^ (x as u32), q ^ (x as u32));
    assert((p ^ (x as u32)) == (q ^ (x as u32)) ==> p == q) by (bit_vector);
}

proof fn lemma_crc_byte_injective_byte(c: u32, x: u8, y: u8)
    requires
        crc_byte(c, x) == crc_byte(c, y),
    ensures
        x == y,
{
    lemma_crc_shift8_injective(c ^ (x as u32), c ^ (y as u32));
    assert((c ^ (x as u32)) == (c ^ (y as u32)) ==> x == y) by (bit_vector);
}

proof fn lemma_crc_state_differs(a: Seq<u8>, c: Seq<u8>, x: u8, y: u8)
    requires
        x != y,
    ensures
        crc_state(a + seq![x] + c) != crc_state(a + seq![y] + c),
    decreases c.len(),
{
    let sx = a + seq![x] + c;
    let sy = a + seq![y] + c;
    if c.len() == 0 {
        assert(sx.drop_last() =~= a);
        assert(sy.drop_last() =~= a);
        assert(sx.last() == x);
        assert(sy.last() == y);
        if crc_state(sx) == crc_state(sy) {
            lemma_crc_byte_injective_byte(crc_state(a), x, y);
        }
    } else {
        lemma_crc_state_differs(a, c.drop_last(), x, y);
        assert(sx.drop_last() =~= a + seq![x] + c.drop_last());
        assert(sy.drop_last() =~= a + seq![y] + c.drop_last());
        assert(sx.last() == c.last());
        assert(sy.last() == c.last());
        if crc_state(sx) == crc_state(sy) {
            lemma_crc_byte_injective_state(crc_state(sx.drop_last()), crc_state(sy.drop_last()), c.last());
        }
    }
}

/// CRC-32 detects every change of a single byte, wherever it stands.
pub proof fn lemma_crc_detects_byte_change(a: Seq<u8>, c: Seq<u8>, x: u8, y: u8)
    requires
        x != y,
    ensures
        crc32_ieee(a + seq![x] + c) != crc32_ieee(a + seq![y] + c),
{
    lemma_crc_state_differs(a, c, x, y);
    let u = crc_state(a + seq![x] + c);
    let v = crc_state(a + seq![y] + c);
    assert(u != v ==> (u ^ 0xFFFF_FFFFu32) != (v ^ 0xFFFF_FFFFu32)) by (bit_vector);
}

/// The checks that decoding makes before the CRC pass on what
/// [`Model::encode`] wrote, and its CRC field holds the payload's CRC.
proof fn lemma_encoded_header(t: Table, input: Seq<u8>)
    requires
        t.inv(),
        input.len() <= u64::MAX,
    ensures
        ({
            let src = encoded_stream(t, input);
            let p = payload_of(t, input);
            &&& src.len() == HEADER_BYTES + p.len()
            &&& header_error(src) is None
            &&& src[7] == 0
            &&& src[5] == t.spec_width().spec_bits()
            &&& variant_from_wire(src[6]) == Some(t.spec_variant())
            &&& src.subrange(8, 16) == t.spec_id().take(8)
            &&& src.subrange(32, 36) == be(crc32_ieee(p) as nat, 4)
            &&& be_value(src.subrange(32, 36)) == crc32_ieee(p)
            &&& src.skip(HEADER_BYTES as int) == p
        }),
{
    let b = t.spec_width().spec_bits();
    let toks = tokens(t, input);
    let p = payload_of(t, input);
    let crc = crc32_ieee(p);
    let src = encoded_stream(t, input);
    let id = t.spec_id();
    lemma_tokens_fit(t, input);
    crate::hgr::lemma_be_roundtrip(toks.len(), 8);
    crate::hgr::lemma_be_roundtrip(input.len(), 8);
    crate::hgr::lemma_be_roundtrip(crc as nat, 4);
    vstd::arithmetic::power2::lemma2_to64();
    vstd::arithmetic::div_mod::lemma_small_mod(crc as nat, pow2(32));
    let head = hgr_magic() + seq![HGR_VERSION, b, variant_wire(t.spec_variant()), 0u8] + id.take(8)
        + be(toks.len(), 8) + be(input.len(), 8) + be(crc as nat, 4);
    assert(head.len() == 36);
    assert(src =~= head + p);
    assert(src.take(4) =~= hgr_magic());
    assert(src[4] == HGR_VERSION);
    assert(src[5] == b);
    assert(src[6] == variant_wire(t.spec_variant()));
    assert(src[7] == 0);
    crate::model::lemma_variant_wire_roundtrip(t.spec_variant(), src[6]);
    assert(src.subrange(8, 16) =~= id.take(8));
    assert(src.subrange(32, 36) =~= be(crc as nat, 4));
    assert(src.skip(HEADER_BYTES as int) =~= p);
}

/// A stream whose first 32 bytes are those of an encoded stream: decoding it
/// stops at the CRC check exactly when the CRC field does not hold the CRC of
/// its payload.
proof fn lemma_decode_reaches_crc(t: Table, input: Seq<u8>, src: Seq<u8>)
    requires
        t.inv(),
        input.len() <= u64::MAX,
        src.len() >= HEADER_BYTES,
        src.take(32) == encoded_stream(t, input).take(32),
        be_value(src.subrange(32, 36)) as u32 != crc32_ieee(src.skip(HEADER_BYTES as int)),
    ensures
        decode_result(t, src) == Err::<Seq<u8>, DecodeError>(
            DecodeError::CrcMismatch {
                expected: be_value(src.subrange(32, 36)) as u32,
                got: crc32_ieee(src.skip(HEADER_BYTES as int)),
            },
        ),
{
    let s = encoded_stream(t, input);
    lemma_encoded_header(t, input);
    assert forall|i: int| 0 <= i < 32 implies src[i] == s[i] by {
        assert(src.take(32)[i] == s.take(32)[i]);
    }
    assert(src.take(4) =~= s.take(4));
    assert(src.subrange(8, 16) =~= s.subrange(8, 16));
}

/// Decoding detects any change of one payload byte of what
/// [`Model::encode`] wrote: it answers `CrcMismatch`, with the CRC field and
/// the CRC of the changed payload, which differ.
pub proof fn lemma_decode_detects_payload_change(t: Table, input: Seq<u8>, i: int, v: u8)
    requires
        t.inv(),
        input.len() <= u64::MAX,
        HEADER_BYTES <= i < encoded_stream(t, input).len(),
        v != encoded_stream(t, input)[i],
    ensures
        ({
            let src = encoded_stream(t, input).update(i, v);
            let expected = be_value(src.subrange(32, 36)) as u32;
            let got = crc32_ieee(src.skip(HEADER_BYTES as int));
            &&& expected != got
            &&& decode_result(t, src) == Err::<Seq<u8>, DecodeError>(
                DecodeError::CrcMismatch { expected, got },
            )
        }),
{
    let s = encoded_stream(t, input);
    let src = s.update(i, v);
    let p = payload_of(t, input);
    lemma_encoded_header(t, input);
    let j = i - HEADER_BYTES;
    let a = p.take(j);
    let c = p.skip(j + 1);
    assert(p =~= a + seq![p[j]] + c);
    assert(src.skip(HEADER_BYTES as int) =~= a + seq![v] + c);
    assert(src.subrange(32, 36) =~= s.subrange(32, 36));
    assert(src.take(32) =~= s.take(32));
    assert(p[j] == s[i]);
    lemma_crc_detects_byte_change(a, c, p[j], v);
    vstd::arithmetic::power2::lemma2_to64();
    lemma_decode_reaches_crc(t, input, src);
}

/// Decoding detects any change of the CRC field of what [`Model::encode`]
/// wrote: it answers `CrcMismatch`, with the new field and the CRC of the
/// payload, which differ.
pub proof fn lemma_decode_detects_crc_field_change(t: Table, input: Seq<u8>, field: Seq<u8>)
    requires
        t.inv(),
        input.len() <= u64::MAX,
        field.len() == 4,
        field != encoded_stream(t, input).subrange(32, 36),
    ensures
        ({
            let s = encoded_stream(t, input);
            let src = s.take(32) + field + s.skip(HEADER_BYTES as int);
            let expected = be_value(field) as u32;
            let got = crc32_ieee(s.skip(HEADER_BYTES as int));
            &&& expected != got
            &&& decode_result(t, src) == Err::<Seq<u8>, DecodeError>(
                DecodeError::CrcMismatch { expected, got },
            )
        }),
{
    let s = encoded_stream(t, input);
    let p = payload_of(t, input);
    let src = s.take(32) + field + s.skip(HEADER_BYTES as int);
    lemma_encoded_header(t, input);
    crate::hgr::lemma_be_value_roundtrip(field);
    vstd::arithmetic::power2::lemma2_to64();
    assert(src.subrange(32, 36) =~= field);
    assert(src.skip(HEADER_BYTES as int) =~= p);
    assert(src.take(32) =~= s.take(32));
    if be_value(field) as u32 == crc32_ieee(p) {
        assert(be_value(field) == crc32_ieee(p) as nat);
        assert(field == be(crc32_ieee(p) as nat, 4));
    }
    lemma_decode_reaches_crc(t, input, src);
}

/// `base-8` is the identity: the payload of an input is the input itself,
/// whatever the variant and the training of the table.
pub proof fn lemma_base8_identity(t: Table, x: Seq<u8>)
    requires
        t.spec_width().spec_bits() == 8,
    ensures
        tokens(t, x).len() == x.len(),
        payload_of(t, x) == x,
    decreases x.len(),
{
    lemma_base_tokens_bits(t, x);
    crate::bitseq::lemma_bytes_bits_len(x);
    assert(bytes_bits(x) + zeros(crate::bitseq::pad_bits(bytes_bits(x).len())) =~= bytes_bits(x));
    crate::bitseq::lemma_to_bytes_unique(bytes_bits(x), x);
    if x.len() > 0 {
        lemma_base8_identity(t, x.skip(1));
        assert(tokens(t, x) == seq![Symbol::Code(x[0] as u32)] + tokens(t, x.skip(1)));
    }
}

/// Appends the bytes of `src` to `out`.
fn append_bytes(out: &mut Vec<u8>, src: &[u8])
    ensures
        final(out)@ == old(out)@ + src@,
{
    let ghost start = out@;
    let mut i: usize = 0;
    while i < src.len()
        invariant
            i <= src@.len(),
            out@ == start + src@.take(i as int),
        decreases src@.len() - i,
    {
        out.push(src[i]);
        proof {
            assert(src@.take(i + 1) =~= src@.take(i as int).push(src@[i as int]));
        }
        i = i + 1;
    }
    proof {
        assert(src@.take(src@.len() as int) =~= src@);
    }
}

/// How many ESCAPE symbols `ss` holds.
fn count_escapes(ss: &Vec<Symbol>) -> (r: u64)
    ensures
        r == escape_count(ss@),
{
    let mut n: u64 = 0;
    let mut k: usize = 0;
    proof {
        assert(ss@.take(0) =~= Seq::<Symbol>::empty());
    }
    while k < ss.len()
        invariant
            k <= ss@.len(),
            n as nat == escape_count(ss@.take(k as int)),
            n <= k,
        decreases ss@.len() - k,
    {
        proof {
            assert(ss@.take(k + 1).drop_last() =~= ss@.take(k as int));
        }
        match ss[k] {
            Symbol::Escape(_) => {
                n = n + 1;
            },
            Symbol::Code(_) => {},
        }
        k = k + 1;
    }
    proof {
        assert(ss@.take(ss@.len() as int) =~= ss@);
    }
    n
}

/// Writes one symbol: its code in `w`, then, for an ESCAPE, the raw byte in 8 bits.
fn push_symbol(bw: &mut BitWriter, s: Symbol, w: Width) -> (r: Result<(), PackError>)
    requires
        old(bw).wf(),
        (code_of(s) as nat) < pow2(w.spec_bits() as nat),
        old(bw)@.len() + symbol_bits(s, w.spec_bits() as nat).len() <= u64::MAX,
    ensures
        r is Ok,
        final(bw).wf(),
        final(bw)@ == old(bw)@ + symbol_bits(s, w.spec_bits() as nat),
{
    let ghost b = w.spec_bits() as nat;
    proof {
        lemma_bits_of_len(code_of(s) as nat, b);
        vstd::arithmetic::power2::lemma2_to64();
    }
    match s {
        Symbol::Code(c) => bw.push(c, w),
        Symbol::Escape(raw) => {
            let ghost before = bw@;
            match bw.push(ESCAPE_CODE, w) {
                Ok(()) => {},
                Err(e) => {
                    return Err(e);
                },
            }
            proof {
                lemma_bits_of_len(raw as nat, 8);
            }
            let r = bw.push(raw as u32, Width::base());
            proof {
                assert(bw@ =~= before + (bits_of(ESCAPE_CODE as nat, b) + bits_of(raw as nat, 8)));
            }
            r
        },
    }
}

/// Packs the symbols: in one go through the width's strategy when there is
/// no ESCAPE, symbol by symbol otherwise.
fn pack_symbols(ss: &Vec<Symbol>, w: Width, n_escapes: u64) -> (r: Result<Vec<u8>, PackError>)
    requires
        n_escapes == escape_count(ss@),
        ss@.len() * w.spec_bits() + 8 * escape_count(ss@) <= usize::MAX,
        forall|i: int| 0 <= i < ss@.len() ==> (code_of(#[trigger] ss@[i]) as nat) < pow2(w.spec_bits() as nat),
    ensures
        r matches Ok(p) && p@ == to_bytes(symbols_bits(ss@, w.spec_bits() as nat)),
{
    let ghost b = w.spec_bits() as nat;
    let mut bw = BitWriter::with_capacity_for(ss.len(), w);
    if n_escapes == 0 {
        let mut codigos: Vec<u32> = Vec::new();
        let mut j: usize = 0;
        while j < ss.len()
            invariant
                j <= ss@.len(),
                codigos@ == ss@.take(j as int).map_values(|s: Symbol| code_of(s)),
            decreases ss@.len() - j,
        {
            let c = match ss[j] {
                Symbol::Code(c) => c,
                Symbol::Escape(_) => ESCAPE_CODE,
            };
            codigos.push(c);
            proof {
                assert(ss@.take(j + 1).map_values(|s: Symbol| code_of(s)) =~= ss@.take(
                    j as int,
                ).map_values(|s: Symbol| code_of(s)).push(c));
            }
            j = j + 1;
        }
        proof {
            assert(ss@.take(ss@.len() as int) =~= ss@);
            lemma_symbols_stream(ss@, b);
            lemma_first_too_wide(codigos@, b);
            if first_too_wide(codigos@, b) is Some {
                let i = first_too_wide(codigos@, b)->0;
                assert(codigos@[i] == code_of(ss@[i]));
            }
        }
        match bw.push_all(codigos.as_slice(), w) {
            Ok(()) => {},
            Err(e) => {
                return Err(e);
            },
        }
    } else {
        let mut j: usize = 0;
        proof {
            assert(ss@.take(0) =~= Seq::<Symbol>::empty());
            lemma_symbols_bits_len(ss@, b);
        }
        while j < ss.len()
            invariant
                j <= ss@.len(),
                b == w.spec_bits(),
                ss@.len() * b + 8 * escape_count(ss@) <= usize::MAX,
                forall|i: int| 0 <= i < ss@.len() ==> (code_of(#[trigger] ss@[i]) as nat) < pow2(b),
                bw.wf(),
                bw@ == symbols_bits(ss@.take(j as int), b),
            decreases ss@.len() - j,
        {
            proof {
                assert(ss@.take(j + 1).drop_last() =~= ss@.take(j as int));
                lemma_symbols_bits_len(ss@.take(j + 1), b);
                lemma_escape_count_prefix(ss@, j + 1);
                assert((j + 1) * b <= ss@.len() * b) by (nonlinear_arith)
                    requires
                        j + 1 <= ss@.len(),
                ;
                assert(ss@[j as int] == ss@.take(j + 1).last());
            }
            match push_symbol(&mut bw, ss[j], w) {
                Ok(()) => {},
                Err(e) => {
                    return Err(e);
                },
            }
            j = j + 1;
        }
        proof {
            assert(ss@.take(ss@.len() as int) =~= ss@);
        }
    }
    Ok(bw.finish())
}

/// `true` when two 8-byte arrays hold the same bytes.
fn same8(a: &[u8; 8], c: &[u8; 8]) -> (r: bool)
    ensures
        r == (a@ == c@),
{
    let mut i: usize = 0;
    while i < 8
        invariant
            i <= 8,
            forall|k: int| 0 <= k < i ==> a@[k] == c@[k],
        decreases 8 - i,
    {
        if a[i] != c[i] {
            return false;
        }
        i = i + 1;
    }
    proof {
        assert(a@ =~= c@);
    }
    true
}

/// Parametric model: a width, a variant and a table.
pub struct Model {
    table: Table,
}

impl Clone for Model {
    /// A model over a copy of the table: same width, variant, blocks and id.
    fn clone(&self) -> (r: Self)
        ensures
            r.spec_table().spec_width() == self.spec_table().spec_width(),
            r.spec_table().spec_variant() == self.spec_table().spec_variant(),
            r.spec_table().spec_blocks() == self.spec_table().spec_blocks(),
            r.spec_table().spec_train_sha256() == self.spec_table().spec_train_sha256(),
            r.spec_table().spec_id() == self.spec_table().spec_id(),
    {
        Model { table: self.table.clone() }
    }
}

impl Model {
    /// The table of the model.
    pub closed spec fn spec_table(self) -> Table {
        self.table
    }

    /// Model over a table.
    pub fn new(table: Table) -> (r: Model)
        ensures
            r.spec_table() == table,
    {
        Model { table }
    }

    /// The yardstick: `base-8`, byte-for-byte identity.
    pub fn base8() -> (r: Model)
        ensures
            r.spec_table().spec_width().spec_bits() == 8,
            r.spec_table().spec_variant() == Variant::M0,
            r.spec_table().spec_blocks() == Seq::<Seq<u8>>::empty(),
    {
        Model::new(Table::legacy_only(Width::base(), Variant::M0))
    }

    /// Width of the model.
    pub fn width(&self) -> (r: Width)
        ensures
            r == self.spec_table().spec_width(),
    {
        self.table.width()
    }

    /// Variant of the model.
    pub fn variant(&self) -> (r: Variant)
        ensures
            r == self.spec_table().spec_variant(),
    {
        self.table.variant()
    }

    /// The table of the model.
    pub fn table(&self) -> (r: &Table)
        ensures
            *r == self.spec_table(),
    {
        &self.table
    }

    /// Run name: `higher-14:M2`, `base-8`.
    pub fn run_name(&self) -> (r: String)
        ensures
            r@ == crate::model::run_name_of(
                self.spec_table().spec_width().spec_bits() as nat,
                self.spec_table().spec_variant(),
            ),
    {
        self.width().run_name(self.variant())
    }

    /// The greedy step at position `i` of `input`.
    fn step_at(&self, input: &[u8], i: usize) -> (r: (Symbol, usize))
        requires
            i < input@.len(),
        ensures
            r.0 == step(self.spec_table(), input@.skip(i as int)).0,
            r.1 as nat == step(self.spec_table(), input@.skip(i as int)).1,
    {
        let n = input.len();
        let rest = &input[i..n];
        let ghost t = self.spec_table();
        proof {
            assert(rest@ =~= input@.skip(i as int));
            lemma_step_len(t, rest@);
        }
        match self.width().band() {
            Band::Base => (Symbol::Code(input[i] as u32), 1),
            Band::Higher => match self.table.longest_match(rest) {
                Some((code, len)) => {
                    if len >= 2 {
                        (Symbol::Code(code), len)
                    } else {
                        (Symbol::Code(input[i] as u32), 1)
                    }
                },
                None => (Symbol::Code(input[i] as u32), 1),
            },
            Band::Lower => match self.table.longest_match(rest) {
                Some((code, len)) => (Symbol::Code(code), len),
                None => (Symbol::Escape(input[i]), 1),
            },
        }
    }

    /// Tokenises `input` into symbols without packing them; each ESCAPE
    /// carries the raw byte that follows it.
    pub fn tokenize(&self, input: &[u8]) -> (r: Vec<Symbol>)
        ensures
            r@ == tokens(self.spec_table(), input@),
    {
        let ghost t = self.spec_table();
        let mut out: Vec<Symbol> = Vec::new();
        let mut i: usize = 0;
        let n = input.len();
        proof {
            assert(input@.skip(0) =~= input@);
        }
        while i < n
            invariant
                n == input@.len(),
                i <= n,
                t == self.spec_table(),
                out@ + tokens(t, input@.skip(i as int)) == tokens(t, input@),
            decreases n - i,
        {
            let (s, len) = self.step_at(input, i);
            proof {
                let rest = input@.skip(i as int);
                lemma_step_len(t, rest);
                assert(rest.skip(len as int) =~= input@.skip(i + len));
                assert(tokens(t, rest) == seq![s] + tokens(t, input@.skip(i + len)));
                assert(out@.push(s) + tokens(t, input@.skip(i + len)) =~= out@ + tokens(t, rest));
            }
            out.push(s);
            i = i + len;
        }
        proof {
            assert(input@.skip(n as int) =~= Seq::<u8>::empty());
            assert(out@ + Seq::<Symbol>::empty() =~= out@);
        }
        out
    }

    /// Encodes `input` into a whole `.hgr` stream, with its statistics.
    pub fn encode(&self, input: &[u8]) -> (r: Result<(Vec<u8>, EncodeStats), EncodeError>)
        requires
            input@.len() * 40 <= usize::MAX,
        ensures
            r matches Ok((out, stats)) && out@ == encoded_stream(self.spec_table(), input@) && stats
                == (EncodeStats {
                input_bytes: input@.len() as u64,
                n_symbols: tokens(self.spec_table(), input@).len() as u64,
                n_escapes: escape_count(tokens(self.spec_table(), input@)) as u64,
                encoded_bytes: (HEADER_BYTES + payload_of(self.spec_table(), input@).len()) as u64,
                header_bytes: HEADER_BYTES as u64,
            }),
    {
        let ghost t = self.spec_table();
        proof {
            use_type_invariant(&self.table);
        }
        let width = self.width();
        let ghost b = width.spec_bits() as nat;
        let simbolos = self.tokenize(input);
        let ghost toks = simbolos@;
        proof {
            lemma_tokens_fit(t, input@);
            lemma_symbols_bits_len(toks, b);
            assert(toks.len() * b + 8 * escape_count(toks) <= input@.len() * 40) by (nonlinear_arith)
                requires
                    toks.len() <= input@.len(),
                    escape_count(toks) <= toks.len(),
                    b <= 32,
            ;
        }
        let n_symbols = simbolos.len() as u64;
        let n_escapes = count_escapes(&simbolos);
        let payload = match pack_symbols(&simbolos, width, n_escapes) {
            Ok(p) => p,
            Err(e) => {
                return Err(EncodeError::Packing(e));
            },
        };
        let crc = crc32(payload.as_slice());
        let header = Header {
            width,
            variant: self.variant(),
            flags: 0,
            table_id: self.table.id8(),
            n_symbols,
            n_input_bytes: input.len() as u64,
            crc32_payload: crc,
        };
        let cab = header.to_bytes();
        let mut out: Vec<u8> = Vec::new();
        append_bytes(&mut out, &cab);
        append_bytes(&mut out, payload.as_slice());
        proof {
            assert(header_bytes(header) =~= hgr_magic() + seq![
                HGR_VERSION,
                t.spec_width().spec_bits(),
                variant_wire(t.spec_variant()),
                0u8,
            ] + t.spec_id().take(8) + be(toks.len(), 8) + be(input@.len(), 8) + be(
                crc32_ieee(payload@) as nat,
                4,
            ));
            assert(out@ =~= encoded_stream(t, input@));
        }
        let stats = EncodeStats {
            input_bytes: input.len() as u64,
            n_symbols,
            n_escapes,
            encoded_bytes: out.len() as u64,
            header_bytes: HEADER_BYTES as u64,
        };
        Ok((out, stats))
    }

    /// Decodes `n` symbols from `br`, appending their bytes.
    fn read_symbols(&self, br: &mut BitReader, n: u64) -> (r: Result<Vec<u8>, DecodeError>)
        requires
            old(br).wf(),
        ensures
            final(br).wf(),
            final(br).source() == old(br).source(),
            match r {
                Ok(out) => decode_symbols(self.spec_table(), old(br)@, n as nat, 0, n, Seq::<u8>::empty())
                    == Ok::<(Seq<u8>, Seq<bool>), DecodeError>((out@, final(br)@)),
                Err(e) => decode_symbols(self.spec_table(), old(br)@, n as nat, 0, n, Seq::<u8>::empty())
                    == Err::<(Seq<u8>, Seq<bool>), DecodeError>(e),
            },
    {
        let ghost t = self.spec_table();
        let width = self.width();
        let ghost b = width.spec_bits() as nat;
        let band = width.band();
        let mut out: Vec<u8> = Vec::new();
        let mut index: u64 = 0;
        while index < n
            invariant
                br.wf(),
                br.source() == old(br).source(),
                index <= n,
                t == self.spec_table(),
                width == t.spec_width(),
                b == width.spec_bits(),
                band == band_of(b),
                decode_symbols(t, old(br)@, n as nat, 0, n, Seq::<u8>::empty()) == decode_symbols(
                    t,
                    br@,
                    (n - index) as nat,
                    index as nat,
                    n,
                    out@,
                ),
            decreases n - index,
        {
            let ghost bits = br@;
            let code = match br.read(width) {
                Some(c) => c,
                None => {
                    return Err(DecodeError::Truncated { declared: n, available: index });
                },
            };
            match band {
                Band::Base => {
                    if code < 256 {
                        out.push(code as u8);
                    } else {
                        return Err(DecodeError::UnknownCode { code, index });
                    }
                },
                Band::Higher => {
                    if code < 256 {
                        out.push(code as u8);
                    } else {
                        match self.table.block_of(code) {
                            Some(bloco) => append_bytes(&mut out, bloco),
                            None => {
                                return Err(DecodeError::UnknownCode { code, index });
                            },
                        }
                    }
                },
                Band::Lower => {
                    if code == ESCAPE_CODE {
                        let ghost rest = br@;
                        let raw = match br.read(Width::base()) {
                            Some(r) => r,
                            None => {
                                return Err(DecodeError::Truncated { declared: n, available: index });
                            },
                        };
                        proof {
                            crate::bitseq::lemma_bits_of_nat_of(rest.take(8));
                            vstd::arithmetic::power2::lemma2_to64();
                        }
                        out.push(raw as u8);
                    } else {
                        match self.table.block_of(code) {
                            Some(bloco) => append_bytes(&mut out, bloco),
                            None => {
                                return Err(DecodeError::UnknownCode { code, index });
                            },
                        }
                    }
                },
            }
            index = index + 1;
        }
        Ok(out)
    }

    /// Decodes a `.hgr` stream with this table, checking in this order:
    /// header, flags, width, variant, `table_id`, payload CRC, enough bits,
    /// each code, zero completion and the number of bytes produced.
    pub fn decode(&self, stream: &[u8]) -> (r: Result<Vec<u8>, DecodeError>)
        requires
            stream@.len() * 8 <= u64::MAX,
        ensures
            match r {
                Ok(out) => decode_result(self.spec_table(), stream@) == Ok::<Seq<u8>, DecodeError>(out@),
                Err(e) => decode_result(self.spec_table(), stream@) == Err::<Seq<u8>, DecodeError>(e),
            },
    {
        let ghost t = self.spec_table();
        proof {
            use_type_invariant(&self.table);
        }
        let header = match Header::from_bytes(stream) {
            Ok(h) => h,
            Err(e) => {
                return Err(DecodeError::Header(e));
            },
        };
        if header.flags != 0 {
            return Err(DecodeError::UnsupportedFlags { flags: header.flags });
        }
        let width = self.width();
        if header.width.bits() != width.bits() {
            return Err(DecodeError::WidthMismatch { expected: header.width.bits(), got: width.bits() });
        }
        if header.variant.to_wire() != self.variant().to_wire() {
            proof {
                crate::model::lemma_variant_wire_roundtrip(header.variant, stream@[6]);
                crate::model::lemma_variant_wire_roundtrip(t.spec_variant(), stream@[6]);
            }
            return Err(
                DecodeError::VariantMismatch {
                    expected: header.variant.to_wire(),
                    got: self.variant().to_wire(),
                },
            );
        }
        proof {
            crate::model::lemma_variant_wire_roundtrip(header.variant, stream@[6]);
            crate::model::lemma_variant_wire_roundtrip(t.spec_variant(), stream@[6]);
        }
        let id8 = self.table.id8();
        if !same8(&header.table_id, &id8) {
            proof {
                assert(header.table_id =~= [
                    stream@[8],
                    stream@[9],
                    stream@[10],
                    stream@[11],
                    stream@[12],
                    stream@[13],
                    stream@[14],
                    stream@[15],
                ]);
                let id = t.spec_id();
                assert(id8 =~= [id[0], id[1], id[2], id[3], id[4], id[5], id[6], id[7]]);
            }
            return Err(DecodeError::TableMismatch { expected: header.table_id, got: id8 });
        }
        let n = stream.len();
        let payload = &stream[HEADER_BYTES..n];
        proof {
            assert(payload@ =~= stream@.skip(HEADER_BYTES as int));
        }
        let calculado = crc32(payload);
        if calculado != header.crc32_payload {
            return Err(DecodeError::CrcMismatch { expected: header.crc32_payload, got: calculado });
        }
        let bits_total = payload.len() as u64 * 8;
        let bits_por_simbolo = width.bits() as u64;
        let excede = match header.n_symbols.checked_mul(bits_por_simbolo) {
            Some(p) => p > bits_total,
            None => true,
        };
        if excede {
            return Err(
                DecodeError::Truncated {
                    declared: header.n_symbols,
                    available: bits_total / bits_por_simbolo,
                },
            );
        }
        let mut br = BitReader::new(payload);
        let out = match self.read_symbols(&mut br, header.n_symbols) {
            Ok(o) => o,
            Err(e) => {
                return Err(e);
            },
        };
        if br.bits_remaining() >= 8 || !br.remaining_is_zero() {
            return Err(DecodeError::PaddingNotZero);
        }
        if out.len() as u64 != header.n_input_bytes {
            return Err(
                DecodeError::LengthMismatch { declared: header.n_input_bytes, got: out.len() as u64 },
            );
        }
        Ok(out)
    }
}

} // verus!
