//! Header of the `.hgr` stream: 36 fixed big-endian bytes.
//!
//! ```text
//! offset  field            type      note
//! 0       magic            4 bytes   "HGR1"
//! 4       version          u8        format = 1
//! 5       b                u8        1..32
//! 6       variant          u8        0=M0 1=M1 2=M2 4=M4
//! 7       flags            u8        bit0 = adaptive block, bit1 = sync markers
//! 8       table_id         [u8; 8]   first 8 bytes of the table's sha256
//! 16      n_symbols        u64
//! 24      n_input_bytes    u64
//! 32      crc32_payload    u32
//! ```

use vstd::prelude::*;
use vstd::arithmetic::power2::pow2;
use crate::bitseq::{
    bits_of, bytes_bits, nat_of, to_bytes, lemma_bits_of_len, lemma_bits_of_nat_of,
    lemma_bytes_bits_len, lemma_bytes_bits_push, lemma_nat_of_append, lemma_nat_of_bits_of,
    lemma_pow2_basics, lemma_to_bytes, lemma_to_bytes_unique, lemma_bytes_bits_append,
};
use crate::model::{Variant, Width, variant_from_wire, variant_wire};

verus! {

/// Version of the format that this crate writes and reads.
pub const HGR_VERSION: u8 = 1;

/// Fixed size of the header, in bytes.
pub const HEADER_BYTES: usize = 36;

/// `flags` bit 0: an adaptive block comes before the payload.
pub const FLAG_ADAPTIVE: u8 = 1;

/// `flags` bit 1: the payload holds sync markers.
pub const FLAG_SYNC_MARKERS: u8 = 2;

/// The magic of the stream, `HGR1`.
pub open spec fn hgr_magic() -> Seq<u8> {
    seq![72u8, 71u8, 82u8, 49u8]
}

/// The magic of the stream, `HGR1`.
pub fn hgr_magic_bytes() -> (r: [u8; 4])
    ensures
        r@ == hgr_magic(),
{
    let r: [u8; 4] = [72, 71, 82, 49];
    assert(r@ =~= hgr_magic());
    r
}

/// `x` written big-endian in `k` bytes.
pub open spec fn be(x: nat, k: nat) -> Seq<u8> {
    to_bytes(bits_of(x, 8 * k))
}

/// The number that big-endian bytes write.
pub open spec fn be_value(s: Seq<u8>) -> nat {
    nat_of(bytes_bits(s))
}

/// Big-endian bytes read back as a number.
pub proof fn lemma_be_roundtrip(x: nat, k: nat)
    ensures
        be(x, k).len() == k,
        be_value(be(x, k)) == x % pow2(8 * k),
{
    lemma_to_bytes(bits_of(x, 8 * k));
    lemma_bits_of_len(x, 8 * k);
    assert(bits_of(x, 8 * k) + crate::bitseq::zeros(crate::bitseq::pad_bits(8 * k)) =~= bits_of(
        x,
        8 * k,
    ));
    lemma_nat_of_bits_of(x, 8 * k);
}

/// A number read from big-endian bytes writes them back.
pub proof fn lemma_be_value_roundtrip(s: Seq<u8>)
    ensures
        be(be_value(s), s.len()) == s,
        be_value(s) < pow2(8 * s.len()),
{
    lemma_bytes_bits_len(s);
    lemma_bits_of_nat_of(bytes_bits(s));
    assert(bytes_bits(s) + crate::bitseq::zeros(crate::bitseq::pad_bits(8 * s.len())) =~= bytes_bits(
        s,
    ));
    lemma_to_bytes_unique(bytes_bits(s), s);
}

/// Decoded header.
#[derive(Debug, Clone, Copy, PartialEq, Eq)]
pub struct Header {
    /// Symbol width.
    pub width: Width,
    /// Table variant.
    pub variant: Variant,
    /// Flag bits.
    pub flags: u8,
    /// First 8 bytes of the sha256 of the table in use.
    pub table_id: [u8; 8],
    /// Symbols in the payload; in the lower band an escape counts as one.
    pub n_symbols: u64,
    /// Bytes of the input, before encoding.
    pub n_input_bytes: u64,
    /// CRC-32 (IEEE) of the packed payload.
    pub crc32_payload: u32,
}

/// Error while reading a `.hgr` header.
#[derive(Debug, Clone, Copy, PartialEq, Eq)]
#[allow(inconsistent_fields)]
pub enum HeaderError {
    /// The stream is shorter than the 36 bytes of the header.
    TooShort {
        /// Bytes received.
        got: usize,
    },
    /// The first 4 bytes are not `HGR1`.
    BadMagic {
        /// What came instead.
        got: [u8; 4],
    },
    /// Unknown format version.
    BadVersion {
        /// The version read.
        got: u8,
    },
    /// Width outside `1..=32`.
    BadWidth {
        /// The width read.
        got: u8,
    },
    /// Variant byte outside `{0, 1, 2, 4}`.
    BadVariant {
        /// The byte read.
        got: u8,
    },
}

/// The 36 bytes of a header.
pub open spec fn header_bytes(h: Header) -> Seq<u8> {
    hgr_magic() + seq![HGR_VERSION, h.width.spec_bits(), variant_wire(h.variant), h.flags]
        + h.table_id@ + be(h.n_symbols as nat, 8) + be(h.n_input_bytes as nat, 8) + be(
        h.crc32_payload as nat,
        4,
    )
}

/// The error that reading a header from `src` gives, if any, in the order of the checks.
pub open spec fn header_error(src: Seq<u8>) -> Option<HeaderError> {
    if src.len() < 36 {
        Some(HeaderError::TooShort { got: src.len() as usize })
    } else if src.take(4) != hgr_magic() {
        Some(HeaderError::BadMagic { got: [src[0], src[1], src[2], src[3]] })
    } else if src[4] != HGR_VERSION {
        Some(HeaderError::BadVersion { got: src[4] })
    } else if !(1 <= src[5] <= 32) {
        Some(HeaderError::BadWidth { got: src[5] })
    } else if variant_from_wire(src[6]) is None {
        Some(HeaderError::BadVariant { got: src[6] })
    } else {
        None
    }
}

/// `h` is the header that the first 36 bytes of `src` hold.
pub open spec fn header_read(src: Seq<u8>, h: Header) -> bool {
    &&& h.width.spec_bits() == src[5]
    &&& variant_from_wire(src[6]) == Some(h.variant)
    &&& h.flags == src[7]
    &&& h.table_id@ == src.subrange(8, 16)
    &&& h.n_symbols as nat == be_value(src.subrange(16, 24))
    &&& h.n_input_bytes as nat == be_value(src.subrange(24, 32))
    &&& h.crc32_payload as nat == be_value(src.subrange(32, 36))
}

/// Appends `x` big-endian in `k` bytes.
pub(crate) fn push_be(out: &mut Vec<u8>, x: u64, k: u32)
    requires
        1 <= k <= 8,
    ensures
        final(out)@ == old(out)@ + be(x as nat, k as nat),
{
    let ghost before = out@;
    let p = crate::packing::drain(out, x, 8 * k);
    proof {
        assert(bits_of(x as nat, 0) =~= Seq::<bool>::empty());
        let suffix = out@.skip(before.len() as int);
        assert(out@ =~= before + suffix);
        lemma_bytes_bits_append(before, suffix);
        lemma_bytes_bits_len(before);
        assert(bytes_bits(out@) == bytes_bits(before) + bits_of(x as nat, (8 * k) as nat));
        assert(bytes_bits(suffix) =~= bytes_bits(out@).skip(bytes_bits(before).len() as int));
        assert(bytes_bits(suffix) =~= bits_of(x as nat, (8 * k) as nat));
        lemma_bits_of_len(x as nat, (8 * k) as nat);
        assert(bits_of(x as nat, (8 * k) as nat) + crate::bitseq::zeros(crate::bitseq::pad_bits(
            (8 * k) as nat,
        )) =~= bits_of(x as nat, (8 * k) as nat));
        lemma_to_bytes_unique(bits_of(x as nat, (8 * k) as nat), suffix);
    }
}

/// Reads `k` big-endian bytes of `src` from `start`.
pub(crate) fn read_be(src: &[u8], start: usize, k: usize) -> (r: u64)
    requires
        1 <= k <= 8,
        start + k <= src@.len(),
    ensures
        r as nat == be_value(src@.subrange(start as int, (start + k) as int)),
{
    let mut v: u64 = 0;
    let mut j: usize = 0;
    let n = src.len();
    proof {
        lemma_pow2_basics(0);
        assert(src@.subrange(start as int, start as int) =~= Seq::<u8>::empty());
    }
    while j < k
        invariant
            1 <= k <= 8,
            n == src@.len(),
            start + k <= src@.len(),
            j <= k,
            v as nat == be_value(src@.subrange(start as int, (start + j) as int)),
            (v as nat) < pow2((8 * j) as nat),
        decreases k - j,
    {
        let byte = src[start + j];
        let ghost s = src@.subrange(start as int, (start + j) as int);
        proof {
            lemma_pow2_basics((8 * j) as nat);
            lemma_pow2_basics(8);
            vstd::arithmetic::power2::lemma_pow2_adds((8 * j) as nat, 8);
            crate::bitseq::lemma_pow2_strictly_increases_or_eq((8 * j + 8) as nat, 64);
            vstd::arithmetic::power2::lemma2_to64();
            assert(src@.subrange(start as int, (start + j + 1) as int) =~= s.push(byte));
            lemma_bytes_bits_push(s, byte);
            lemma_nat_of_append(bytes_bits(s), bits_of(byte as nat, 8));
            lemma_bits_of_len(byte as nat, 8);
            lemma_nat_of_bits_of(byte as nat, 8);
            vstd::arithmetic::div_mod::lemma_small_mod(byte as nat, 256);
            assert((v as nat) * 256 + (byte as nat) < pow2((8 * j + 8) as nat)) by (nonlinear_arith)
                requires
                    (v as nat) < pow2((8 * j) as nat),
                    byte < 256,
                    pow2((8 * j + 8) as nat) == pow2((8 * j) as nat) * 256,
            ;
        }
        v = v * 256 + byte as u64;
        j = j + 1;
    }
    v
}

impl Header {
    /// Writes the header in its 36 bytes.
    pub fn to_bytes(&self) -> (r: [u8; 36])
        ensures
            r@ == header_bytes(*self),
    {
        let mut v: Vec<u8> = Vec::new();
        let magic = hgr_magic_bytes();
        v.push(magic[0]);
        v.push(magic[1]);
        v.push(magic[2]);
        v.push(magic[3]);
        v.push(HGR_VERSION);
        v.push(self.width.bits());
        v.push(self.variant.to_wire());
        v.push(self.flags);
        let mut i: usize = 0;
        while i < 8
            invariant
                i <= 8,
                v@ == hgr_magic() + seq![
                    HGR_VERSION,
                    self.width.spec_bits(),
                    variant_wire(self.variant),
                    self.flags,
                ] + self.table_id@.take(i as int),
            decreases 8 - i,
        {
            v.push(self.table_id[i]);
            proof {
                assert(self.table_id@.take(i + 1) =~= self.table_id@.take(i as int).push(
                    self.table_id@[i as int],
                ));
            }
            i = i + 1;
        }
        proof {
            assert(self.table_id@.take(8) =~= self.table_id@);
        }
        push_be(&mut v, self.n_symbols, 8);
        push_be(&mut v, self.n_input_bytes, 8);
        push_be(&mut v, self.crc32_payload as u64, 4);
        proof {
            lemma_be_roundtrip(self.n_symbols as nat, 8);
            lemma_be_roundtrip(self.n_input_bytes as nat, 8);
            lemma_be_roundtrip(self.crc32_payload as nat, 4);
            assert(v@.len() == 36);
        }
        let mut out: [u8; 36] = [0u8; 36];
        let mut j: usize = 0;
        while j < 36
            invariant
                j <= 36,
                v@.len() == 36,
                forall|t: int| 0 <= t < j ==> out@[t] == v@[t],
            decreases 36 - j,
        {
            out[j] = v[j];
            j = j + 1;
        }
        proof {
            assert(out@ =~= v@);
        }
        out
    }

    /// Reads the header from the first 36 bytes of `src`; the bytes after
    /// them are not looked at.
    pub fn from_bytes(src: &[u8]) -> (r: Result<Header, HeaderError>)
        ensures
            match r {
                Ok(h) => header_error(src@) is None && header_read(src@, h),
                Err(e) => header_error(src@) == Some(e),
            },
    {
        if src.len() < HEADER_BYTES {
            return Err(HeaderError::TooShort { got: src.len() });
        }
        let magic = hgr_magic_bytes();
        if src[0] != magic[0] || src[1] != magic[1] || src[2] != magic[2] || src[3] != magic[3] {
            let got: [u8; 4] = [src[0], src[1], src[2], src[3]];
            proof {
                if src@.take(4) == hgr_magic() {
                    assert(src@[0] == src@.take(4)[0]);
                    assert(src@[1] == src@.take(4)[1]);
                    assert(src@[2] == src@.take(4)[2]);
                    assert(src@[3] == src@.take(4)[3]);
                }
            }
            return Err(HeaderError::BadMagic { got });
        }
        proof {
            assert(src@.take(4) =~= hgr_magic());
        }
        if src[4] != HGR_VERSION {
            return Err(HeaderError::BadVersion { got: src[4] });
        }
        let width = match Width::new(src[5]) {
            Ok(w) => w,
            Err(_) => {
                return Err(HeaderError::BadWidth { got: src[5] });
            },
        };
        let variant = match Variant::from_wire(src[6]) {
            Some(v) => v,
            None => {
                return Err(HeaderError::BadVariant { got: src[6] });
            },
        };
        let mut table_id: [u8; 8] = [0u8; 8];
        let mut i: usize = 0;
        while i < 8
            invariant
                i <= 8,
                src@.len() >= 36,
                forall|t: int| 0 <= t < i ==> table_id@[t] == src@[8 + t],
            decreases 8 - i,
        {
            table_id[i] = src[8 + i];
            i = i + 1;
        }
        proof {
            assert(table_id@ =~= src@.subrange(8, 16));
        }
        let n_symbols = read_be(src, 16, 8);
        let n_input_bytes = read_be(src, 24, 8);
        let crc = read_be(src, 32, 4);
        proof {
            lemma_be_value_roundtrip(src@.subrange(32, 36));
            vstd::arithmetic::power2::lemma2_to64();
        }
        Ok(
            Header {
                width,
                variant,
                flags: src[7],
                table_id,
                n_symbols,
                n_input_bytes,
                crc32_payload: crc as u32,
            },
        )
    }

    /// `true` when the stream declares an adaptive block.
    pub fn has_adaptive_block(&self) -> (r: bool)
        ensures
            r == (self.flags % 2 == 1),
    {
        let f = self.flags;
        assert((f & 1 != 0) == (f % 2 == 1)) by (bit_vector);
        self.flags & FLAG_ADAPTIVE != 0
    }

    /// `true` when the stream declares sync markers.
    pub fn has_sync_markers(&self) -> (r: bool)
        ensures
            r == ((self.flags / 2) % 2 == 1),
    {
        let f = self.flags;
        assert((f & 2 != 0) == ((f / 2) % 2 == 1)) by (bit_vector);
        self.flags & FLAG_SYNC_MARKERS != 0
    }
}

/// Writing a header and reading it back gives the same header.
pub proof fn lemma_header_roundtrip(h: Header)
    requires
        1 <= h.width.spec_bits() <= 32,
    ensures
        header_error(header_bytes(h)) is None,
        header_read(header_bytes(h), h),
        header_bytes(h).len() == 36,
{
    let s = header_bytes(h);
    lemma_be_roundtrip(h.n_symbols as nat, 8);
    lemma_be_roundtrip(h.n_input_bytes as nat, 8);
    lemma_be_roundtrip(h.crc32_payload as nat, 4);
    vstd::arithmetic::power2::lemma2_to64();
    let head = hgr_magic() + seq![HGR_VERSION, h.width.spec_bits(), variant_wire(h.variant), h.flags];
    assert(s.take(4) =~= hgr_magic());
    assert(s.subrange(8, 16) =~= h.table_id@);
    assert(s.subrange(16, 24) =~= be(h.n_symbols as nat, 8));
    assert(s.subrange(24, 32) =~= be(h.n_input_bytes as nat, 8));
    assert(s.subrange(32, 36) =~= be(h.crc32_payload as nat, 4));
    vstd::arithmetic::div_mod::lemma_small_mod(h.n_symbols as nat, pow2(64));
    vstd::arithmetic::div_mod::lemma_small_mod(h.n_input_bytes as nat, pow2(64));
    vstd::arithmetic::div_mod::lemma_small_mod(h.crc32_payload as nat, pow2(32));
    crate::model::lemma_variant_wire_roundtrip(h.variant, s[6]);
}

/// A header read from bytes writes those 36 bytes back: the header is a bijection.
pub proof fn lemma_header_bytes_of_read(src: Seq<u8>, h: Header)
    requires
        header_error(src) is None,
        header_read(src, h),
    ensures
        header_bytes(h) == src.take(36),
{
    lemma_be_value_roundtrip(src.subrange(16, 24));
    lemma_be_value_roundtrip(src.subrange(24, 32));
    lemma_be_value_roundtrip(src.subrange(32, 36));
    crate::model::lemma_variant_wire_roundtrip(h.variant, src[6]);
    assert(src.take(4) == hgr_magic());
    assert(header_bytes(h) =~= src.take(36));
}

} // verus!
