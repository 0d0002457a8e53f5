//! Vocabulary of the models: symbol width, band, table variant and run names.

use vstd::prelude::*;
use vstd::string::*;
use vstd::arithmetic::power2::*;

verus! {

/// Smallest symbol width of the sweep.
pub const MIN_BITS: u8 = 1;

/// Largest symbol width of the sweep.
pub const MAX_BITS: u8 = 32;

/// Width of the reference symbol (`base-8`).
pub const BASE_BITS: u8 = 8;

/// Band that a width belongs to; it decides which table rule applies.
#[derive(Debug, Clone, Copy, PartialEq, Eq, Hash, Structural)]
pub enum Band {
    /// `b < 8`: fewer bits per symbol, with an escape code.
    Lower,
    /// `b = 8`: the reference, byte-for-byte identity.
    Base,
    /// `b > 8`: the 256 legacy codes are kept, blocks come after them.
    Higher,
}

/// Table variants; the wire byte of each is given by [`Variant::to_wire`].
#[derive(Debug, Clone, Copy, PartialEq, Eq, Hash, Structural)]
pub enum Variant {
    /// Reference: plain `base-8`.
    M0,
    /// Legacy plus a hand-ordered human layer.
    M1,
    /// Legacy plus blocks chosen by a gain function on a training corpus.
    M2,
    /// `M2` plus the synchronised adaptive namespace.
    M4,
}

/// Wire byte of a variant.
pub open spec fn variant_wire(v: Variant) -> u8 {
    match v {
        Variant::M0 => 0,
        Variant::M1 => 1,
        Variant::M2 => 2,
        Variant::M4 => 4,
    }
}

/// Variant read from a wire byte: only `0, 1, 2, 4` name one.
pub open spec fn variant_from_wire(byte: u8) -> Option<Variant> {
    if byte == 0 {
        Some(Variant::M0)
    } else if byte == 1 {
        Some(Variant::M1)
    } else if byte == 2 {
        Some(Variant::M2)
    } else if byte == 4 {
        Some(Variant::M4)
    } else {
        None
    }
}

/// Character of a decimal digit.
pub open spec fn digit_char(d: nat) -> char {
    (48 + d) as char
}

/// Decimal writing of a natural number, most significant digit first.
pub open spec fn decimal(n: nat) -> Seq<char>
    decreases n,
{
    if n < 10 {
        seq![digit_char(n)]
    } else {
        decimal(n / 10) + seq![digit_char(n % 10)]
    }
}

/// Printed name of a variant: `M0`, `M1`, `M2`, `M4`.
pub open spec fn variant_name(v: Variant) -> Seq<char> {
    seq!['M', digit_char(variant_wire(v) as nat)]
}

impl Variant {
    /// Byte that stands for the variant in the `.hgr` header.
    pub fn to_wire(self) -> (r: u8)
        ensures
            r == variant_wire(self),
    {
        match self {
            Variant::M0 => 0,
            Variant::M1 => 1,
            Variant::M2 => 2,
            Variant::M4 => 4,
        }
    }

    /// Variant of a header byte; `None` for any byte outside `{0, 1, 2, 4}`.
    pub fn from_wire(byte: u8) -> (r: Option<Variant>)
        ensures
            r == variant_from_wire(byte),
    {
        match byte {
            0 => Some(Variant::M0),
            1 => Some(Variant::M1),
            2 => Some(Variant::M2),
            4 => Some(Variant::M4),
            _ => None,
        }
    }

    /// Printed name of the variant (`M0`, `M1`, `M2`, `M4`).
    pub fn name(self) -> (r: String)
        ensures
            r@ == variant_name(self),
    {
        let s = match self {
            Variant::M0 => "M0",
            Variant::M1 => "M1",
            Variant::M2 => "M2",
            Variant::M4 => "M4",
        };
        proof {
            reveal_strlit("M0");
            reveal_strlit("M1");
            reveal_strlit("M2");
            reveal_strlit("M4");
        }
        String::from_str(s)
    }
}

/// Every wire byte that names a variant reads back as that variant, and back again.
pub proof fn lemma_variant_wire_roundtrip(v: Variant, byte: u8)
    ensures
        variant_from_wire(variant_wire(v)) == Some(v),
        variant_from_wire(byte) == Some(v) ==> variant_wire(v) == byte,
        variant_from_wire(3) is None,
{
}

/// Error of [`Width::new`]: the refused value.
#[derive(Debug, Clone, Copy, PartialEq, Eq, Structural)]
pub struct WidthOutOfRange {
    /// The refused value.
    pub bits: u32,
}

/// A validated symbol width, always in `1..=32`.
#[derive(Debug, Clone, Copy, PartialEq, Eq, PartialOrd, Ord, Hash, Structural)]
pub struct Width(u8);

/// Band of a width given in bits.
pub open spec fn band_of(b: nat) -> Band {
    if b < 8 {
        Band::Lower
    } else if b == 8 {
        Band::Base
    } else {
        Band::Higher
    }
}

/// Greatest common divisor (Euclid).
pub open spec fn gcd(a: nat, b: nat) -> nat
    decreases b,
{
    if b == 0 {
        a
    } else {
        gcd(b, a % b)
    }
}

/// Bytes of the smallest aligned RAM container that holds a symbol of `b` bits.
pub open spec fn container_of(b: nat) -> nat {
    if b <= 8 {
        1
    } else if b <= 16 {
        2
    } else {
        4
    }
}

/// `true` for the widths whose symbols are whole bytes: 8, 16 and 32.
pub open spec fn native_width(b: nat) -> bool {
    b == 8 || b == 16 || b == 32
}

/// Canonical model name of a width: `lower-3`, `base-8`, `higher-14`.
pub open spec fn model_name_of(b: nat) -> Seq<char> {
    if b < 8 {
        seq!['l', 'o', 'w', 'e', 'r', '-'] + decimal(b)
    } else if b == 8 {
        seq!['b', 'a', 's', 'e', '-', '8']
    } else {
        seq!['h', 'i', 'g', 'h', 'e', 'r', '-'] + decimal(b)
    }
}

/// Run name: the model name, then `:` and the variant, except `base-8` with `M0`.
pub open spec fn run_name_of(b: nat, v: Variant) -> Seq<char> {
    if b == 8 && v == Variant::M0 {
        model_name_of(b)
    } else {
        model_name_of(b) + seq![':'] + variant_name(v)
    }
}

impl Width {
    #[verifier::type_invariant]
    spec fn inv(self) -> bool {
        MIN_BITS <= self.0 && self.0 <= MAX_BITS
    }

    /// Bits per symbol.
    pub closed spec fn spec_bits(self) -> u8 {
        self.0
    }

    /// The width `base-8`, as a value whose width is known to verified callers.
    pub fn base() -> (r: Width)
        ensures
            r.spec_bits() == 8,
    {
        Width(BASE_BITS)
    }

    /// Builds the width, refusing any value outside `1..=32`.
    pub fn new(bits: u8) -> (r: Result<Width, WidthOutOfRange>)
        ensures
            1 <= bits <= 32 ==> (r matches Ok(w) && w.spec_bits() == bits),
            !(1 <= bits <= 32) ==> r == Err::<Width, WidthOutOfRange>(
                WidthOutOfRange { bits: bits as u32 },
            ),
    {
        if bits >= MIN_BITS && bits <= MAX_BITS {
            Ok(Width(bits))
        } else {
            Err(WidthOutOfRange { bits: bits as u32 })
        }
    }

    /// Bits per symbol.
    #[verifier::when_used_as_spec(spec_bits)]
    pub fn bits(self) -> (r: u8)
        ensures
            r == self.spec_bits(),
            1 <= r <= 32,
    {
        proof {
            use_type_invariant(&self);
        }
        self.0
    }

    /// Band of the width.
    pub fn band(self) -> (r: Band)
        ensures
            r == band_of(self.spec_bits() as nat),
    {
        if self.bits() < BASE_BITS {
            Band::Lower
        } else if self.bits() == BASE_BITS {
            Band::Base
        } else {
            Band::Higher
        }
    }

    /// Table capacity, `2^b`.
    pub fn capacity(self) -> (r: u64)
        ensures
            r == pow2(self.spec_bits() as nat),
    {
        let b = self.bits();
        proof {
            vstd::bits::lemma_u64_pow2_no_overflow(b as nat);
            vstd::bits::lemma_u64_shl_is_mul(1, b as u64);
        }
        1u64 << b
    }

    /// Bytes of the aligned RAM container that holds a symbol: 1, 2 or 4.
    pub fn container_bytes(self) -> (r: u8)
        ensures
            r == container_of(self.spec_bits() as nat),
    {
        let b = self.bits();
        if b <= 8 {
            1
        } else if b <= 16 {
            2
        } else {
            4
        }
    }

    /// `true` when the width is native (8, 16 or 32) and packing is a plain copy.
    pub fn is_native(self) -> (r: bool)
        ensures
            r == native_width(self.spec_bits() as nat),
    {
        let b = self.bits();
        b == 8 || b == 16 || b == 32
    }

    /// `gcd(b, 8)`, computed by Euclid's algorithm.
    fn gcd_with_8(self) -> (r: u8)
        ensures
            r == gcd(self.spec_bits() as nat, 8),
            1 <= r <= 8,
    {
        let b = self.bits();
        let mut a: u8 = b;
        let mut c: u8 = 8;
        proof {
            lemma_group_table(b as nat);
        }
        while c != 0
            invariant
                gcd(a as nat, c as nat) == gcd(b as nat, 8),
                1 <= gcd(b as nat, 8) <= 8,
            decreases c,
        {
            let t = a % c;
            a = c;
            c = t;
        }
        a
    }

    /// Symbols that close a whole number of bytes: `lcm(b, 8) / b`.
    pub fn pack_group_symbols(self) -> (r: u8)
        ensures
            r == 8nat / gcd(self.spec_bits() as nat, 8),
    {
        let g = self.gcd_with_8();
        8 / g
    }

    /// Bytes taken by the group of [`Self::pack_group_symbols`]: `lcm(b, 8) / 8`.
    pub fn pack_group_bytes(self) -> (r: u8)
        ensures
            r == (self.spec_bits() as nat) / gcd(self.spec_bits() as nat, 8),
    {
        let g = self.gcd_with_8();
        self.bits() / g
    }

    /// Canonical model name: `lower-3`, `base-8`, `higher-14`.
    pub fn model_name(self) -> (r: String)
        ensures
            r@ == model_name_of(self.spec_bits() as nat),
    {
        let b = self.bits();
        if b < 8 {
            let mut s = String::from_str("lower-");
            proof {
                reveal_strlit("lower-");
            }
            push_decimal(&mut s, b);
            s
        } else if b == 8 {
            proof {
                reveal_strlit("base-8");
            }
            String::from_str("base-8")
        } else {
            let mut s = String::from_str("higher-");
            proof {
                reveal_strlit("higher-");
            }
            push_decimal(&mut s, b);
            s
        }
    }

    /// Run name: `higher-14:M2`, `lower-6:M2`, `base-8`.
    pub fn run_name(self, variant: Variant) -> (r: String)
        ensures
            r@ == run_name_of(self.spec_bits() as nat, variant),
    {
        let mut s = self.model_name();
        if self.bits() == BASE_BITS && variant == Variant::M0 {
            return s;
        }
        proof {
            reveal_strlit(":");
        }
        s.append(":");
        let v = variant.name();
        s.append(v.as_str());
        s
    }
}

/// The group laws of every width of the sweep, by evaluation.
proof fn lemma_group_table(b: nat)
    requires
        1 <= b <= 32,
    ensures
        1 <= gcd(b, 8) <= 8,
        (8nat / gcd(b, 8)) * b == (b / gcd(b, 8)) * 8,
        1 <= 8nat / gcd(b, 8) <= 8,
        1 <= b / gcd(b, 8) <= 32,
        (8nat / gcd(b, 8)) * b <= 64 || b == 9 || b == 11 || b == 13 || b == 15 || b == 17
            || b == 18 || b == 19 || b == 21 || b == 22 || b == 23 || b == 25 || b == 26 || b == 27
            || b == 29 || b == 30 || b == 31,
        b % 8 == 0 ==> gcd(b, 8) == 8,
        b % 8 % 2 == 1 ==> gcd(b, 8) == 1,
        (b % 8 == 2 || b % 8 == 6) ==> gcd(b, 8) == 2,
        b % 8 == 4 ==> gcd(b, 8) == 4,
{
    let r = b % 8;
    assert(gcd(b, 8) == gcd(8, r));
    assert(gcd(1, 0) == 1);
    assert(gcd(2, 0) == 2);
    assert(gcd(4, 0) == 4);
    assert(gcd(2, 1) == gcd(1, 0));
    assert(gcd(3, 2) == gcd(2, 1));
    assert(gcd(5, 3) == gcd(3, 2));
    assert(gcd(7, 1) == gcd(1, 0));
    assert(gcd(6, 2) == gcd(2, 0));
    let g = gcd(b, 8);
    if r == 0 {
        assert(gcd(8, 0) == 8);
    } else if r == 1 {
        assert(gcd(8, 1) == gcd(1, 0));
    } else if r == 3 {
        assert(gcd(8, 3) == gcd(3, 2));
    } else if r == 5 {
        assert(gcd(8, 5) == gcd(5, 3));
    } else if r == 7 {
        assert(gcd(8, 7) == gcd(7, 1));
    } else if r == 2 {
        assert(gcd(8, 2) == gcd(2, 0));
    } else if r == 6 {
        assert(gcd(8, 6) == gcd(6, 2));
    } else {
        assert(gcd(8, 4) == gcd(4, 0));
    }
    assert((r == 0 ==> g == 8) && (r % 2 == 1 ==> g == 1) && ((r == 2 || r == 6) ==> g == 2) && (
    r == 4 ==> g == 4));
    assert({
        &&& (8nat / g) * b == (b / g) * 8
        &&& 1 <= 8nat / g <= 8
        &&& 1 <= b / g <= 32
        &&& (8nat / g) * b <= 64 || b == 9 || b == 11 || b == 13 || b == 15 || b == 17 || b == 18
            || b == 19 || b == 21 || b == 22 || b == 23 || b == 25 || b == 26 || b == 27 || b == 29
            || b == 30 || b == 31
    }) by (nonlinear_arith)
        requires
            1 <= b <= 32,
            r == b % 8,
            r == 0 ==> g == 8,
            r % 2 == 1 ==> g == 1,
            (r == 2 || r == 6) ==> g == 2,
            r == 4 ==> g == 4,
    ;
}

/// One decimal digit as a string.
fn digit_str(d: u8) -> (r: &'static str)
    requires
        d < 10,
    ensures
        r@ == seq![digit_char(d as nat)],
{
    proof {
        reveal_strlit("0");
        reveal_strlit("1");
        reveal_strlit("2");
        reveal_strlit("3");
        reveal_strlit("4");
        reveal_strlit("5");
        reveal_strlit("6");
        reveal_strlit("7");
        reveal_strlit("8");
        reveal_strlit("9");
    }
    match d {
        0 => "0",
        1 => "1",
        2 => "2",
        3 => "3",
        4 => "4",
        5 => "5",
        6 => "6",
        7 => "7",
        8 => "8",
        _ => "9",
    }
}

/// Appends the decimal writing of `n` to `s`.
fn push_decimal(s: &mut String, n: u8)
    ensures
        final(s)@ == old(s)@ + decimal(n as nat),
    decreases n,
{
    if n < 10 {
        s.append(digit_str(n));
    } else {
        push_decimal(s, n / 10);
        s.append(digit_str(n % 10));
        assert(decimal(n as nat) == decimal((n / 10) as nat) + seq![digit_char((n % 10) as nat)]);
    }
}

/// All the widths of the sweep, from 1 to 32, in order.
pub fn all_widths() -> (r: Vec<Width>)
    ensures
        r@.len() == 32,
        forall|i: int| 0 <= i < 32 ==> (#[trigger] r@[i]).spec_bits() == i + 1,
{
    let mut out: Vec<Width> = Vec::new();
    let mut b: u8 = MIN_BITS;
    while b <= MAX_BITS
        invariant
            1 <= b <= 33,
            out@.len() == b - 1,
            forall|i: int| 0 <= i < out@.len() ==> (#[trigger] out@[i]).spec_bits() == i + 1,
        decreases 33 - b,
    {
        out.push(Width(b));
        b = b + 1;
    }
    out
}

proof fn lemma_short_groups_leave_bits(b: u32, m: u32)
    by (bit_vector)
    requires
        1u32 <= b <= 32u32,
        0u32 < m < 8u32,
    ensures
        (b & 1u32) == 1u32 ==> ((m * b) as u32) & 7u32 != 0u32,
        ((b & 7u32) == 2u32 || (b & 7u32) == 6u32) && m < 4u32 ==> ((m * b) as u32) & 7u32 != 0u32,
        (b & 7u32) == 4u32 && m < 2u32 ==> ((m * b) as u32) & 7u32 != 0u32,
{
}

/// No group of fewer than `pack_group_symbols` symbols of `b` bits closes a
/// byte: the group is the smallest, `lcm(b, 8) / b` symbols.
pub proof fn lemma_pack_group_is_smallest(b: nat, m: nat)
    requires
        1 <= b <= 32,
        0 < m < 8nat / gcd(b, 8),
    ensures
        (m * b) % 8 != 0,
{
    lemma_group_table(b);
    let bb = b as u32;
    let mm = m as u32;
    lemma_short_groups_leave_bits(bb, mm);
    assert(m * b < 256) by (nonlinear_arith)
        requires
            m < 8,
            b <= 32,
    ;
    let p = (mm * bb) as u32;
    assert(p == m * b);
    assert((bb & 1u32) == bb % 2 && (bb & 7u32) == bb % 8 && (p & 7u32) == p % 8) by (bit_vector);
    assert(bb % 2 == b % 8 % 2);
    let g = gcd(b, 8);
    if b % 8 == 0 {
        assert(g == 8);
        assert(8nat / 8nat == 1);
    } else if b % 8 % 2 == 1 {
        assert(g == 1);
        assert(8nat / 1nat == 8);
    } else if b % 8 == 2 || b % 8 == 6 {
        assert(g == 2);
        assert(8nat / 2nat == 4);
    } else {
        assert(b % 8 == 4);
        assert(g == 4);
        assert(8nat / 4nat == 2);
    }
}

/// The group of `pack_group_symbols` symbols of `b` bits fills exactly
/// `pack_group_bytes` bytes, for every width of the sweep.
pub proof fn lemma_pack_group_closes_bytes(b: nat)
    requires
        1 <= b <= 32,
    ensures
        (8nat / gcd(b, 8)) * b == (b / gcd(b, 8)) * 8,
        1 <= 8nat / gcd(b, 8) <= 8,
        1 <= b / gcd(b, 8) <= 32,
        1 <= gcd(b, 8) <= 8,
{
    lemma_group_table(b);
}

} // verus!
