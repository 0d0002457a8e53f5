//! Symbol table: namespace layout, M2 construction and serialisation.
//!
//! | Band | Code 0 | Next codes |
//! |---|---|---|
//! | LOWER `b < 8` | ESCAPE, followed by 8 raw bits | `1..2^b-1`, entries chosen by gain |
//! | BASE `b = 8` | byte `0x00` | `1..255`, identity; no dynamic entry |
//! | HIGHER `b > 8` | byte `0x00` | `1..255` legacy, then `256..2^b-1` by gain |
//!
//! The table keeps the sha256 of the corpus it was trained on, and that hash
//! goes into the serialised artefact.

use vstd::prelude::*;
use vstd::arithmetic::power2::pow2;
use sha2::Digest;
use crate::hgr::{be, be_value, push_be, read_be, lemma_be_roundtrip, lemma_be_value_roundtrip};
use crate::model::{Band, Variant, Width, band_of, variant_from_wire, variant_wire};
use crate::trie::{Trie, longest_known};
use crate::ranking::{ranked_blocks, top_ranked, lemma_top_ranked_unique};

verus! {

/// Longest candidate block, in bytes.
pub const MAX_MATCH: usize = 16;

/// Least frequency for an n-gram to become a candidate.
pub const MIN_FREQ: u32 = 2;

/// Longest word accepted as a candidate, in bytes.
pub const MAX_WORD: usize = 64;

/// Escape code of the lower band.
pub const ESCAPE_CODE: u32 = 0;

/// Magic of a serialised table, `HTB1`.
pub open spec fn table_magic() -> Seq<u8> {
    seq![72u8, 84u8, 66u8, 49u8]
}

/// Magic of a serialised table, `HTB1`.
pub fn table_magic_bytes() -> (r: [u8; 4])
    ensures
        r@ == table_magic(),
{
    let r: [u8; 4] = [72, 84, 66, 49];
    assert(r@ =~= table_magic());
    r
}

/// First code left for dynamic entries in a width of `b` bits.
pub open spec fn first_code_of(b: nat) -> nat {
    if b < 8 {
        1
    } else {
        256
    }
}

/// Dynamic slots that a width of `b` bits offers.
pub open spec fn slots_of(b: nat) -> nat {
    if pow2(b) >= first_code_of(b) {
        (pow2(b) - first_code_of(b)) as nat
    } else {
        0
    }
}

/// First code left for dynamic entries: 1 in the lower band (0 is the
/// escape), 256 elsewhere (`0..=255` are the legacy bytes).
pub fn first_dynamic_code(w: Width) -> (r: u32)
    ensures
        r == first_code_of(w.spec_bits() as nat),
{
    match w.band() {
        Band::Lower => 1,
        Band::Base | Band::Higher => 256,
    }
}

/// How many dynamic slots the width offers.
pub fn dynamic_slots(w: Width) -> (r: u64)
    ensures
        r == slots_of(w.spec_bits() as nat),
{
    let base = first_dynamic_code(w) as u64;
    let cap = w.capacity();
    if cap >= base {
        cap - base
    } else {
        0
    }
}

/// Error while reading a serialised table.
#[derive(Debug, Clone, PartialEq, Eq)]
#[allow(inconsistent_fields)]
pub enum TableError {
    /// The first 4 bytes are not `HTB1`.
    BadMagic {
        /// What came instead.
        got: [u8; 4],
    },
    /// Unknown format version.
    BadVersion {
        /// The version read.
        got: u8,
    },
    /// Width outside `1..=32`.
    BadWidth {
        /// The width read.
        got: u8,
    },
    /// Variant byte outside `{0, 1, 2, 4}`.
    BadVariant {
        /// The byte read.
        got: u8,
    },
    /// The artefact ends too early.
    Truncated {
        /// Where reading stopped.
        offset: usize,
    },
    /// Bytes are left after the last entry.
    TrailingBytes {
        /// How many bytes are left.
        extra: usize,
    },
    /// More entries than the width holds.
    TooManyEntries {
        /// Declared entries.
        declared: u64,
        /// Dynamic slots available.
        available: u64,
    },
    /// An entry of length zero, which stands for no block.
    EmptyEntry {
        /// Index of the entry.
        index: usize,
    },
}

/// Name of the SHA-256 digest of a byte sequence, as the `sha2` crate computes it.
pub uninterp spec fn spec_sha256(data: Seq<u8>) -> Seq<u8>;

/// Calls `sha2::Sha256::digest`; the contract claims that its 32 bytes are
/// a function of `data` alone, named [`spec_sha256`].
#[verifier::external_body]
fn sha256(data: &[u8]) -> (r: [u8; 32])
    ensures
        r@ == spec_sha256(data@),
{
    <sha2::Sha256 as Digest>::digest(data).into()
}

/// Codes of a list of blocks: block `i` gets `base + i`, a later equal block
/// taking the code over.
pub open spec fn dict_of(blocks: Seq<Seq<u8>>, base: nat) -> Map<Seq<u8>, u32>
    decreases blocks.len(),
{
    if blocks.len() == 0 {
        Map::empty()
    } else {
        dict_of(blocks.drop_last(), base).insert(blocks.last(), (base + blocks.len() - 1) as u32)
    }
}

/// What a code of [`dict_of`] stands for: the block at its index.
pub proof fn lemma_dict_of(blocks: Seq<Seq<u8>>, base: nat, s: Seq<u8>)
    requires
        base + blocks.len() <= u32::MAX + 1,
    ensures
        dict_of(blocks, base).contains_key(s) ==> {
            let c = dict_of(blocks, base)[s] as nat;
            &&& base <= c < base + blocks.len()
            &&& blocks[c - base] == s
        },
        dict_of(blocks, base).contains_key(s) <==> blocks.contains(s),
    decreases blocks.len(),
{
    if blocks.len() > 0 {
        let bs = blocks.drop_last();
        lemma_dict_of(bs, base, s);
        if bs.contains(s) {
            let i = choose|i: int| 0 <= i < bs.len() && bs[i] == s;
            assert(blocks[i] == s);
        }
        if blocks.contains(s) && s != blocks.last() {
            let i = choose|i: int| 0 <= i < blocks.len() && blocks[i] == s;
            assert(bs[i] == s);
        }
        if s == blocks.last() {
            assert(blocks[blocks.len() - 1] == s);
        }
    }
}

/// The entries of a serialised table: each block's length byte, then its bytes.
pub open spec fn entries_bytes(blocks: Seq<Seq<u8>>) -> Seq<u8>
    decreases blocks.len(),
{
    if blocks.len() == 0 {
        Seq::<u8>::empty()
    } else {
        seq![blocks[0].len() as u8] + blocks[0] + entries_bytes(blocks.skip(1))
    }
}

/// The canonical serialisation of a table.
///
/// ```text
/// 0   magic        4 bytes   "HTB1"
/// 4   version      u8        = 1
/// 5   b            u8        1..32
/// 6   variant      u8        0=M0 1=M1 2=M2 4=M4
/// 7   reserved     u8        = 0
/// 8   n_entries    u32 BE
/// 12  train_sha256 [u8; 32]
/// 44  entries: for each, len u8 (1..=255) and the bytes
/// ```
pub open spec fn table_bytes_of(b: u8, v: Variant, blocks: Seq<Seq<u8>>, sha: Seq<u8>) -> Seq<u8> {
    table_magic() + seq![1u8, b, variant_wire(v), 0u8] + be(blocks.len(), 4) + sha + entries_bytes(
        blocks,
    )
}

/// The entries read from `src` at `p`: `count` of them, the first being entry `index`.
pub open spec fn parse_entries(src: Seq<u8>, p: nat, index: nat, count: nat) -> Result<
    (Seq<Seq<u8>>, nat),
    TableError,
>
    decreases count,
{
    if count == 0 {
        Ok((Seq::<Seq<u8>>::empty(), p))
    } else if p + 1 > src.len() {
        Err(TableError::Truncated { offset: p as usize })
    } else if src[p as int] == 0 {
        Err(TableError::EmptyEntry { index: index as usize })
    } else if p + 1 + src[p as int] > src.len() {
        Err(TableError::Truncated { offset: (p + 1) as usize })
    } else {
        let l = src[p as int] as nat;
        match parse_entries(src, p + 1 + l, index + 1, (count - 1) as nat) {
            Ok((bs, q)) => Ok((seq![src.subrange(p + 1 as int, p + 1 + l as int)] + bs, q)),
            Err(e) => Err(e),
        }
    }
}

/// What reading a serialised table gives: width, variant, blocks and training
/// hash, or the first error, in the order of the checks.
pub open spec fn parse_table(src: Seq<u8>) -> Result<(u8, Variant, Seq<Seq<u8>>, Seq<u8>), TableError> {
    if src.len() < 44 {
        Err(TableError::Truncated { offset: 0 })
    } else if src.take(4) != table_magic() {
        Err(TableError::BadMagic { got: [src[0], src[1], src[2], src[3]] })
    } else if src[4] != 1 {
        Err(TableError::BadVersion { got: src[4] })
    } else if !(1 <= src[5] <= 32) {
        Err(TableError::BadWidth { got: src[5] })
    } else if variant_from_wire(src[6]) is None {
        Err(TableError::BadVariant { got: src[6] })
    } else {
        let n = be_value(src.subrange(8, 12));
        let slots = slots_of(src[5] as nat);
        if n > slots {
            Err(TableError::TooManyEntries { declared: n as u64, available: slots as u64 })
        } else {
            match parse_entries(src, 44, 0, n) {
                Err(e) => Err(e),
                Ok((bs, q)) => if q != src.len() {
                    Err(TableError::TrailingBytes { extra: (src.len() - q) as usize })
                } else {
                    Ok((src[5], variant_from_wire(src[6])->0, bs, src.subrange(12, 44)))
                },
            }
        }
    }
}

/// Symbol table of one width and variant.
pub struct Table {
    width: Width,
    variant: Variant,
    /// Dynamic blocks, in code order from [`first_dynamic_code`].
    blocks: Vec<Vec<u8>>,
    trie: Trie,
    train_sha256: [u8; 32],
    /// Canonical serialisation, kept so that `id` and `as_bytes` cannot drift
    /// from the content.
    serialized: Vec<u8>,
    id: [u8; 32],
    /// The 256 bytes in order, which the legacy codes of BASE and HIGHER stand for.
    legacy: Vec<u8>,
}

/// A list of blocks that a table of `b` bits can hold.
pub open spec fn blocks_fit(blocks: Seq<Seq<u8>>, b: nat) -> bool {
    &&& blocks.len() <= slots_of(b)
    &&& forall|i: int| 0 <= i < blocks.len() ==> 1 <= (#[trigger] blocks[i]).len() <= 255
}

impl Table {
    /// What every table keeps: its blocks fit its width, and its
    /// serialisation and id follow from its content.
    #[verifier::type_invariant]
    pub open spec fn inv(self) -> bool {
        let b = self.spec_width().spec_bits();
        &&& 1 <= b <= 32
        &&& blocks_fit(self.spec_blocks(), b as nat)
        &&& self.spec_train_sha256().len() == 32
        &&& self.spec_id().len() == 32
        &&& self.spec_bytes() == table_bytes_of(
            b,
            self.spec_variant(),
            self.spec_blocks(),
            self.spec_train_sha256(),
        )
        &&& self.spec_id() == spec_sha256(self.spec_bytes())
        &&& self.trie_matches()
        &&& self.legacy_ok()
    }

    /// The legacy bytes are `0..=255`, each at its own index.
    pub closed spec fn legacy_ok(self) -> bool {
        &&& self.legacy@.len() == 256
        &&& forall|i: int| 0 <= i < 256 ==> self.legacy@[i] == i as u8
    }

    /// The trie holds exactly the blocks, each under its code.
    pub closed spec fn trie_matches(self) -> bool {
        &&& self.trie.wf()
        &&& self.trie.as_map() == dict_of(
            self.spec_blocks(),
            first_code_of(self.width.spec_bits() as nat),
        )
    }

    /// Width of the table.
    pub closed spec fn spec_width(self) -> Width {
        self.width
    }

    /// Variant of the table.
    pub closed spec fn spec_variant(self) -> Variant {
        self.variant
    }

    /// Dynamic blocks, in code order.
    pub closed spec fn spec_blocks(self) -> Seq<Seq<u8>> {
        self.blocks@.map_values(|v: Vec<u8>| v@)
    }

    /// sha256 of the training corpus (zeros when there was no training).
    pub closed spec fn spec_train_sha256(self) -> Seq<u8> {
        self.train_sha256@
    }

    /// Canonical serialisation.
    pub closed spec fn spec_bytes(self) -> Seq<u8> {
        self.serialized@
    }

    /// `table_id`: sha256 of the canonical serialisation.
    pub closed spec fn spec_id(self) -> Seq<u8> {
        self.id@
    }

    /// Builds the trie, the serialisation and the id of a list of blocks.
    fn from_blocks(width: Width, variant: Variant, blocks: Vec<Vec<u8>>, train_sha256: [u8; 32]) -> (r:
        Table)
        requires
            blocks_fit(blocks@.map_values(|v: Vec<u8>| v@), width.spec_bits() as nat),
        ensures
            r.spec_width() == width,
            r.spec_variant() == variant,
            r.spec_blocks() == blocks@.map_values(|v: Vec<u8>| v@),
            r.spec_train_sha256() == train_sha256@,
    {
        let base = first_dynamic_code(width);
        let b = width.bits();
        let ghost bs = blocks@.map_values(|v: Vec<u8>| v@);
        let mut trie = Trie::new();
        let mut i: usize = 0;
        proof {
            vstd::arithmetic::power2::lemma2_to64();
            crate::bitseq::lemma_pow2_strictly_increases_or_eq(b as nat, 32);
            assert(bs.take(0) =~= Seq::<Seq<u8>>::empty());
        }
        while i < blocks.len()
            invariant
                i <= blocks@.len(),
                bs == blocks@.map_values(|v: Vec<u8>| v@),
                blocks_fit(bs, b as nat),
                base == first_code_of(b as nat),
                1 <= b <= 32,
                pow2(b as nat) <= pow2(32),
                pow2(32) == 0x1_0000_0000,
                trie.wf(),
                trie.as_map() == dict_of(bs.take(i as int), base as nat),
            decreases blocks@.len() - i,
        {
            proof {
                assert(bs.take(i + 1).drop_last() =~= bs.take(i as int));
                assert(bs[i as int] == blocks@[i as int]@);
            }
            trie.insert(blocks[i].as_slice(), base + i as u32);
            i = i + 1;
        }
        proof {
            assert(bs.take(blocks@.len() as int) =~= bs);
        }
        let serialized = serialize(width, variant, &blocks, &train_sha256);
        let id = sha256(serialized.as_slice());
        let mut legacy: Vec<u8> = Vec::new();
        let mut c: u32 = 0;
        while c < 256
            invariant
                c <= 256,
                legacy@.len() == c,
                forall|i: int| 0 <= i < c ==> legacy@[i] == i as u8,
            decreases 256 - c,
        {
            legacy.push(c as u8);
            c = c + 1;
        }
        Table { width, variant, blocks, trie, train_sha256, serialized, id, legacy }
    }

    /// A table with only the legacy of its band and no dynamic entry.
    pub fn legacy_only(width: Width, variant: Variant) -> (r: Table)
        ensures
            r.spec_width() == width,
            r.spec_variant() == variant,
            r.spec_blocks() == Seq::<Seq<u8>>::empty(),
            r.spec_train_sha256() == Seq::new(32, |i: int| 0u8),
    {
        let blocks: Vec<Vec<u8>> = Vec::new();
        let sha: [u8; 32] = [0u8; 32];
        proof {
            assert(blocks@.map_values(|v: Vec<u8>| v@) =~= Seq::<Seq<u8>>::empty());
            assert(sha@ =~= Seq::new(32, |i: int| 0u8));
        }
        Self::from_blocks(width, variant, blocks, sha)
    }

    /// The M2 table of `width` trained on `train`: the candidate blocks
    /// (frequent n-grams of 1 to 16 bytes and frequent words), ranked by
    /// `gain = freq * (8 * len - b)`, then length, then bytes, fill the
    /// dynamic slots in that order; the table keeps the sha256 of `train`.
    pub fn train_m2(width: Width, train: &[u8]) -> (r: Table)
        ensures
            r.spec_width() == width,
            r.spec_variant() == Variant::M2,
            top_ranked(
                train@,
                width.spec_bits() as nat,
                slots_of(width.spec_bits() as nat),
                r.spec_blocks(),
            ),
            r.spec_train_sha256() == spec_sha256(train@),
    {
        let slots = dynamic_slots(width);
        let blocks = ranked_blocks(train, width.bits(), slots);
        let train_sha256 = sha256(train);
        proof {
            let bs = blocks@.map_values(|v: Vec<u8>| v@);
            assert forall|i: int| 0 <= i < bs.len() implies 1 <= (#[trigger] bs[i]).len() <= 255 by {
                assert(bs[i] == blocks@[i]@);
            }
        }
        Self::from_blocks(width, Variant::M2, blocks, train_sha256)
    }

    /// Reads a serialised table; never panics.
    pub fn from_bytes(src: &[u8]) -> (r: Result<Table, TableError>)
        ensures
            match r {
                Ok(t) => parse_table(src@) == Ok::<(u8, Variant, Seq<Seq<u8>>, Seq<u8>), TableError>(
                    (
                        t.spec_width().spec_bits(),
                        t.spec_variant(),
                        t.spec_blocks(),
                        t.spec_train_sha256(),
                    ),
                ),
                Err(e) => parse_table(src@) == Err::<(u8, Variant, Seq<Seq<u8>>, Seq<u8>), TableError>(e),
            },
    {
        if src.len() < 44 {
            return Err(TableError::Truncated { offset: 0 });
        }
        let magic = table_magic_bytes();
        if src[0] != magic[0] || src[1] != magic[1] || src[2] != magic[2] || src[3] != magic[3] {
            let got: [u8; 4] = [src[0], src[1], src[2], src[3]];
            proof {
                if src@.take(4) == table_magic() {
                    assert(src@[0] == src@.take(4)[0]);
                    assert(src@[1] == src@.take(4)[1]);
                    assert(src@[2] == src@.take(4)[2]);
                    assert(src@[3] == src@.take(4)[3]);
                }
            }
            return Err(TableError::BadMagic { got });
        }
        proof {
            assert(src@.take(4) =~= table_magic());
        }
        if src[4] != 1 {
            return Err(TableError::BadVersion { got: src[4] });
        }
        let width = match Width::new(src[5]) {
            Ok(w) => w,
            Err(_) => {
                return Err(TableError::BadWidth { got: src[5] });
            },
        };
        let variant = match Variant::from_wire(src[6]) {
            Some(v) => v,
            None => {
                return Err(TableError::BadVariant { got: src[6] });
            },
        };
        let n_entries = read_be(src, 8, 4);
        let mut train_sha256: [u8; 32] = [0u8; 32];
        let mut k: usize = 0;
        while k < 32
            invariant
                k <= 32,
                src@.len() >= 44,
                forall|t: int| 0 <= t < k ==> train_sha256@[t] == src@[12 + t],
            decreases 32 - k,
        {
            train_sha256[k] = src[12 + k];
            k = k + 1;
        }
        proof {
            assert(train_sha256@ =~= src@.subrange(12, 44));
        }
        let slots = dynamic_slots(width);
        if n_entries > slots {
            return Err(TableError::TooManyEntries { declared: n_entries, available: slots });
        }
        proof {
            lemma_be_value_roundtrip(src@.subrange(8, 12));
            vstd::arithmetic::power2::lemma2_to64();
        }
        let n = n_entries as usize;
        let mut blocks: Vec<Vec<u8>> = Vec::new();
        let mut p: usize = 44;
        let mut index: usize = 0;
        let len = src.len();
        proof {
            assert(blocks@.map_values(|v: Vec<u8>| v@) =~= Seq::<Seq<u8>>::empty());
        }
        while index < n
            invariant
                len == src@.len(),
                src@.len() >= 44,
                src@.take(4) == table_magic(),
                src@[4] == 1,
                width.spec_bits() == src@[5],
                1 <= src@[5] <= 32,
                variant_from_wire(src@[6]) == Some(variant),
                index <= n,
                44 <= p <= len,
                n as nat == be_value(src@.subrange(8, 12)),
                n <= slots,
                slots == slots_of(width.spec_bits() as nat),
                blocks@.len() == index,
                forall|i: int| 0 <= i < index ==> 1 <= (#[trigger] blocks@[i])@.len() <= 255,
                parse_entries(src@, 44, 0, n as nat) == match parse_entries(
                    src@,
                    p as nat,
                    index as nat,
                    (n - index) as nat,
                ) {
                    Ok((bs, q)) => Ok((blocks@.map_values(|v: Vec<u8>| v@) + bs, q)),
                    Err(e) => Err::<(Seq<Seq<u8>>, nat), TableError>(e),
                },
            decreases n - index,
        {
            let ghost bs0 = blocks@.map_values(|v: Vec<u8>| v@);
            if p >= len {
                proof {
                    assert(parse_entries(src@, p as nat, index as nat, (n - index) as nat) == Err::<
                        (Seq<Seq<u8>>, nat),
                        TableError,
                    >(TableError::Truncated { offset: p }));
                }
                return Err(TableError::Truncated { offset: p });
            }
            let l = src[p] as usize;
            if l == 0 {
                proof {
                    assert(parse_entries(src@, p as nat, index as nat, (n - index) as nat) == Err::<
                        (Seq<Seq<u8>>, nat),
                        TableError,
                    >(TableError::EmptyEntry { index }));
                }
                return Err(TableError::EmptyEntry { index });
            }
            let fim = match (p + 1).checked_add(l) {
                Some(f) => f,
                None => {
                    return Err(TableError::Truncated { offset: p + 1 });
                },
            };
            if fim > len {
                return Err(TableError::Truncated { offset: p + 1 });
            }
            let mut bloco: Vec<u8> = Vec::new();
            let mut j: usize = p + 1;
            while j < fim
                invariant
                    p + 1 <= j <= fim <= len,
                    len == src@.len(),
                    bloco@ == src@.subrange(p + 1, j as int),
                decreases fim - j,
            {
                bloco.push(src[j]);
                proof {
                    assert(src@.subrange(p + 1, j + 1) =~= src@.subrange(p + 1, j as int).push(
                        src@[j as int],
                    ));
                }
                j = j + 1;
            }
            let ghost blk = bloco@;
            blocks.push(bloco);
            proof {
                assert(blocks@.map_values(|v: Vec<u8>| v@) =~= bs0.push(blk));
                let rest = parse_entries(src@, fim as nat, (index + 1) as nat, (n - index - 1) as nat);
                assert(parse_entries(src@, p as nat, index as nat, (n - index) as nat) == match rest {
                    Ok((bs, q)) => Ok((seq![blk] + bs, q)),
                    Err(e) => Err::<(Seq<Seq<u8>>, nat), TableError>(e),
                });
                match rest {
                    Ok((bs, q)) => {
                        assert(bs0 + (seq![blk] + bs) =~= bs0.push(blk) + bs);
                    },
                    Err(_) => {},
                }
            }
            p = fim;
            index = index + 1;
        }
        proof {
            assert(parse_entries(src@, p as nat, index as nat, 0) == Ok::<
                (Seq<Seq<u8>>, nat),
                TableError,
            >((Seq::<Seq<u8>>::empty(), p as nat)));
            assert(blocks@.map_values(|v: Vec<u8>| v@) + Seq::<Seq<u8>>::empty() =~= blocks@.map_values(
                |v: Vec<u8>| v@,
            ));
        }
        if p != len {
            return Err(TableError::TrailingBytes { extra: len - p });
        }
        proof {
            let bs = blocks@.map_values(|v: Vec<u8>| v@);
            assert forall|i: int| 0 <= i < bs.len() implies 1 <= (#[trigger] bs[i]).len() <= 255 by {
                assert(bs[i] == blocks@[i]@);
            }
        }
        Ok(Self::from_blocks(width, variant, blocks, train_sha256))
    }

    /// Width of the table.
    pub fn width(&self) -> (r: Width)
        ensures
            r == self.spec_width(),
    {
        self.width
    }

    /// Variant of the table.
    pub fn variant(&self) -> (r: Variant)
        ensures
            r == self.spec_variant(),
    {
        self.variant
    }

    /// `table_id`: sha256 of the canonical serialisation.
    pub fn id(&self) -> (r: &[u8; 32])
        ensures
            r@ == self.spec_id(),
    {
        &self.id
    }

    /// The first 8 bytes of the `table_id`, which go in the `.hgr` header.
    pub fn id8(&self) -> (r: [u8; 8])
        ensures
            r@ == self.spec_id().take(8),
    {
        let mut out: [u8; 8] = [0u8; 8];
        let mut i: usize = 0;
        while i < 8
            invariant
                i <= 8,
                self.id@.len() == 32,
                forall|t: int| 0 <= t < i ==> out@[t] == self.id@[t],
            decreases 8 - i,
        {
            out[i] = self.id[i];
            i = i + 1;
        }
        proof {
            assert(out@ =~= self.id@.take(8));
        }
        out
    }

    /// sha256 of the training corpus (zeros when there was no training).
    pub fn train_sha256(&self) -> (r: &[u8; 32])
        ensures
            r@ == self.spec_train_sha256(),
    {
        &self.train_sha256
    }

    /// Canonical serialisation.
    pub fn as_bytes(&self) -> (r: &[u8])
        ensures
            r@ == self.spec_bytes(),
    {
        self.serialized.as_slice()
    }

    /// Serialised size of the table.
    pub fn table_bytes(&self) -> (r: usize)
        ensures
            r == self.spec_bytes().len(),
    {
        self.serialized.len()
    }

    /// Dynamic entries in the table.
    pub fn slots_used(&self) -> (r: usize)
        ensures
            r == self.spec_blocks().len(),
    {
        self.blocks.len()
    }

    /// Block of bytes that a code stands for: the byte itself for a legacy
    /// code (`0..=255` in BASE and HIGHER), the dynamic block for a code from
    /// [`first_dynamic_code`]; `None` for the ESCAPE of the lower band, for a
    /// slot without a block and for codes outside the table.
    pub fn block_of(&self, code: u32) -> (r: Option<&[u8]>)
        ensures
            match block_of_spec(self.spec_width().spec_bits() as nat, self.spec_blocks(), code as nat) {
                Some(bl) => r matches Some(x) && x@ == bl,
                None => r is None,
            },
    {
        proof {
            use_type_invariant(self);
            vstd::arithmetic::power2::lemma2_to64();
        }
        if code as u64 >= self.width.capacity() {
            return None;
        }
        let base = first_dynamic_code(self.width);
        let lower = match self.width.band() {
            Band::Lower => true,
            _ => false,
        };
        if lower && code == 0 {
            return None;
        }
        if !lower && code < 256 {
            let c = code as usize;
            let one = vstd::slice::slice_subrange(self.legacy.as_slice(), c, c + 1);
            proof {
                assert(one@ =~= seq![code as u8]);
            }
            return Some(one);
        }
        let idx = (code - base) as usize;
        if idx < self.blocks.len() {
            proof {
                assert(self.spec_blocks()[idx as int] == self.blocks@[idx as int]@);
            }
            Some(self.blocks[idx].as_slice())
        } else {
            None
        }
    }

    /// Longest entry of the table that matches a prefix of `input`, with its
    /// code and length.
    pub fn longest_match(&self, input: &[u8]) -> (r: Option<(u32, usize)>)
        ensures
            match longest_known(
                dict_of(self.spec_blocks(), first_code_of(self.spec_width().spec_bits() as nat)),
                input@,
                input@.len(),
            ) {
                Some((c, l)) => r == Some((c, l as usize)),
                None => r is None,
            },
    {
        proof {
            use_type_invariant(self);
        }
        self.trie.longest_match(input)
    }
}

impl Clone for Table {
    /// A table with the same width, variant, blocks and training hash, hence
    /// the same serialisation and id.
    fn clone(&self) -> (r: Self)
        ensures
            r.spec_width() == self.spec_width(),
            r.spec_variant() == self.spec_variant(),
            r.spec_blocks() == self.spec_blocks(),
            r.spec_train_sha256() == self.spec_train_sha256(),
            r.spec_bytes() == self.spec_bytes(),
            r.spec_id() == self.spec_id(),
    {
        proof {
            use_type_invariant(self);
        }
        let mut blocks: Vec<Vec<u8>> = Vec::new();
        let mut i: usize = 0;
        while i < self.blocks.len()
            invariant
                i <= self.blocks@.len(),
                blocks@.len() == i,
                forall|t: int| 0 <= t < i ==> (#[trigger] blocks@[t])@ == self.blocks@[t]@,
            decreases self.blocks@.len() - i,
        {
            let copy = self.blocks[i].clone();
            blocks.push(copy);
            i = i + 1;
        }
        proof {
            assert(blocks@.map_values(|v: Vec<u8>| v@) =~= self.spec_blocks());
        }
        let r = Table::from_blocks(self.width, self.variant, blocks, self.train_sha256);
        proof {
            use_type_invariant(&r);
        }
        r
    }
}

/// Entries written after any prefix read back as the same blocks, ending at
/// the end of what was written.
pub proof fn lemma_parse_entries_written(pre: Seq<u8>, bs: Seq<Seq<u8>>, index: nat)
    requires
        forall|i: int| 0 <= i < bs.len() ==> 1 <= (#[trigger] bs[i]).len() <= 255,
    ensures
        parse_entries(pre + entries_bytes(bs), pre.len(), index, bs.len()) == Ok::<
            (Seq<Seq<u8>>, nat),
            TableError,
        >((bs, (pre + entries_bytes(bs)).len())),
    decreases bs.len(),
{
    let src = pre + entries_bytes(bs);
    if bs.len() > 0 {
        let b0 = bs[0];
        let rest = bs.skip(1);
        let pre2 = pre + seq![b0.len() as u8] + b0;
        assert(src =~= pre2 + entries_bytes(rest));
        assert(src[pre.len() as int] == b0.len() as u8);
        assert(src.subrange(pre.len() + 1 as int, pre.len() + 1 + b0.len() as int) =~= b0);
        assert forall|i: int| 0 <= i < rest.len() implies 1 <= (#[trigger] rest[i]).len() <= 255 by {
            assert(rest[i] == bs[i + 1]);
        }
        lemma_parse_entries_written(pre2, rest, index + 1);
        let l = src[pre.len() as int] as nat;
        assert(l == b0.len());
        assert(pre.len() + 1 + l == pre2.len());
        assert(src.len() >= pre2.len());
        assert(seq![b0] + rest =~= bs);
        assert(parse_entries(src, pre.len(), index, bs.len()) == Ok::<
            (Seq<Seq<u8>>, nat),
            TableError,
        >((seq![src.subrange(pre.len() + 1 as int, pre.len() + 1 + l as int)] + rest, src.len())));
        assert(seq![src.subrange(pre.len() + 1 as int, pre.len() + 1 + l as int)] + rest =~= bs);
    } else {
        assert(src =~= pre);
        assert(bs =~= Seq::<Seq<u8>>::empty());
    }
}

/// Reading the serialisation of a table gives back its width, variant,
/// blocks and training hash.
pub proof fn lemma_table_bytes_roundtrip(b: u8, v: Variant, blocks: Seq<Seq<u8>>, sha: Seq<u8>)
    requires
        1 <= b <= 32,
        blocks_fit(blocks, b as nat),
        sha.len() == 32,
    ensures
        parse_table(table_bytes_of(b, v, blocks, sha)) == Ok::<
            (u8, Variant, Seq<Seq<u8>>, Seq<u8>),
            TableError,
        >((b, v, blocks, sha)),
{
    let src = table_bytes_of(b, v, blocks, sha);
    let head = table_magic() + seq![1u8, b, variant_wire(v), 0u8] + be(blocks.len(), 4) + sha;
    lemma_be_roundtrip(blocks.len(), 4);
    vstd::arithmetic::power2::lemma2_to64();
    crate::bitseq::lemma_pow2_strictly_increases_or_eq(b as nat, 32);
    vstd::arithmetic::div_mod::lemma_small_mod(blocks.len(), pow2(32));
    assert(head.len() == 44);
    assert(src =~= head + entries_bytes(blocks));
    assert(src.take(4) =~= table_magic());
    assert(src.subrange(8, 12) =~= be(blocks.len(), 4));
    assert(src.subrange(12, 44) =~= sha);
    assert(src[4] == 1u8);
    assert(src[5] == b);
    assert(src[6] == variant_wire(v));
    crate::model::lemma_variant_wire_roundtrip(v, src[6]);
    lemma_parse_entries_written(head, blocks, 0);
}

/// Training is deterministic: two M2 tables of the same width trained on the
/// same corpus hold the same blocks, serialisation and `table_id`.
pub proof fn lemma_training_deterministic(train: Seq<u8>, t1: Table, t2: Table)
    requires
        t1.inv(),
        t2.inv(),
        t1.spec_width() == t2.spec_width(),
        t1.spec_variant() == Variant::M2,
        t2.spec_variant() == Variant::M2,
        top_ranked(
            train,
            t1.spec_width().spec_bits() as nat,
            slots_of(t1.spec_width().spec_bits() as nat),
            t1.spec_blocks(),
        ),
        top_ranked(
            train,
            t2.spec_width().spec_bits() as nat,
            slots_of(t2.spec_width().spec_bits() as nat),
            t2.spec_blocks(),
        ),
        t1.spec_train_sha256() == spec_sha256(train),
        t2.spec_train_sha256() == spec_sha256(train),
    ensures
        t1.spec_blocks() == t2.spec_blocks(),
        t1.spec_bytes() == t2.spec_bytes(),
        t1.spec_id() == t2.spec_id(),
{
    let b = t1.spec_width().spec_bits() as nat;
    lemma_top_ranked_unique(train, b, slots_of(b), t1.spec_blocks(), t2.spec_blocks());
}

/// What [`Table::block_of`] gives for `code` in a table of `b` bits.
pub open spec fn block_of_spec(b: nat, blocks: Seq<Seq<u8>>, code: nat) -> Option<Seq<u8>> {
    if code >= pow2(b) || (band_of(b) == Band::Lower && code == 0) {
        None
    } else if band_of(b) != Band::Lower && code < 256 {
        Some(seq![code as u8])
    } else if code - first_code_of(b) < blocks.len() {
        Some(blocks[code - first_code_of(b)])
    } else {
        None
    }
}

/// Canonical serialisation of a table.
fn serialize(width: Width, variant: Variant, blocks: &Vec<Vec<u8>>, train_sha256: &[u8; 32]) -> (r: Vec<
    u8,
>)
    requires
        blocks_fit(blocks@.map_values(|v: Vec<u8>| v@), width.spec_bits() as nat),
    ensures
        r@ == table_bytes_of(
            width.spec_bits(),
            variant,
            blocks@.map_values(|v: Vec<u8>| v@),
            train_sha256@,
        ),
{
    let ghost bs = blocks@.map_values(|v: Vec<u8>| v@);
    let mut out: Vec<u8> = Vec::new();
    let magic = table_magic_bytes();
    out.push(magic[0]);
    out.push(magic[1]);
    out.push(magic[2]);
    out.push(magic[3]);
    out.push(1);
    out.push(width.bits());
    out.push(variant.to_wire());
    out.push(0);
    proof {
        vstd::arithmetic::power2::lemma2_to64();
        crate::bitseq::lemma_pow2_strictly_increases_or_eq(width.spec_bits() as nat, 32);
    }
    push_be(&mut out, blocks.len() as u64, 4);
    let mut k: usize = 0;
    while k < 32
        invariant
            k <= 32,
            out@ == table_magic() + seq![1u8, width.spec_bits(), variant_wire(variant), 0u8] + be(
                blocks@.len() as nat,
                4,
            ) + train_sha256@.take(k as int),
        decreases 32 - k,
    {
        out.push(train_sha256[k]);
        proof {
            assert(train_sha256@.take(k + 1) =~= train_sha256@.take(k as int).push(
                train_sha256@[k as int],
            ));
        }
        k = k + 1;
    }
    proof {
        assert(train_sha256@.take(32) =~= train_sha256@);
    }
    let ghost head = out@;
    let mut i: usize = 0;
    proof {
        assert(bs.take(0) =~= Seq::<Seq<u8>>::empty());
        assert(head + entries_bytes(Seq::<Seq<u8>>::empty()) =~= head);
    }
    while i < blocks.len()
        invariant
            i <= blocks@.len(),
            bs == blocks@.map_values(|v: Vec<u8>| v@),
            blocks_fit(bs, width.spec_bits() as nat),
            out@ == head + entries_bytes(bs.take(i as int)),
        decreases blocks@.len() - i,
    {
        let bloco = &blocks[i];
        proof {
            assert(bs[i as int] == bloco@);
        }
        out.push(bloco.len() as u8);
        let mut j: usize = 0;
        let ghost mid = out@;
        while j < bloco.len()
            invariant
                j <= bloco@.len(),
                out@ == mid + bloco@.take(j as int),
            decreases bloco@.len() - j,
        {
            out.push(bloco[j]);
            proof {
                assert(bloco@.take(j + 1) =~= bloco@.take(j as int).push(bloco@[j as int]));
            }
            j = j + 1;
        }
        proof {
            assert(bloco@.take(bloco@.len() as int) =~= bloco@);
            lemma_entries_append(bs.take(i as int), seq![bs[i as int]]);
            assert(bs.take(i + 1) =~= bs.take(i as int) + seq![bs[i as int]]);
            let one = seq![bs[i as int]];
            assert(one.skip(1) =~= Seq::<Seq<u8>>::empty());
            assert(entries_bytes(one.skip(1)) == Seq::<u8>::empty());
            assert(one[0] == bloco@);
            assert(entries_bytes(one) =~= seq![bloco@.len() as u8] + bloco@);
        }
        i = i + 1;
    }
    proof {
        assert(bs.take(blocks@.len() as int) =~= bs);
    }
    out
}

/// The entries of two lists of blocks, one after the other.
pub proof fn lemma_entries_append(a: Seq<Seq<u8>>, c: Seq<Seq<u8>>)
    ensures
        entries_bytes(a + c) == entries_bytes(a) + entries_bytes(c),
    decreases a.len(),
{
    if a.len() == 0 {
        assert(a + c =~= c);
        assert(entries_bytes(a) + entries_bytes(c) =~= entries_bytes(c));
    } else {
        lemma_entries_append(a.skip(1), c);
        assert((a + c).skip(1) =~= a.skip(1) + c);
        assert((a + c)[0] == a[0]);
        assert(entries_bytes(a + c) =~= entries_bytes(a) + entries_bytes(c));
    }
}

} // verus!
