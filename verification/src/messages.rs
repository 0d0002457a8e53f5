//! Human-readable messages of the errors, built as verified strings.

use vstd::prelude::*;
use vstd::string::*;
use crate::codec::{DecodeError, EncodeError};
use crate::hgr::{HeaderError, HEADER_BYTES};
use crate::model::{WidthOutOfRange, decimal, digit_char};
use crate::packing::{PackError, UnpackError, max_value, max_value_of};
use crate::table::TableError;

verus! {

/// Lowercase hexadecimal digit of `d < 16`.
pub open spec fn hex_digit(d: nat) -> char {
    if d < 10 {
        (48 + d) as char
    } else {
        (87 + d) as char
    }
}

/// The `k` low hexadecimal digits of `n`, most significant first.
pub open spec fn hex_of(n: nat, k: nat) -> Seq<char>
    decreases k,
{
    if k == 0 {
        Seq::<char>::empty()
    } else {
        hex_of(n / 16, (k - 1) as nat).push(hex_digit(n % 16))
    }
}

/// The `k` low binary digits of `n`, most significant first.
pub open spec fn bin_of(n: nat, k: nat) -> Seq<char>
    decreases k,
{
    if k == 0 {
        Seq::<char>::empty()
    } else {
        bin_of(n / 2, (k - 1) as nat).push(if n % 2 == 1 {
            '1'
        } else {
            '0'
        })
    }
}

/// Items separated by `", "`.
pub open spec fn joined(items: Seq<Seq<char>>) -> Seq<char>
    decreases items.len(),
{
    if items.len() == 0 {
        Seq::<char>::empty()
    } else if items.len() == 1 {
        items[0]
    } else {
        joined(items.drop_last()) + seq![',', ' '] + items.last()
    }
}

/// A byte list as `[72, 84, 66, 49]`.
pub open spec fn decimal_list(bytes: Seq<u8>) -> Seq<char> {
    seq!['['] + joined(bytes.map_values(|x: u8| decimal(x as nat))) + seq![']']
}

/// A byte list as `[11, 2a, ff]`: two lowercase hexadecimal digits each.
pub open spec fn hex_list(bytes: Seq<u8>) -> Seq<char> {
    seq!['['] + joined(bytes.map_values(|x: u8| hex_of(x as nat, 2))) + seq![']']
}

/// `0x` and the `k` low hexadecimal digits of `n`.
pub open spec fn prefixed_hex(n: nat, k: nat) -> Seq<char> {
    seq!['0', 'x'] + hex_of(n, k)
}

/// One digit, as a string.
fn digit(d: u8) -> (r: &'static str)
    requires
        d < 16,
    ensures
        r@ == seq![hex_digit(d as nat)],
{
    proof {
        reveal_strlit("0");
        reveal_strlit("1");
        reveal_strlit("2");
        reveal_strlit("3");
        reveal_strlit("4");
        reveal_strlit("5");
        reveal_strlit("6");
        reveal_strlit("7");
        reveal_strlit("8");
        reveal_strlit("9");
        reveal_strlit("a");
        reveal_strlit("b");
        reveal_strlit("c");
        reveal_strlit("d");
        reveal_strlit("e");
        reveal_strlit("f");
    }
    match d {
        0 => "0",
        1 => "1",
        2 => "2",
        3 => "3",
        4 => "4",
        5 => "5",
        6 => "6",
        7 => "7",
        8 => "8",
        9 => "9",
        10 => "a",
        11 => "b",
        12 => "c",
        13 => "d",
        14 => "e",
        _ => "f",
    }
}

/// Appends the decimal writing of `n`.
fn push_dec(s: &mut String, n: u64)
    ensures
        final(s)@ == old(s)@ + decimal(n as nat),
    decreases n,
{
    if n < 10 {
        s.append(digit(n as u8));
        proof {
            assert(digit_char(n as nat) == hex_digit(n as nat));
        }
    } else {
        push_dec(s, n / 10);
        s.append(digit((n % 10) as u8));
        proof {
            assert(digit_char((n % 10) as nat) == hex_digit((n % 10) as nat));
            assert(decimal(n as nat) == decimal((n / 10) as nat) + seq![digit_char((n % 10) as nat)]);
        }
    }
}

/// Appends the `k` low hexadecimal digits of `n`.
fn push_hex(s: &mut String, n: u64, k: u32)
    ensures
        final(s)@ == old(s)@ + hex_of(n as nat, k as nat),
    decreases k,
{
    if k > 0 {
        push_hex(s, n / 16, k - 1);
        s.append(digit((n % 16) as u8));
    }
}

/// Appends the `k` low binary digits of `n`.
fn push_bin(s: &mut String, n: u64, k: u32)
    ensures
        final(s)@ == old(s)@ + bin_of(n as nat, k as nat),
    decreases k,
{
    if k > 0 {
        push_bin(s, n / 2, k - 1);
        s.append(digit((n % 2) as u8));
    }
}

/// Appends the bytes as a list, each in decimal or in two hexadecimal digits.
fn push_list(s: &mut String, bytes: &[u8], in_hex: bool)
    ensures
        final(s)@ == old(s)@ + if in_hex {
            hex_list(bytes@)
        } else {
            decimal_list(bytes@)
        },
{
    let ghost start = s@;
    let ghost items = if in_hex {
        bytes@.map_values(|x: u8| hex_of(x as nat, 2))
    } else {
        bytes@.map_values(|x: u8| decimal(x as nat))
    };
    proof {
        reveal_strlit("[");
        reveal_strlit("]");
        reveal_strlit(", ");
    }
    s.append("[");
    let mut i: usize = 0;
    proof {
        assert(items.take(0) =~= Seq::<Seq<char>>::empty());
    }
    while i < bytes.len()
        invariant
            i <= bytes@.len(),
            items.len() == bytes@.len(),
            items == if in_hex {
                bytes@.map_values(|x: u8| hex_of(x as nat, 2))
            } else {
                bytes@.map_values(|x: u8| decimal(x as nat))
            },
            s@ == start + seq!['['] + joined(items.take(i as int)),
        decreases bytes@.len() - i,
    {
        let ghost before = s@;
        proof {
            reveal_strlit(", ");
        }
        if i > 0 {
            s.append(", ");
        }
        if in_hex {
            push_hex(s, bytes[i] as u64, 2);
        } else {
            push_dec(s, bytes[i] as u64);
        }
        proof {
            assert(items.take(i + 1).drop_last() =~= items.take(i as int));
            assert(items[i as int] == if in_hex {
                hex_of(bytes@[i as int] as nat, 2)
            } else {
                decimal(bytes@[i as int] as nat)
            });
            if i == 0 {
                assert(s@ =~= start + seq!['['] + joined(items.take(1)));
            } else {
                assert(s@ =~= start + seq!['['] + joined(items.take(i + 1)));
            }
        }
        i = i + 1;
    }
    s.append("]");
    proof {
        assert(items.take(bytes@.len() as int) =~= items);
    }
}

/// Message of a [`WidthOutOfRange`].
pub open spec fn width_error_text(e: WidthOutOfRange) -> Seq<char> {
    "largura de símbolo "@ + decimal(e.bits as nat) + " fora da faixa 1..=32"@
}

impl WidthOutOfRange {
    /// The message of the error.
    pub fn message(&self) -> (r: String)
        ensures
            r@ == width_error_text(*self),
    {
        let mut s = String::from_str("largura de símbolo ");
        push_dec(&mut s, self.bits as u64);
        s.append(" fora da faixa 1..=32");
        s
    }
}

/// Message of a [`PackError`].
pub open spec fn pack_error_text(e: PackError) -> Seq<char> {
    match e {
        PackError::ValueTooWide { index, value, bits } => "valor "@ + decimal(value as nat)
            + " na posição "@ + decimal(index as nat) + " não cabe em "@ + decimal(bits as nat)
            + " bits (máximo "@ + decimal(max_value_of(bits as nat)) + ")"@,
    }
}

impl PackError {
    /// The message of the error.
    pub fn message(&self) -> (r: String)
        ensures
            r@ == pack_error_text(*self),
    {
        match *self {
            PackError::ValueTooWide { index, value, bits } => {
                let mut s = String::from_str("valor ");
                push_dec(&mut s, value as u64);
                s.append(" na posição ");
                push_dec(&mut s, index as u64);
                s.append(" não cabe em ");
                push_dec(&mut s, bits as u64);
                s.append(" bits (máximo ");
                push_dec(&mut s, max_value(bits) as u64);
                s.append(")");
                s
            },
        }
    }
}

/// Message of an [`UnpackError`].
pub open spec fn unpack_error_text(e: UnpackError) -> Seq<char> {
    match e {
        UnpackError::Truncated { expected_bytes, got_bytes } => "fluxo truncado: "@ + decimal(
            expected_bytes as nat,
        ) + " bytes esperados, "@ + decimal(got_bytes as nat) + " recebidos"@,
        UnpackError::TrailingBytes { expected_bytes, got_bytes } => "bytes sobrando: "@ + decimal(
            expected_bytes as nat,
        ) + " bytes esperados, "@ + decimal(got_bytes as nat) + " recebidos"@,
        UnpackError::PaddingNotZero { padding_bits, last_byte } => "completamento de "@ + decimal(
            padding_bits as nat,
        ) + " bits não é zero no último byte "@ + prefixed_hex(last_byte as nat, 2),
    }
}

impl UnpackError {
    /// The message of the error.
    pub fn message(&self) -> (r: String)
        ensures
            r@ == unpack_error_text(*self),
    {
        proof {
            reveal_strlit("0x");
        }
        match *self {
            UnpackError::Truncated { expected_bytes, got_bytes } => {
                let mut s = String::from_str("fluxo truncado: ");
                push_dec(&mut s, expected_bytes as u64);
                s.append(" bytes esperados, ");
                push_dec(&mut s, got_bytes as u64);
                s.append(" recebidos");
                s
            },
            UnpackError::TrailingBytes { expected_bytes, got_bytes } => {
                let mut s = String::from_str("bytes sobrando: ");
                push_dec(&mut s, expected_bytes as u64);
                s.append(" bytes esperados, ");
                push_dec(&mut s, got_bytes as u64);
                s.append(" recebidos");
                s
            },
            UnpackError::PaddingNotZero { padding_bits, last_byte } => {
                let mut s = String::from_str("completamento de ");
                push_dec(&mut s, padding_bits as u64);
                s.append(" bits não é zero no último byte ");
                s.append("0x");
                push_hex(&mut s, last_byte as u64, 2);
                proof {
                    assert(s@ =~= unpack_error_text(*self));
                }
                s
            },
        }
    }
}

/// Message of a [`HeaderError`].
pub open spec fn header_error_text(e: HeaderError) -> Seq<char> {
    match e {
        HeaderError::TooShort { got } => "fluxo com "@ + decimal(got as nat)
            + " bytes, menor que o cabeçalho de "@ + decimal(HEADER_BYTES as nat),
        HeaderError::BadMagic { got } => "magic inválido: "@ + decimal_list(got@) + ", esperado HGR1"@,
        HeaderError::BadVersion { got } => "versão de fluxo desconhecida: "@ + decimal(got as nat),
        HeaderError::BadWidth { got } => "largura inválida no cabeçalho: "@ + decimal(got as nat),
        HeaderError::BadVariant { got } => "variante inválida no cabeçalho: "@ + decimal(got as nat),
    }
}

impl HeaderError {
    /// The message of the error.
    pub fn message(&self) -> (r: String)
        ensures
            r@ == header_error_text(*self),
    {
        match *self {
            HeaderError::TooShort { got } => {
                let mut s = String::from_str("fluxo com ");
                push_dec(&mut s, got as u64);
                s.append(" bytes, menor que o cabeçalho de ");
                push_dec(&mut s, HEADER_BYTES as u64);
                s
            },
            HeaderError::BadMagic { got } => {
                let mut s = String::from_str("magic inválido: ");
                push_list(&mut s, &got, false);
                s.append(", esperado HGR1");
                s
            },
            HeaderError::BadVersion { got } => {
                let mut s = String::from_str("versão de fluxo desconhecida: ");
                push_dec(&mut s, got as u64);
                s
            },
            HeaderError::BadWidth { got } => {
                let mut s = String::from_str("largura inválida no cabeçalho: ");
                push_dec(&mut s, got as u64);
                s
            },
            HeaderError::BadVariant { got } => {
                let mut s = String::from_str("variante inválida no cabeçalho: ");
                push_dec(&mut s, got as u64);
                s
            },
        }
    }
}

/// Message of a [`TableError`].
pub open spec fn table_error_text(e: TableError) -> Seq<char> {
    match e {
        TableError::BadMagic { got } => "magic de tabela inválido: "@ + decimal_list(got@)
            + ", esperado HTB1"@,
        TableError::BadVersion { got } => "versão de tabela desconhecida: "@ + decimal(got as nat),
        TableError::BadWidth { got } => "largura de tabela inválida: "@ + decimal(got as nat),
        TableError::BadVariant { got } => "variante de tabela inválida: "@ + decimal(got as nat),
        TableError::Truncated { offset } => "tabela truncada no offset "@ + decimal(offset as nat),
        TableError::TrailingBytes { extra } => decimal(extra as nat) + " bytes sobrando na tabela"@,
        TableError::TooManyEntries { declared, available } => "tabela declara "@ + decimal(
            declared as nat,
        ) + " entradas mas a largura só tem "@ + decimal(available as nat) + " slots"@,
        TableError::EmptyEntry { index } => "entrada "@ + decimal(index as nat)
            + " tem comprimento zero"@,
    }
}

impl TableError {
    /// The message of the error.
    pub fn message(&self) -> (r: String)
        ensures
            r@ == table_error_text(*self),
    {
        match *self {
            TableError::BadMagic { got } => {
                let mut s = String::from_str("magic de tabela inválido: ");
                push_list(&mut s, &got, false);
                s.append(", esperado HTB1");
                s
            },
            TableError::BadVersion { got } => {
                let mut s = String::from_str("versão de tabela desconhecida: ");
                push_dec(&mut s, got as u64);
                s
            },
            TableError::BadWidth { got } => {
                let mut s = String::from_str("largura de tabela inválida: ");
                push_dec(&mut s, got as u64);
                s
            },
            TableError::BadVariant { got } => {
                let mut s = String::from_str("variante de tabela inválida: ");
                push_dec(&mut s, got as u64);
                s
            },
            TableError::Truncated { offset } => {
                let mut s = String::from_str("tabela truncada no offset ");
                push_dec(&mut s, offset as u64);
                s
            },
            TableError::TrailingBytes { extra } => {
                let mut s = String::new();
                push_dec(&mut s, extra as u64);
                s.append(" bytes sobrando na tabela");
                s
            },
            TableError::TooManyEntries { declared, available } => {
                let mut s = String::from_str("tabela declara ");
                push_dec(&mut s, declared);
                s.append(" entradas mas a largura só tem ");
                push_dec(&mut s, available);
                s.append(" slots");
                s
            },
            TableError::EmptyEntry { index } => {
                let mut s = String::from_str("entrada ");
                push_dec(&mut s, index as u64);
                s.append(" tem comprimento zero");
                s
            },
        }
    }
}

/// Message of an [`EncodeError`].
pub open spec fn encode_error_text(e: EncodeError) -> Seq<char> {
    match e {
        EncodeError::InputTooLarge { got } => "entrada de "@ + decimal(got as nat)
            + " bytes não cabe no cabeçalho"@,
        EncodeError::Packing(p) => "erro de packing ao codificar: "@ + pack_error_text(p),
    }
}

impl EncodeError {
    /// The message of the error.
    pub fn message(&self) -> (r: String)
        ensures
            r@ == encode_error_text(*self),
    {
        match *self {
            EncodeError::InputTooLarge { got } => {
                let mut s = String::from_str("entrada de ");
                push_dec(&mut s, got as u64);
                s.append(" bytes não cabe no cabeçalho");
                s
            },
            EncodeError::Packing(p) => {
                let mut s = String::from_str("erro de packing ao codificar: ");
                let m = p.message();
                s.append(m.as_str());
                s
            },
        }
    }
}

/// Message of a [`DecodeError`].
pub open spec fn decode_error_text(e: DecodeError) -> Seq<char> {
    match e {
        DecodeError::Header(h) => "cabeçalho inválido: "@ + header_error_text(h),
        DecodeError::TableMismatch { expected, got } => "fluxo escrito com outra tabela: cabeçalho pede "@
            + hex_list(expected@) + ", tabela é "@ + hex_list(got@),
        DecodeError::WidthMismatch { expected, got } => "cabeçalho declara b="@ + decimal(
            expected as nat,
        ) + ", tabela é b="@ + decimal(got as nat),
        DecodeError::VariantMismatch { expected, got } => "cabeçalho declara variante "@ + decimal(
            expected as nat,
        ) + ", tabela é "@ + decimal(got as nat),
        DecodeError::CrcMismatch { expected, got } => "crc32 do payload não bate: esperado "@
            + prefixed_hex(expected as nat, 8) + ", calculado "@ + prefixed_hex(got as nat, 8),
        DecodeError::Truncated { declared, available } => "fluxo truncado: "@ + decimal(
            declared as nat,
        ) + " símbolos declarados, "@ + decimal(available as nat) + " disponíveis"@,
        DecodeError::UnknownCode { code, index } => "código "@ + decimal(code as nat) + " do símbolo "@
            + decimal(index as nat) + " não existe na tabela"@,
        DecodeError::LengthMismatch { declared, got } => "cabeçalho declara "@ + decimal(
            declared as nat,
        ) + " bytes de entrada, decode produziu "@ + decimal(got as nat),
        DecodeError::PaddingNotZero => "bits de completamento do último byte não são zero"@,
        DecodeError::UnsupportedFlags { flags } => "flags "@ + seq!['0', 'b'] + bin_of(flags as nat, 8)
            + " pedem recurso não implementado nesta etapa"@,
    }
}

impl DecodeError {
    /// The message of the error.
    pub fn message(&self) -> (r: String)
        ensures
            r@ == decode_error_text(*self),
    {
        proof {
            reveal_strlit("0x");
            reveal_strlit("0b");
        }
        match *self {
            DecodeError::Header(h) => {
                let mut s = String::from_str("cabeçalho inválido: ");
                let m = h.message();
                s.append(m.as_str());
                s
            },
            DecodeError::TableMismatch { expected, got } => {
                let mut s = String::from_str("fluxo escrito com outra tabela: cabeçalho pede ");
                push_list(&mut s, &expected, true);
                s.append(", tabela é ");
                push_list(&mut s, &got, true);
                s
            },
            DecodeError::WidthMismatch { expected, got } => {
                let mut s = String::from_str("cabeçalho declara b=");
                push_dec(&mut s, expected as u64);
                s.append(", tabela é b=");
                push_dec(&mut s, got as u64);
                s
            },
            DecodeError::VariantMismatch { expected, got } => {
                let mut s = String::from_str("cabeçalho declara variante ");
                push_dec(&mut s, expected as u64);
                s.append(", tabela é ");
                push_dec(&mut s, got as u64);
                s
            },
            DecodeError::CrcMismatch { expected, got } => {
                let mut s = String::from_str("crc32 do payload não bate: esperado ");
                s.append("0x");
                push_hex(&mut s, expected as u64, 8);
                s.append(", calculado ");
                s.append("0x");
                push_hex(&mut s, got as u64, 8);
                proof {
                    assert(s@ =~= decode_error_text(*self));
                }
                s
            },
            DecodeError::Truncated { declared, available } => {
                let mut s = String::from_str("fluxo truncado: ");
                push_dec(&mut s, declared);
                s.append(" símbolos declarados, ");
                push_dec(&mut s, available);
                s.append(" disponíveis");
                s
            },
            DecodeError::UnknownCode { code, index } => {
                let mut s = String::from_str("código ");
                push_dec(&mut s, code as u64);
                s.append(" do símbolo ");
                push_dec(&mut s, index);
                s.append(" não existe na tabela");
                s
            },
            DecodeError::LengthMismatch { declared, got } => {
                let mut s = String::from_str("cabeçalho declara ");
                push_dec(&mut s, declared);
                s.append(" bytes de entrada, decode produziu ");
                push_dec(&mut s, got);
                s
            },
            DecodeError::PaddingNotZero => String::from_str(
                "bits de completamento do último byte não são zero",
            ),
            DecodeError::UnsupportedFlags { flags } => {
                let mut s = String::from_str("flags ");
                s.append("0b");
                push_bin(&mut s, flags as u64, 8);
                s.append(" pedem recurso não implementado nesta etapa");
                proof {
                    assert(s@ =~= decode_error_text(*self));
                }
                s
            },
        }
    }
}

} // verus!
