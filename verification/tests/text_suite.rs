use higher_core::codec::{DecodeError, EncodeError};
use higher_core::hgr::HeaderError;
use higher_core::model::{Variant, Width};
use higher_core::packing::{max_value, PackError, UnpackError};
use higher_core::table::TableError;

#[test]
fn width_error_names_the_range() {
    let e = Width::new(33).unwrap_err();
    assert_eq!(e.message(), format!("largura de símbolo {} fora da faixa {}..={}", 33, 1, 32));
}

#[test]
fn pack_error_names_value_index_and_maximum() {
    let e = PackError::ValueTooWide { index: 2, value: 4, bits: 2 };
    assert_eq!(
        e.message(),
        format!("valor {} na posição {} não cabe em {} bits (máximo {})", 4, 2, 2, max_value(2))
    );
    assert_eq!(e.message(), "valor 4 na posição 2 não cabe em 2 bits (máximo 3)");
    let big = PackError::ValueTooWide { index: 7, value: u32::MAX, bits: 31 };
    assert_eq!(
        big.message(),
        format!("valor {} na posição {} não cabe em {} bits (máximo {})", u32::MAX, 7, 31, max_value(31))
    );
}

#[test]
fn unpack_errors_use_decimal_and_hex() {
    let t = UnpackError::Truncated { expected_bytes: 3, got_bytes: 2 };
    assert_eq!(t.message(), "fluxo truncado: 3 bytes esperados, 2 recebidos");
    let s = UnpackError::TrailingBytes { expected_bytes: 3, got_bytes: 4 };
    assert_eq!(s.message(), "bytes sobrando: 3 bytes esperados, 4 recebidos");
    let p = UnpackError::PaddingNotZero { padding_bits: 4, last_byte: 0xCF };
    assert_eq!(
        p.message(),
        format!("completamento de {} bits não é zero no último byte {:#04x}", 4, 0xCFu8)
    );
    let q = UnpackError::PaddingNotZero { padding_bits: 1, last_byte: 0x05 };
    assert_eq!(q.message(), format!("completamento de {} bits não é zero no último byte {:#04x}", 1, 0x05u8));
}

#[test]
fn header_errors_list_the_magic_bytes() {
    let got = *b"XGR1";
    assert_eq!(
        HeaderError::BadMagic { got }.message(),
        format!("magic inválido: {got:?}, esperado HGR1")
    );
    assert_eq!(
        HeaderError::TooShort { got: 35 }.message(),
        "fluxo com 35 bytes, menor que o cabeçalho de 36"
    );
    assert_eq!(HeaderError::BadVersion { got: 2 }.message(), "versão de fluxo desconhecida: 2");
    assert_eq!(HeaderError::BadWidth { got: 0 }.message(), "largura inválida no cabeçalho: 0");
    assert_eq!(HeaderError::BadVariant { got: 255 }.message(), "variante inválida no cabeçalho: 255");
}

#[test]
fn table_errors_read_as_sentences() {
    let got = *b"HTB2";
    assert_eq!(
        TableError::BadMagic { got }.message(),
        format!("magic de tabela inválido: {got:?}, esperado HTB1")
    );
    assert_eq!(TableError::BadVersion { got: 99 }.message(), "versão de tabela desconhecida: 99");
    assert_eq!(TableError::BadWidth { got: 33 }.message(), "largura de tabela inválida: 33");
    assert_eq!(TableError::BadVariant { got: 3 }.message(), "variante de tabela inválida: 3");
    assert_eq!(TableError::Truncated { offset: 45 }.message(), "tabela truncada no offset 45");
    assert_eq!(TableError::TrailingBytes { extra: 1 }.message(), "1 bytes sobrando na tabela");
    assert_eq!(
        TableError::TooManyEntries { declared: 2, available: 1 }.message(),
        "tabela declara 2 entradas mas a largura só tem 1 slots"
    );
    assert_eq!(TableError::EmptyEntry { index: 0 }.message(), "entrada 0 tem comprimento zero");
}

#[test]
fn decode_errors_format_ids_crc_and_flags() {
    let expected = [0x11u8, 0x22, 0x33, 0x44, 0x55, 0x66, 0x77, 0x88];
    let got = [0u8, 1, 2, 3, 4, 5, 6, 0xAB];
    assert_eq!(
        DecodeError::TableMismatch { expected, got }.message(),
        format!("fluxo escrito com outra tabela: cabeçalho pede {expected:02x?}, tabela é {got:02x?}")
    );
    let (e, g) = (0xDEAD_BEEFu32, 1u32);
    assert_eq!(
        DecodeError::CrcMismatch { expected: e, got: g }.message(),
        format!("crc32 do payload não bate: esperado {e:#010x}, calculado {g:#010x}")
    );
    let flags = 0b1000_0000u8;
    assert_eq!(
        DecodeError::UnsupportedFlags { flags }.message(),
        format!("flags {flags:#010b} pedem recurso não implementado nesta etapa")
    );
    assert_eq!(
        DecodeError::WidthMismatch { expected: 14, got: 16 }.message(),
        "cabeçalho declara b=14, tabela é b=16"
    );
    assert_eq!(
        DecodeError::VariantMismatch { expected: 2, got: 1 }.message(),
        "cabeçalho declara variante 2, tabela é 1"
    );
    assert_eq!(
        DecodeError::Truncated { declared: 4, available: 2 }.message(),
        "fluxo truncado: 4 símbolos declarados, 2 disponíveis"
    );
    assert_eq!(
        DecodeError::UnknownCode { code: 353, index: 0 }.message(),
        "código 353 do símbolo 0 não existe na tabela"
    );
    assert_eq!(
        DecodeError::LengthMismatch { declared: 99, got: 12 }.message(),
        "cabeçalho declara 99 bytes de entrada, decode produziu 12"
    );
    assert_eq!(
        DecodeError::PaddingNotZero.message(),
        "bits de completamento do último byte não são zero"
    );
    assert_eq!(
        DecodeError::Header(HeaderError::TooShort { got: 0 }).message(),
        "cabeçalho inválido: fluxo com 0 bytes, menor que o cabeçalho de 36"
    );
}

#[test]
fn encode_errors_wrap_the_packing_message() {
    let p = PackError::ValueTooWide { index: 2, value: 4, bits: 2 };
    assert_eq!(
        EncodeError::Packing(p).message(),
        format!("erro de packing ao codificar: {}", p.message())
    );
    assert_eq!(
        EncodeError::InputTooLarge { got: 10 }.message(),
        "entrada de 10 bytes não cabe no cabeçalho"
    );
    assert_eq!(Variant::M2.name(), "M2");
}

#[test]
fn errors_convert_into_their_wrappers() {
    let p = PackError::ValueTooWide { index: 0, value: 9, bits: 3 };
    let e: EncodeError = p.into();
    assert_eq!(e, EncodeError::Packing(p));
    let h = HeaderError::BadVersion { got: 7 };
    let d: DecodeError = h.into();
    assert_eq!(d, DecodeError::Header(h));
}
