use higher_core::codec::{DecodeError, Model, Symbol};
use higher_core::hgr::{Header, HEADER_BYTES};
use higher_core::model::{Variant, Width};
use higher_core::table::Table;

fn w(bits: u8) -> Width {
    Width::new(bits).expect("largura de teste válida")
}

const TREINO: &[u8] = b"a rosa e a rosa e a rosa branca, a rosa vermelha, a rosa azul. \
                        a rosa e a rosa e a rosa branca, a rosa amarela, a rosa rosa. ";

fn horiz_reduction(n_symbols: u64, input_bytes: u64) -> f64 {
    if input_bytes == 0 {
        return f64::NAN;
    }
    1.0 - n_symbols as f64 / input_bytes as f64
}

fn bits_per_byte(encoded_bytes: u64, input_bytes: u64) -> f64 {
    if input_bytes == 0 {
        return f64::NAN;
    }
    encoded_bytes as f64 * 8.0 / input_bytes as f64
}

fn escape_rate(n_escapes: u64, n_symbols: u64) -> f64 {
    if n_symbols == 0 {
        return 0.0;
    }
    n_escapes as f64 / n_symbols as f64
}

fn threshold(width: Width) -> f64 {
    let b = f64::from(width.bits());
    if width.bits() < 8 {
        b / 8.0
    } else if width.bits() == 8 {
        0.0
    } else {
        1.0 - 8.0 / b
    }
}

#[test]
fn base_8_e_identidade_byte_a_byte() {
    let modelo = Model::base8();
    let entrada: Vec<u8> = (0..=255u8).collect();
    let (fluxo, stats) = modelo.encode(&entrada).unwrap();

    assert_eq!(&fluxo[HEADER_BYTES..], &entrada[..], "payload é a entrada crua");
    assert_eq!(stats.n_symbols, 256);
    assert_eq!(stats.n_escapes, 0);
    assert!(horiz_reduction(stats.n_symbols, stats.input_bytes).abs() < 1e-12, "base-8 não reduz nada");
    assert_eq!(modelo.decode(&fluxo).unwrap(), entrada);
}

#[test]
fn base_8_m2_e_identico_a_base_8() {
    let m0 = Model::base8();
    let m2 = Model::new(Table::train_m2(w(8), TREINO));
    assert_eq!(m2.table().slots_used(), 0);
    assert_eq!(m2.run_name(), "base-8:M2");
    assert_eq!(m0.run_name(), "base-8");

    let entrada = b"qualquer coisa aqui".to_vec();
    let (f0, _) = m0.encode(&entrada).unwrap();
    let (f2, _) = m2.encode(&entrada).unwrap();
    assert_eq!(
        &f0[HEADER_BYTES..],
        &f2[HEADER_BYTES..],
        "o payload tem de ser o mesmo; só variante e table_id diferem"
    );
}

#[test]
fn o_cabecalho_entra_na_conta_de_bytes() {
    let modelo = Model::base8();
    let entrada = vec![b'x'; 10_000];
    let (fluxo, stats) = modelo.encode(&entrada).unwrap();

    assert_eq!(stats.encoded_bytes, 10_000 + HEADER_BYTES as u64);
    assert_eq!(fluxo.len(), 10_036);
    let bpb = bits_per_byte(stats.encoded_bytes, stats.input_bytes);
    assert!(bpb > 8.0, "a régua paga o cabeçalho: {}", bpb);
    assert!((bpb - 8.0288).abs() < 1e-3);
}

#[test]
fn higher_usa_o_codigo_legado_quando_nao_ha_bloco() {
    let modelo = Model::new(Table::legacy_only(w(14), Variant::M1));
    let simbolos = modelo.tokenize(b"AB");
    assert_eq!(simbolos, vec![Symbol::Code(u32::from(b'A')), Symbol::Code(u32::from(b'B'))]);
}

#[test]
fn higher_prefere_o_maior_bloco() {
    let modelo = Model::new(Table::train_m2(w(14), TREINO));
    let simbolos = modelo.tokenize(b"a rosa e a rosa");
    assert!(
        simbolos.len() < 15,
        "P-greedy devia reduzir 15 bytes a menos símbolos, deu {}",
        simbolos.len()
    );
    assert!(matches!(simbolos[0], Symbol::Code(c) if c >= 256));
}

#[test]
fn lower_escapa_o_que_a_tabela_nao_cobre() {
    let modelo = Model::new(Table::legacy_only(w(4), Variant::M1));
    let simbolos = modelo.tokenize(b"oi");
    assert_eq!(simbolos, vec![Symbol::Escape(b'o'), Symbol::Escape(b'i')]);

    let (fluxo, stats) = modelo.encode(b"oi").unwrap();
    assert_eq!(stats.n_symbols, 2);
    assert_eq!(stats.n_escapes, 2);
    assert!((escape_rate(stats.n_escapes, stats.n_symbols) - 1.0).abs() < 1e-12);
    assert_eq!(fluxo.len(), HEADER_BYTES + 3);
    assert_eq!(modelo.decode(&fluxo).unwrap(), b"oi");
}

#[test]
fn a_reducao_horizontal_e_o_limiar_da_tese() {
    let modelo = Model::new(Table::train_m2(w(14), TREINO));
    let (_, stats) = modelo.encode(TREINO).unwrap();
    let limiar = threshold(w(14));
    assert!((limiar - 0.428_571).abs() < 1e-5);
    let reducao = horiz_reduction(stats.n_symbols, stats.input_bytes);
    assert!(
        reducao > limiar,
        "no próprio corpus de treino a redução ({}) devia passar do limiar ({limiar})",
        reducao
    );
}

#[test]
fn o_cabecalho_declara_o_que_o_modelo_usou() {
    let modelo = Model::new(Table::train_m2(w(12), TREINO));
    let (fluxo, stats) = modelo.encode(TREINO).unwrap();
    let h = Header::from_bytes(&fluxo).unwrap();

    assert_eq!(h.width, w(12));
    assert_eq!(h.variant, Variant::M2);
    assert_eq!(h.flags, 0);
    assert_eq!(h.table_id, modelo.table().id8());
    assert_eq!(h.n_symbols, stats.n_symbols);
    assert_eq!(h.n_input_bytes, TREINO.len() as u64);
}

#[test]
fn decoder_rejeita_largura_e_variante_trocadas() {
    let modelo14 = Model::new(Table::train_m2(w(14), TREINO));
    let (fluxo, _) = modelo14.encode(TREINO).unwrap();

    let modelo16 = Model::new(Table::train_m2(w(16), TREINO));
    assert!(matches!(
        modelo16.decode(&fluxo),
        Err(DecodeError::WidthMismatch { expected: 14, got: 16 })
    ));

    let legado14 = Model::new(Table::legacy_only(w(14), Variant::M1));
    assert!(matches!(
        legado14.decode(&fluxo),
        Err(DecodeError::VariantMismatch { expected: 2, got: 1 })
    ));
}

#[test]
fn decoder_rejeita_n_input_bytes_mentiroso() {
    let modelo = Model::base8();
    let entrada = b"doze bytes!!".to_vec();
    let (mut fluxo, _) = modelo.encode(&entrada).unwrap();
    fluxo[31] = 99;

    assert!(matches!(
        modelo.decode(&fluxo),
        Err(DecodeError::LengthMismatch { declared: 99, got: 12 })
    ));
}

#[test]
fn decoder_rejeita_payload_maior_do_que_n_symbols_explica() {
    let modelo = Model::base8();
    let (fluxo, _) = modelo.encode(b"abc").unwrap();
    let mut inflado = fluxo.clone();
    inflado.push(0xFF);
    let crc = crc32fast::hash(&inflado[HEADER_BYTES..]);
    inflado[32..36].copy_from_slice(&crc.to_be_bytes());

    assert_eq!(modelo.decode(&inflado), Err(DecodeError::PaddingNotZero));
}

#[test]
fn entrada_vazia_produz_so_o_cabecalho() {
    for bits in [1u8, 4, 8, 14, 32] {
        let modelo = Model::new(Table::train_m2(w(bits), TREINO));
        let (fluxo, stats) = modelo.encode(b"").unwrap();
        assert_eq!(fluxo.len(), HEADER_BYTES, "b = {bits}");
        assert_eq!(stats.n_symbols, 0, "b = {bits}");
        assert!(
            bits_per_byte(stats.encoded_bytes, stats.input_bytes).is_nan(),
            "b = {bits}: 0 bytes não tem b/B"
        );
        assert_eq!(modelo.decode(&fluxo).unwrap(), Vec::<u8>::new(), "b = {bits}");
    }
}

#[test]
fn lower_escape_is_code_zero_then_the_raw_byte() {
    let modelo = Model::new(Table::legacy_only(w(4), Variant::M1));
    let (fluxo, _) = modelo.encode(b"oi").unwrap();
    // 0000 0110 1111 | 0000 0110 1001 -> 0x06 0xF0 0x69
    assert_eq!(&fluxo[HEADER_BYTES..], &[0x06, 0xF0, 0x69]);
    assert_eq!(fluxo[7], 0, "no flags");
    assert_eq!(fluxo[5], 4);
}

#[test]
fn decoder_rejects_truncated_and_unknown_codes() {
    let modelo = Model::base8();
    let (fluxo, _) = modelo.encode(b"abcd").unwrap();
    let mut curto = fluxo[..HEADER_BYTES + 2].to_vec();
    let crc = crc32fast::hash(&curto[HEADER_BYTES..]);
    curto[32..36].copy_from_slice(&crc.to_be_bytes());
    assert_eq!(
        modelo.decode(&curto),
        Err(DecodeError::Truncated { declared: 4, available: 2 })
    );

    let m14 = Model::new(Table::legacy_only(w(16), Variant::M1));
    let (f14, _) = m14.encode(b"ab").unwrap();
    let mut desconhecido = f14.clone();
    desconhecido[HEADER_BYTES] = 0x01;
    let crc = crc32fast::hash(&desconhecido[HEADER_BYTES..]);
    desconhecido[32..36].copy_from_slice(&crc.to_be_bytes());
    assert_eq!(
        m14.decode(&desconhecido),
        Err(DecodeError::UnknownCode { code: 0x0161, index: 0 })
    );
}

#[test]
fn decoder_reports_header_errors() {
    let modelo = Model::base8();
    assert!(matches!(modelo.decode(b"HGR1"), Err(DecodeError::Header(_))));
}

#[test]
fn model_reports_its_width_variant_and_table() {
    let modelo = Model::new(Table::legacy_only(w(6), Variant::M1));
    assert_eq!(modelo.width(), w(6));
    assert_eq!(modelo.variant(), Variant::M1);
    assert_eq!(modelo.table().slots_used(), 0);
    assert_eq!(modelo.run_name(), "lower-6:M1");
}

#[test]
fn header_carries_the_crc_of_the_payload() {
    let modelo = Model::new(Table::train_m2(w(11), TREINO));
    let (fluxo, stats) = modelo.encode(b"a rosa branca").unwrap();
    let crc = crc32fast::hash(&fluxo[HEADER_BYTES..]);
    assert_eq!(&fluxo[32..36], &crc.to_be_bytes());
    assert_eq!(stats.header_bytes, 36);
    let copia = modelo.clone();
    assert_eq!(copia.decode(&fluxo).unwrap(), b"a rosa branca");
    assert_eq!(copia.table().id(), modelo.table().id());
}

#[test]
fn crc_field_is_the_ieee_crc32_of_the_payload() {
    // In base-8 the payload is the input; CRC-32 (IEEE) of "123456789" is 0xCBF43926.
    let modelo = Model::base8();
    let (stream, _) = modelo.encode(b"123456789").unwrap();
    assert_eq!(&stream[HEADER_BYTES..], b"123456789");
    assert_eq!(&stream[32..36], &[0xCB, 0xF4, 0x39, 0x26]);
}

#[test]
fn every_single_byte_change_of_the_payload_is_caught() {
    let modelo = Model::new(Table::train_m2(w(12), TREINO));
    let (stream, _) = modelo.encode(TREINO).unwrap();
    for i in HEADER_BYTES..stream.len() {
        for d in [1u8, 0x80, 0xFF] {
            let mut torto = stream.clone();
            torto[i] ^= d;
            match modelo.decode(&torto) {
                Err(DecodeError::CrcMismatch { expected, got }) => assert_ne!(expected, got),
                outro => panic!("byte {i}: {outro:?}"),
            }
        }
    }
}
