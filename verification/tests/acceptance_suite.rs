use higher_core::codec::{DecodeError, Model};
use higher_core::hgr::{Header, HEADER_BYTES};
use higher_core::model::{all_widths, Band, Variant, Width};
use higher_core::table::{Table, TableError};

const SEED: u64 = 42;

struct SplitMix64(u64);

impl SplitMix64 {
    fn next_u64(&mut self) -> u64 {
        self.0 = self.0.wrapping_add(0x9E37_79B9_7F4A_7C15);
        let mut z = self.0;
        z = (z ^ (z >> 30)).wrapping_mul(0xBF58_476D_1CE4_E5B9);
        z = (z ^ (z >> 27)).wrapping_mul(0x94D0_49BB_1331_11EB);
        z ^ (z >> 31)
    }

    fn byte(&mut self) -> u8 {
        self.next_u64() as u8
    }
}

fn corpus_treino() -> Vec<u8> {
    let mut v = Vec::new();
    for i in 0..200 {
        v.extend_from_slice(b"GET /api/runs?bits=14&variant=M2 HTTP/1.1 200 OK\n");
        v.extend_from_slice(b"{\"model\":\"higher-14\",\"ok\":true,\"seed\":42}\n");
        v.extend_from_slice(format!("2026-09-18T07:{:02}:00Z INFO encode done\n", i % 60).as_bytes());
    }
    v
}

fn corpus_teste() -> Vec<u8> {
    let mut v = Vec::new();
    for i in 0..150 {
        v.extend_from_slice(b"POST /api/import?env=native HTTP/1.1 201 CREATED\n");
        v.extend_from_slice(b"{\"model\":\"higher-16\",\"ok\":false,\"seed\":7}\n");
        v.extend_from_slice(format!("2026-09-19T21:{:02}:30Z WARN decode slow\n", i % 60).as_bytes());
    }
    v
}

fn entradas_de_borda() -> Vec<(&'static str, Vec<u8>)> {
    let mut rng = SplitMix64(SEED);
    let mut casos: Vec<(&'static str, Vec<u8>)> = vec![
        ("vazio", Vec::new()),
        ("um byte 0x00", vec![0x00]),
        ("um byte 0xFF", vec![0xFF]),
        ("os 256 bytes", (0..=255u8).collect()),
        ("os 256 bytes invertidos", (0..=255u8).rev().collect()),
        ("tudo zero, 1000", vec![0u8; 1000]),
        ("tudo 0xFF, 1000", vec![0xFFu8; 1000]),
        ("corpus de teste", corpus_teste()),
    ];
    casos.push(("fuzz 4096 bytes", (0..4096).map(|_| rng.byte()).collect()));
    casos.push((
        "fuzz de alfabeto restrito",
        (0..4096).map(|_| b"ACGT"[(rng.byte() % 4) as usize]).collect(),
    ));
    casos
}

fn m2_da_largura(w: Width) -> Table {
    Table::train_m2(w, &corpus_treino())
}

fn modelos_da_largura(w: Width) -> Vec<(&'static str, Model)> {
    vec![
        ("legacy_only", Model::new(Table::legacy_only(w, Variant::M1))),
        ("M2 treinada", Model::new(m2_da_largura(w))),
    ]
}

fn horiz_reduction(n_symbols: u64, input_bytes: u64) -> f64 {
    if input_bytes == 0 {
        return f64::NAN;
    }
    1.0 - n_symbols as f64 / input_bytes as f64
}

#[test]
fn roundtrip_em_toda_largura_e_toda_entrada_de_borda() {
    let casos = entradas_de_borda();

    for w in all_widths() {
        let b = w.bits();
        for (nome_tab, modelo) in modelos_da_largura(w) {
            for (nome_caso, entrada) in &casos {
                let (fluxo, stats) = modelo
                    .encode(entrada)
                    .unwrap_or_else(|e| panic!("encode falhou em b={b} {nome_tab} {nome_caso}: {e:?}"));

                assert_eq!(stats.input_bytes, entrada.len() as u64);
                assert_eq!(stats.header_bytes, HEADER_BYTES as u64);
                assert_eq!(stats.encoded_bytes, fluxo.len() as u64);

                let voltou = modelo
                    .decode(&fluxo)
                    .unwrap_or_else(|e| panic!("decode falhou em b={b} {nome_tab} {nome_caso}: {e:?}"));
                assert_eq!(&voltou, entrada, "b={b} {nome_tab} {nome_caso}");

                if nome_tab == "M2 treinada" && *nome_caso == "corpus de teste" && w.band() == Band::Higher {
                    assert!(
                        horiz_reduction(stats.n_symbols, stats.input_bytes) > 0.0,
                        "b={b}: a M2 não reduziu símbolo nenhum — a trie não está casando"
                    );
                    assert!(
                        stats.n_symbols < entrada.len() as u64,
                        "b={b}: n_symbols não caiu abaixo do número de bytes"
                    );
                }
            }
        }
    }
}

#[test]
fn treino_e_teste_sao_disjuntos_neste_arquivo() {
    let treino = corpus_treino();
    let teste = corpus_teste();
    assert_ne!(treino, teste);
    assert!(!treino.windows(48).any(|w| teste.windows(48).any(|t| t == w)));
}

#[test]
fn decoder_rejeita_table_id_errado_com_erro_tipado() {
    let entrada = corpus_teste();

    for w in all_widths() {
        let b = w.bits();
        let certo = Model::new(m2_da_largura(w));
        let outro = Model::new(Table::train_m2(w, b"um corpus de treino completamente diferente "));
        assert_ne!(certo.table().id(), outro.table().id(), "b={b}");

        let (fluxo, _) = certo.encode(&entrada).unwrap();
        match outro.decode(&fluxo) {
            Err(DecodeError::TableMismatch { expected, got }) => {
                assert_eq!(expected, certo.table().id8(), "b={b}");
                assert_eq!(got, outro.table().id8(), "b={b}");
            }
            outro_resultado => {
                panic!("b={b}: esperado TableMismatch, veio {outro_resultado:?}")
            }
        }
    }
}

#[test]
fn decoder_rejeita_crc_invalido_com_erro_tipado() {
    let entrada = corpus_teste();

    for w in all_widths() {
        let b = w.bits();
        let modelo = Model::new(m2_da_largura(w));
        let (fluxo, _) = modelo.encode(&entrada).unwrap();
        assert!(fluxo.len() > HEADER_BYTES, "b={b}: payload vazio");

        let mut corrompido = fluxo.clone();
        corrompido[HEADER_BYTES] ^= 0b0000_0001;
        match modelo.decode(&corrompido) {
            Err(DecodeError::CrcMismatch { expected, got }) => {
                assert_ne!(expected, got, "b={b}");
            }
            outro => panic!("b={b}: esperado CrcMismatch, veio {outro:?}"),
        }

        let mut crc_torto = fluxo.clone();
        crc_torto[35] ^= 0xFF;
        assert!(
            matches!(modelo.decode(&crc_torto), Err(DecodeError::CrcMismatch { .. })),
            "b={b}: crc adulterado no cabeçalho devia falhar"
        );
    }
}

#[test]
fn decoder_nao_entra_em_panico_com_fluxo_arbitrario() {
    let mut rng = SplitMix64(SEED ^ 0xDEAD);

    for w in all_widths() {
        let modelo = Model::new(m2_da_largura(w));
        let (valido, _) = modelo.encode(&corpus_teste()).unwrap();

        for _ in 0..200 {
            let n = usize::try_from(rng.next_u64() % 200).unwrap();
            let lixo: Vec<u8> = (0..n).map(|_| rng.byte()).collect();
            let _ = modelo.decode(&lixo);

            let mut mutante = valido.clone();
            if !mutante.is_empty() {
                let pos = usize::try_from(rng.next_u64() % mutante.len() as u64).unwrap();
                mutante[pos] ^= rng.byte();
                let _ = modelo.decode(&mutante);
            }

            let corte = usize::try_from(rng.next_u64() % (valido.len() as u64 + 1)).unwrap();
            let _ = modelo.decode(&valido[..corte]);
        }
    }
}

#[test]
fn tabela_serializada_faz_roundtrip_e_preserva_o_id() {
    for w in all_widths() {
        let b = w.bits();
        for antes in [Table::legacy_only(w, Variant::M1), m2_da_largura(w)] {
            let bytes = antes.as_bytes().to_vec();
            let lida = Table::from_bytes(&bytes).unwrap_or_else(|e| panic!("b={b}: {e:?}"));

            assert_eq!(lida.width(), antes.width(), "b={b}");
            assert_eq!(lida.variant(), antes.variant(), "b={b}");
            assert_eq!(lida.slots_used(), antes.slots_used(), "b={b}");
            assert_eq!(lida.train_sha256(), antes.train_sha256(), "b={b}");
            assert_eq!(lida.id(), antes.id(), "b={b}: table_id mudou no roundtrip");
            assert_eq!(lida.as_bytes(), antes.as_bytes(), "b={b}");
        }
    }
}

#[test]
fn tabela_rejeita_artefato_invalido_com_erro_tipado() {
    let w = Width::new(14).unwrap();
    let bytes = m2_da_largura(w).as_bytes().to_vec();

    let mut magic_ruim = bytes.clone();
    magic_ruim[0] = b'X';
    assert!(matches!(Table::from_bytes(&magic_ruim), Err(TableError::BadMagic { .. })));

    let mut versao_ruim = bytes.clone();
    versao_ruim[4] = 99;
    assert!(matches!(Table::from_bytes(&versao_ruim), Err(TableError::BadVersion { got: 99 })));

    let mut largura_ruim = bytes.clone();
    largura_ruim[5] = 33;
    assert!(matches!(Table::from_bytes(&largura_ruim), Err(TableError::BadWidth { got: 33 })));

    let mut variante_ruim = bytes.clone();
    variante_ruim[6] = 3;
    assert!(matches!(Table::from_bytes(&variante_ruim), Err(TableError::BadVariant { got: 3 })));

    assert!(matches!(Table::from_bytes(&bytes[..20]), Err(TableError::Truncated { .. })));

    let mut sobrando = bytes.clone();
    sobrando.push(0);
    assert!(matches!(Table::from_bytes(&sobrando), Err(TableError::TrailingBytes { extra: 1 })));

    let mut rng = SplitMix64(SEED ^ 0xBEEF);
    for _ in 0..2000 {
        let n = usize::try_from(rng.next_u64() % 120).unwrap();
        let lixo: Vec<u8> = (0..n).map(|_| rng.byte()).collect();
        let _ = Table::from_bytes(&lixo);
    }
}

#[test]
fn decoder_recusa_flags_ainda_nao_implementadas() {
    let w = Width::new(14).unwrap();
    let modelo = Model::new(m2_da_largura(w));
    let (fluxo, _) = modelo.encode(&corpus_teste()).unwrap();

    for flag in [0b0000_0001u8, 0b0000_0010, 0b1000_0000] {
        let mut com_flag = fluxo.clone();
        com_flag[7] = flag;
        assert!(
            matches!(modelo.decode(&com_flag), Err(DecodeError::UnsupportedFlags { .. })),
            "flag {flag:#010b} devia ser recusada"
        );
    }
}

#[test]
fn arbitrary_header_bytes_never_panic() {
    let mut rng = SplitMix64(SEED ^ 0xC0FFEE);
    for _ in 0..500 {
        let n = usize::try_from(rng.next_u64() % 80).unwrap();
        let bytes: Vec<u8> = (0..n).map(|_| rng.byte()).collect();
        let _ = Header::from_bytes(&bytes);
    }
}
