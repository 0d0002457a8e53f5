use higher_core::codec::Model;
use higher_core::model::{all_widths, Band, Variant, Width};
use higher_core::ranking::{frequent_ngrams, frequent_words};
use higher_core::table::{dynamic_slots, first_dynamic_code, Table, TableError, MAX_MATCH, MAX_WORD, MIN_FREQ};
use higher_core::trie::Trie;
use sha2::Digest;

fn w(bits: u8) -> Width {
    Width::new(bits).unwrap()
}

const TREINO: &[u8] = b"ao ao ao banana banana banana ao banana ao banana ao banana \
                        ao ao banana ao banana banana ao ao banana ao ao banana ";

fn occupancy(t: &Table) -> f64 {
    let slots = dynamic_slots(t.width());
    if slots == 0 {
        0.0
    } else {
        t.slots_used() as f64 / slots as f64
    }
}

fn bits_per_byte(encoded_bytes: u64, input_bytes: u64) -> f64 {
    encoded_bytes as f64 * 8.0 / input_bytes as f64
}

fn get<'a>(freqs: &'a [(Vec<u8>, u64)], key: &[u8]) -> Option<&'a u64> {
    freqs.iter().find(|(k, _)| k.as_slice() == key).map(|(_, v)| v)
}

#[test]
fn o_primeiro_codigo_dinamico_segue_a_faixa() {
    for width in all_widths() {
        let esperado = match width.band() {
            Band::Lower => 1,
            Band::Base | Band::Higher => 256,
        };
        assert_eq!(first_dynamic_code(width), esperado, "b = {}", width.bits());
    }
}

#[test]
fn base_8_nao_tem_slot_dinamico_nenhum() {
    assert_eq!(dynamic_slots(w(8)), 0);
    let t = Table::train_m2(w(8), TREINO);
    assert_eq!(t.slots_used(), 0, "base-8 treinada continua identidade");
    assert!(occupancy(&t).abs() < 1e-12);
}

#[test]
fn slots_dinamicos_por_faixa() {
    assert_eq!(dynamic_slots(w(1)), 1);
    assert_eq!(dynamic_slots(w(7)), 127);
    assert_eq!(dynamic_slots(w(9)), 512 - 256);
    assert_eq!(dynamic_slots(w(14)), 16_384 - 256);
    assert_eq!(dynamic_slots(w(32)), 4_294_967_296 - 256);
}

#[test]
fn higher_nao_recebe_bloco_de_um_byte() {
    for bits in [9u8, 12, 14, 16, 20, 24, 32] {
        let t = Table::train_m2(w(bits), TREINO);
        let fim = 256 + u32::try_from(t.slots_used()).unwrap();
        for code in 256..fim {
            let bloco = t.block_of(code).expect("código dentro da tabela");
            assert!(bloco.len() >= 2, "b = {bits}: bloco de 1 byte na tabela");
        }
    }
}

fn dna(n: usize, seed: u64) -> Vec<u8> {
    let mut x = seed;
    (0..n)
        .map(|_| {
            x = x.wrapping_add(0x9E37_79B9_7F4A_7C15);
            let mut z = x;
            z = (z ^ (z >> 30)).wrapping_mul(0xBF58_476D_1CE4_E5B9);
            z = (z ^ (z >> 27)).wrapping_mul(0x94D0_49BB_1331_11EB);
            b"ACGT"[((z ^ (z >> 31)) % 4) as usize]
        })
        .collect()
}

#[test]
fn lower_cobre_alfabeto_restrito_sem_escapar() {
    let treino = dna(20_000, 1);
    let teste = dna(2_000, 999);
    assert_ne!(treino, teste);

    let modelo = Model::new(Table::train_m2(w(3), &treino));
    let (fluxo, stats) = modelo.encode(&teste).expect("encode");
    assert_eq!(stats.n_escapes, 0, "lower-3 devia cobrir um alfabeto de 4 letras sem escapar");
    let bpb = bits_per_byte(stats.encoded_bytes, stats.input_bytes);
    assert!(bpb < 8.0, "lower-3 em DNA devia ficar abaixo de base-8, deu {}", bpb);
    assert_eq!(modelo.decode(&fluxo).unwrap(), teste);
}

#[test]
fn o_treino_e_deterministico() {
    for width in all_widths() {
        let a = Table::train_m2(width, TREINO);
        let b = Table::train_m2(width, TREINO);
        assert_eq!(a.id(), b.id(), "b = {}", width.bits());
        assert_eq!(a.as_bytes(), b.as_bytes(), "b = {}", width.bits());
    }
}

#[test]
fn corpus_de_treino_diferente_da_table_id_diferente() {
    let a = Table::train_m2(w(14), TREINO);
    let b = Table::train_m2(w(14), b"outro corpus outro corpus outro corpus ");
    assert_ne!(a.id(), b.id());
    assert_ne!(a.train_sha256(), b.train_sha256());
}

#[test]
fn o_sha256_do_treino_entra_no_artefato() {
    let t = Table::train_m2(w(14), TREINO);
    assert_eq!(&t.as_bytes()[12..44], t.train_sha256());
    assert_ne!(t.train_sha256(), &[0u8; 32], "treino não vazio tem hash");

    let vazia = Table::legacy_only(w(14), Variant::M1);
    assert_eq!(vazia.train_sha256(), &[0u8; 32], "sem treino, sem hash");
}

#[test]
fn a_table_id_e_o_sha256_da_serializacao() {
    let t = Table::train_m2(w(14), TREINO);
    let esperado: [u8; 32] = sha2::Sha256::digest(t.as_bytes()).into();
    assert_eq!(t.id(), &esperado);
    assert_eq!(t.id8(), esperado[..8]);
}

#[test]
fn a_trie_casa_o_maior_bloco() {
    let mut trie = Trie::new();
    trie.insert(b"ba", 10);
    trie.insert(b"banana", 11);
    trie.insert(b"ban", 12);

    assert_eq!(trie.longest_match(b"banana split"), Some((11, 6)));
    assert_eq!(trie.longest_match(b"bandeira"), Some((12, 3)));
    assert_eq!(trie.longest_match(b"barco"), Some((10, 2)));
    assert_eq!(trie.longest_match(b"xyz"), None);
    assert_eq!(trie.longest_match(b""), None);
    assert_eq!(trie.longest_match(b"b"), None, "prefixo sem código não casa");
}

#[test]
fn a_poda_apriori_nao_perde_n_grama_frequente() {
    let treino = b"abcabcabcabcabc";
    let freqs = frequent_ngrams(treino);
    assert_eq!(get(&freqs, b"abc"), Some(&5));
    assert_eq!(get(&freqs, b"abcabc"), Some(&4));
    assert_eq!(get(&freqs, b"a"), Some(&5));
    assert!(freqs.iter().all(|(k, _)| k.len() <= MAX_MATCH));
    assert!(freqs.iter().all(|(_, f)| *f >= u64::from(MIN_FREQ)));
}

#[test]
fn palavras_entram_como_candidatas() {
    let freqs = frequent_words(b"banana, banana; banana. ao ao");
    assert_eq!(get(&freqs, b"banana"), Some(&3));
    assert_eq!(get(&freqs, b"ao"), Some(&2));
}

#[test]
fn palavra_gigante_e_cortada_em_max_word() {
    let treino: Vec<u8> = std::iter::repeat_n(b'x', 500)
        .chain(std::iter::once(b' '))
        .chain(std::iter::repeat_n(b'x', 500))
        .collect();
    let freqs = frequent_words(&treino);
    assert!(
        freqs.iter().all(|(k, _)| k.len() <= MAX_WORD),
        "nenhuma palavra pode passar de MAX_WORD"
    );
}

#[test]
fn a_tabela_nunca_passa_dos_slots_da_largura() {
    for width in all_widths() {
        let t = Table::train_m2(width, TREINO);
        assert!(
            t.slots_used() as u64 <= dynamic_slots(width),
            "b = {}: {} entradas para {} slots",
            width.bits(),
            t.slots_used(),
            dynamic_slots(width)
        );
    }
}

#[test]
fn a_ocupacao_despenca_nas_larguras_grandes() {
    let pequena = occupancy(&Table::train_m2(w(9), TREINO));
    let grande = occupancy(&Table::train_m2(w(24), TREINO));
    assert!(grande < pequena, "{grande} devia ser menor que {pequena}");
    assert!(grande < 0.001);
}

#[test]
fn giant_word_is_counted_once_cut() {
    let treino: Vec<u8> = std::iter::repeat_n(b'x', 500)
        .chain(std::iter::once(b' '))
        .chain(std::iter::repeat_n(b'x', 500))
        .collect();
    let freqs = frequent_words(&treino);
    assert_eq!(freqs.len(), 1);
    assert_eq!(freqs[0].0.len(), MAX_WORD);
    assert_eq!(freqs[0].1, 2);
}

#[test]
fn ranking_puts_the_greatest_gain_first() {
    // "abcabcabc" occurs 3 times: gain 3 * (72 - 9) = 189, the greatest in higher-9.
    let t = Table::train_m2(w(9), b"abcabcabcabcabc");
    let first = t.block_of(256).unwrap();
    assert_eq!(first, b"abcabcabc");
    assert_eq!(t.longest_match(b"abcabcabc"), Some((256, 9)));
    assert_eq!(t.block_of(255), Some(&[255u8][..]), "255 is a legacy byte");
    assert_eq!(t.block_of(0), Some(&[0u8][..]));
    assert_eq!(t.block_of(512), None);
}

#[test]
fn lower_band_codes_and_escape() {
    let t = Table::train_m2(w(2), b"abababababab");
    assert_eq!(t.slots_used(), 3);
    assert_eq!(t.block_of(0), None, "code 0 is the escape");
    assert!(t.block_of(1).is_some());
    assert_eq!(t.block_of(4), None, "2 bits give 4 codes");
    assert_eq!(first_dynamic_code(w(2)), 1);
}

#[test]
fn empty_training_keeps_the_hash_of_nothing() {
    let t = Table::train_m2(w(12), b"");
    assert_eq!(t.slots_used(), 0);
    let esperado: [u8; 32] = sha2::Sha256::digest(b"").into();
    assert_eq!(t.train_sha256(), &esperado);
    assert_eq!(t.variant(), Variant::M2);
    assert_eq!(t.table_bytes(), 44);
}

#[test]
fn serialised_table_reads_back_field_by_field() {
    let t = Table::train_m2(w(10), TREINO);
    let lida = Table::from_bytes(t.as_bytes()).unwrap();
    assert_eq!(lida.width(), t.width());
    assert_eq!(lida.variant(), Variant::M2);
    assert_eq!(lida.as_bytes(), t.as_bytes());
    assert_eq!(lida.id(), t.id());
    assert_eq!(&t.as_bytes()[0..4], b"HTB1");
    assert_eq!(t.as_bytes()[5], 10);
}

#[test]
fn table_errors_carry_their_details() {
    let t = Table::train_m2(w(14), TREINO);
    let bytes = t.as_bytes().to_vec();
    assert!(matches!(Table::from_bytes(&bytes[..10]), Err(TableError::Truncated { offset: 0 })));

    let mut muitas = Table::legacy_only(w(1), Variant::M2).as_bytes().to_vec();
    muitas[11] = 2;
    assert!(matches!(
        Table::from_bytes(&muitas),
        Err(TableError::TooManyEntries { declared: 2, available: 1 })
    ));

    let mut vazia = Table::legacy_only(w(1), Variant::M2).as_bytes().to_vec();
    vazia[11] = 1;
    vazia.push(0);
    assert!(matches!(Table::from_bytes(&vazia), Err(TableError::EmptyEntry { index: 0 })));

    let mut curta = Table::legacy_only(w(1), Variant::M2).as_bytes().to_vec();
    curta[11] = 1;
    curta.push(3);
    curta.push(b'a');
    assert!(matches!(Table::from_bytes(&curta), Err(TableError::Truncated { offset: 45 })));
}

#[test]
fn legacy_codes_stand_for_their_byte() {
    let base = Table::legacy_only(w(8), Variant::M0);
    assert_eq!(base.block_of(65), Some(&b"A"[..]));
    assert_eq!(base.block_of(0), Some(&[0u8][..]));
    assert_eq!(base.block_of(256), None);
    let alta = Table::legacy_only(w(14), Variant::M1);
    assert_eq!(alta.block_of(255), Some(&[255u8][..]));
    assert_eq!(alta.block_of(256), None, "slot without a block");
    assert_eq!(alta.block_of(1 << 14), None);
    let baixa = Table::legacy_only(w(3), Variant::M1);
    assert_eq!(baixa.block_of(0), None, "ESCAPE stands for no block");
    assert_eq!(baixa.block_of(5), None);
}

#[test]
fn expanding_tokens_gives_the_input_back() {
    for b in [2u8, 5, 8, 9, 12, 14, 20, 32] {
        let t = Table::train_m2(w(b), TREINO);
        let modelo = Model::new(t.clone());
        let simbolos = modelo.tokenize(TREINO);
        assert!(simbolos.len() <= TREINO.len());
        let mut volta: Vec<u8> = Vec::new();
        for s in &simbolos {
            match s {
                higher_core::codec::Symbol::Code(c) => {
                    assert!((*c as u64) < w(b).capacity());
                    volta.extend_from_slice(t.block_of(*c).expect("every code stands for a block"));
                }
                higher_core::codec::Symbol::Escape(r) => {
                    assert_eq!(w(b).band(), Band::Lower);
                    volta.push(*r);
                }
            }
        }
        assert_eq!(volta, TREINO, "b={b}");
    }
}
