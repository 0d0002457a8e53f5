use higher_core::model::{all_widths, Width};
use higher_core::packing::{
    max_value, pack, pack_via_generic, packed_len, unpack, unpack_via_generic, BitReader, BitWriter,
    PackError, Strategy, UnpackError,
};

fn w(bits: u8) -> Width {
    Width::new(bits).unwrap()
}

#[test]
fn msb_first_em_vetores_conhecidos() {
    assert_eq!(pack(&[1, 0, 1, 1, 0, 0, 0, 1], w(1)).unwrap(), [0b1011_0001]);
    assert_eq!(pack(&[0xA, 0x5], w(4)).unwrap(), [0xA5]);
    assert_eq!(pack(&[0x00, 0x7F, 0xFF], w(8)).unwrap(), [0x00, 0x7F, 0xFF]);
    assert_eq!(pack(&[0xABC, 0xDEF], w(12)).unwrap(), [0xAB, 0xCD, 0xEF]);
    assert_eq!(pack(&[0xBEEF], w(16)).unwrap(), [0xBE, 0xEF]);
    assert_eq!(pack(&[0xDEAD_BEEF], w(32)).unwrap(), [0xDE, 0xAD, 0xBE, 0xEF]);
}

#[test]
fn ultimo_byte_e_completado_com_zeros() {
    assert_eq!(pack(&[1, 1, 1], w(1)).unwrap(), [0b1110_0000]);
    assert_eq!(pack(&[0xFFF], w(12)).unwrap(), [0xFF, 0xF0]);
}

#[test]
fn entrada_vazia_produz_fluxo_vazio_em_toda_largura() {
    for width in all_widths() {
        let bytes = pack(&[], width).unwrap();
        assert!(bytes.is_empty(), "b = {}", width.bits());
        assert_eq!(unpack(&bytes, 0, width).unwrap(), Vec::<u32>::new());
    }
}

#[test]
fn um_simbolo_nos_extremos_em_toda_largura() {
    for width in all_widths() {
        for valor in [0, max_value(width.bits())] {
            let bytes = pack(&[valor], width).unwrap();
            assert_eq!(bytes.len(), packed_len(1, width), "b = {}", width.bits());
            assert_eq!(unpack(&bytes, 1, width).unwrap(), vec![valor], "b = {}", width.bits());
        }
    }
}

#[test]
fn valores_extremos_alternados_em_toda_largura() {
    for width in all_widths() {
        let max = max_value(width.bits());
        let valores: Vec<u32> = (0..37).map(|i| if i % 2 == 0 { 0 } else { max }).collect();
        let bytes = pack(&valores, width).unwrap();
        assert_eq!(unpack(&bytes, valores.len(), width).unwrap(), valores, "b = {}", width.bits());
    }
}

#[test]
fn estrategia_rapida_produz_os_mesmos_bytes_que_a_generica() {
    for width in all_widths() {
        let max = max_value(width.bits());
        for n in [0usize, 1, 2, 3, 5, 7, 8, 9, 15, 16, 17, 31, 32, 33, 64, 100] {
            let valores: Vec<u32> = (0..n as u64)
                .map(|i| {
                    let x = i.wrapping_mul(0x9E37_79B9) ^ 0x5DEE_CE66;
                    u32::try_from(x % (u64::from(max) + 1)).unwrap()
                })
                .collect();
            let rapido = pack(&valores, width).unwrap();
            let generico = pack_via_generic(&valores, width).unwrap();
            assert_eq!(rapido, generico, "b = {}, n = {n}", width.bits());
            assert_eq!(
                unpack(&rapido, n, width).unwrap(),
                unpack_via_generic(&generico, n, width).unwrap(),
                "b = {}, n = {n}",
                width.bits()
            );
        }
    }
}

#[test]
fn comprimentos_que_nao_fecham_byte_fazem_roundtrip() {
    for width in all_widths() {
        let max = max_value(width.bits());
        for n in 1..=40usize {
            let valores: Vec<u32> = (0..u32::try_from(n).unwrap())
                .map(|i| (i * 7) % (max.min(1000) + 1))
                .collect();
            let bytes = pack(&valores, width).unwrap();
            assert_eq!(bytes.len(), packed_len(n, width), "b = {}, n = {n}", width.bits());
            assert_eq!(unpack(&bytes, n, width).unwrap(), valores, "b = {}, n = {n}", width.bits());
        }
    }
}

#[test]
fn os_256_bytes_fazem_roundtrip_em_toda_largura_que_os_comporta() {
    let todos: Vec<u32> = (0..=255).collect();
    for width in all_widths().into_iter().filter(|x| x.bits() >= 8) {
        let bytes = pack(&todos, width).unwrap();
        assert_eq!(unpack(&bytes, todos.len(), width).unwrap(), todos, "b = {}", width.bits());
    }
}

#[test]
fn valor_largo_demais_e_recusado_com_indice() {
    let erro = pack(&[0, 1, 4, 2], w(2)).unwrap_err();
    assert_eq!(erro, PackError::ValueTooWide { index: 2, value: 4, bits: 2 });
    assert!(pack(&[u32::MAX], w(32)).is_ok());
    for width in all_widths() {
        assert!(pack(&[max_value(width.bits())], width).is_ok(), "b = {}", width.bits());
        if width.bits() < 32 {
            assert!(pack(&[max_value(width.bits()) + 1], width).is_err(), "b = {}", width.bits());
        }
    }
}

#[test]
fn valor_largo_demais_nao_deixa_fluxo_meio_gravado() {
    let mut bw = BitWriter::new();
    assert!(bw.push_all(&[1, 2, 99], w(4)).is_err());
    assert_eq!(bw.bits_written(), 0, "nada podia ter sido escrito");
}

#[test]
fn unpack_recusa_truncado_sobra_e_completamento_sujo() {
    let width = w(12);
    let bytes = pack(&[0xABC, 0xDEF], width).unwrap();
    assert_eq!(bytes.len(), 3);

    assert_eq!(
        unpack(&bytes[..2], 2, width).unwrap_err(),
        UnpackError::Truncated { expected_bytes: 3, got_bytes: 2 }
    );

    let mut sobrando = bytes.clone();
    sobrando.push(0x00);
    assert_eq!(
        unpack(&sobrando, 2, width).unwrap_err(),
        UnpackError::TrailingBytes { expected_bytes: 3, got_bytes: 4 }
    );

    let mut sujo = pack(&[0xABC], width).unwrap();
    sujo[1] |= 0x0F;
    assert_eq!(
        unpack(&sujo, 1, width).unwrap_err(),
        UnpackError::PaddingNotZero { padding_bits: 4, last_byte: 0xCF }
    );
}

#[test]
fn larguras_misturadas_fazem_roundtrip_desalinhadas() {
    let plano = [(3u8, 5u32), (14, 9000), (8, 255), (1, 1), (32, u32::MAX), (7, 100)];
    let mut bw = BitWriter::new();
    for &(bits, valor) in &plano {
        bw.push(valor, w(bits)).unwrap();
    }
    let bytes = bw.finish();

    let mut br = BitReader::new(&bytes);
    for &(bits, valor) in &plano {
        assert_eq!(br.read(w(bits)), Some(valor), "b = {bits}");
    }
}

#[test]
fn push_all_desalinhado_bate_com_push_um_a_um() {
    for width in all_widths() {
        let max = max_value(width.bits());
        let valores: Vec<u32> = (0u32..23).map(|i| (i * 13) % (max.min(500) + 1)).collect();

        let mut em_lote = BitWriter::new();
        em_lote.push(0b101, w(3)).unwrap();
        em_lote.push_all(&valores, width).unwrap();

        let mut um_a_um = BitWriter::new();
        um_a_um.push(0b101, w(3)).unwrap();
        for &v in &valores {
            um_a_um.push(v, width).unwrap();
        }

        assert_eq!(em_lote.finish(), um_a_um.finish(), "b = {}", width.bits());
    }
}

#[test]
fn read_devolve_none_quando_faltam_bits() {
    let bytes = pack(&[0xFFF], w(12)).unwrap();
    let mut br = BitReader::new(&bytes);
    assert_eq!(br.read(w(12)), Some(0xFFF));
    assert_eq!(br.bits_remaining(), 4);
    assert_eq!(br.read(w(12)), None, "não há 12 bits sobrando");
    assert_eq!(br.read(w(4)), Some(0), "o completamento é zero");
}

#[test]
fn packed_len_bate_com_o_tamanho_real_em_toda_largura() {
    for width in all_widths() {
        for n in [0usize, 1, 2, 7, 8, 100, 1000] {
            let valores = vec![0u32; n];
            assert_eq!(
                pack(&valores, width).unwrap().len(),
                packed_len(n, width),
                "b = {}, n = {n}",
                width.bits()
            );
        }
    }
}

#[test]
fn a_tabela_de_despacho_bate_com_o_que_width_calcula() {
    let tabela: Vec<(u8, u8, u8)> = vec![
        (1, 8, 1),
        (2, 4, 1),
        (3, 8, 3),
        (4, 2, 1),
        (5, 8, 5),
        (6, 4, 3),
        (7, 8, 7),
        (10, 4, 5),
        (12, 2, 3),
        (14, 4, 7),
        (20, 2, 5),
        (24, 1, 3),
        (28, 2, 7),
    ];

    for &(bits, ns, nb) in &tabela {
        let width = w(bits);
        assert_eq!(width.pack_group_symbols(), ns, "b = {bits}: símbolos do grupo");
        assert_eq!(width.pack_group_bytes(), nb, "b = {bits}: bytes do grupo");
        assert_eq!(Strategy::of(width), Strategy::Group { symbols: ns, bytes: nb }, "b = {bits}");
    }

    for width in all_widths() {
        if let Strategy::Group { .. } = Strategy::of(width) {
            assert!(
                tabela.iter().any(|&(b, _, _)| b == width.bits()),
                "b = {} usa grupo mas não está em para_cada_grupo!",
                width.bits()
            );
        }
    }
}

#[test]
fn estrategias_cobrem_as_larguras_que_a_especificacao_pede() {
    for bits in [8u8, 16, 32] {
        assert!(
            matches!(Strategy::of(w(bits)), Strategy::Native { .. }),
            "b = {bits} devia ser nativo"
        );
    }
    for bits in [12u8, 14, 24] {
        assert!(
            matches!(Strategy::of(w(bits)), Strategy::Group { .. }),
            "b = {bits} devia ter caminho de grupo"
        );
    }
    for width in all_widths() {
        if let Strategy::Group { symbols, bytes } = Strategy::of(width) {
            let bits = u32::from(symbols) * u32::from(width.bits());
            assert!(bits <= 64, "b = {}: grupo de {bits} bits não cabe em u64", width.bits());
            assert_eq!(bits, u32::from(bytes) * 8, "b = {}", width.bits());
        }
    }
}

#[test]
fn generic_strategy_for_widths_whose_group_exceeds_a_word() {
    assert_eq!(Strategy::of(w(9)), Strategy::Generic);
    assert_eq!(Strategy::of(w(16)), Strategy::Native { bytes: 2 });
    assert_eq!(Strategy::of(w(9)).label(), Strategy::Generic.label());
}

#[test]
fn bit_reader_tracks_alignment_and_zero_tail() {
    let bytes = [0b1010_0000u8, 0x00];
    let mut br = BitReader::new(&bytes);
    assert!(br.is_byte_aligned());
    assert_eq!(br.read(w(3)), Some(0b101));
    assert!(!br.is_byte_aligned());
    assert!(br.remaining_is_zero());
    assert_eq!(br.bits_remaining(), 13);
    let mut out = Vec::new();
    assert!(br.read_all_into(&mut out, 1, w(13)).is_ok());
    assert_eq!(out, vec![0]);
}

#[test]
fn bit_writer_counts_bits_and_alignment() {
    let mut bw = BitWriter::with_capacity_for(4, w(5));
    assert!(bw.is_byte_aligned());
    bw.push(31, w(5)).unwrap();
    assert_eq!(bw.bits_written(), 5);
    assert!(!bw.is_byte_aligned());
    assert_eq!(bw.push(32, w(5)), Err(PackError::ValueTooWide { index: 0, value: 32, bits: 5 }));
    bw.push(7, w(3)).unwrap();
    assert!(bw.is_byte_aligned());
    assert_eq!(bw.finish(), vec![0xFF]);
}
