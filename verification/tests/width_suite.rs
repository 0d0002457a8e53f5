use higher_core::model::{all_widths, Band, Variant, Width};

#[test]
fn a_sweep_cobre_1_ate_32_sem_pular() {
    let widths = all_widths();
    assert_eq!(widths.len(), 32);
    for (i, w) in widths.iter().enumerate() {
        assert_eq!(w.bits() as usize, i + 1);
    }
}

#[test]
fn largura_fora_da_faixa_e_recusada() {
    assert!(Width::new(0).is_err());
    assert!(Width::new(33).is_err());
    assert!(Width::new(255).is_err());
    assert!(Width::new(1).is_ok());
    assert!(Width::new(32).is_ok());
}

#[test]
fn faixas_seguem_o_corte_em_8() {
    for w in all_widths() {
        let esperado = match w.bits() {
            1..=7 => Band::Lower,
            8 => Band::Base,
            _ => Band::Higher,
        };
        assert_eq!(w.band(), esperado, "b = {}", w.bits());
    }
}

#[test]
fn nomes_de_modelo_batem_com_claude_md() {
    let nome = |b: u8| Width::new(b).unwrap().model_name();
    assert_eq!(nome(1), "lower-1");
    assert_eq!(nome(7), "lower-7");
    assert_eq!(nome(8), "base-8");
    assert_eq!(nome(9), "higher-9");
    assert_eq!(nome(14), "higher-14");
    assert_eq!(nome(32), "higher-32");
}

#[test]
fn nomes_de_run_levam_a_variante_menos_a_regua() {
    let w14 = Width::new(14).unwrap();
    assert_eq!(w14.run_name(Variant::M2), "higher-14:M2");
    assert_eq!(w14.run_name(Variant::M4), "higher-14:M4");
    assert_eq!(Width::new(6).unwrap().run_name(Variant::M2), "lower-6:M2");
    assert_eq!(Width::new(8).unwrap().run_name(Variant::M0), "base-8");
}

#[test]
fn capacidade_e_conteiner_seguem_a_tabela_da_tese() {
    let cap = |b: u8| Width::new(b).unwrap().capacity();
    assert_eq!(cap(1), 2);
    assert_eq!(cap(8), 256);
    assert_eq!(cap(14), 16_384);
    assert_eq!(cap(16), 65_536);
    assert_eq!(cap(32), 4_294_967_296);

    let cont = |b: u8| Width::new(b).unwrap().container_bytes();
    assert_eq!(cont(1), 1);
    assert_eq!(cont(8), 1);
    assert_eq!(cont(9), 2);
    assert_eq!(cont(16), 2);
    assert_eq!(cont(17), 4);
    assert_eq!(cont(32), 4);
}

#[test]
fn larguras_nativas_sao_8_16_32() {
    for w in all_widths() {
        assert_eq!(w.is_native(), matches!(w.bits(), 8 | 16 | 32), "b = {}", w.bits());
    }
}

#[test]
fn grupos_de_packing_batem_com_a_coluna_da_tese() {
    let esperado: [(u8, u8, u8); 12] = [
        (1, 8, 1),
        (2, 4, 1),
        (3, 8, 3),
        (4, 2, 1),
        (8, 1, 1),
        (12, 2, 3),
        (14, 4, 7),
        (16, 1, 2),
        (20, 2, 5),
        (24, 1, 3),
        (28, 2, 7),
        (32, 1, 4),
    ];
    for (b, simbolos, bytes) in esperado {
        let w = Width::new(b).unwrap();
        assert_eq!(w.pack_group_symbols(), simbolos, "b = {b}");
        assert_eq!(w.pack_group_bytes(), bytes, "b = {b}");
    }
}

#[test]
fn grupo_de_packing_fecha_byte_em_toda_largura() {
    for w in all_widths() {
        let bits = u32::from(w.pack_group_symbols()) * u32::from(w.bits());
        assert_eq!(bits % 8, 0, "b = {}", w.bits());
        assert_eq!(bits / 8, u32::from(w.pack_group_bytes()), "b = {}", w.bits());
    }
}

#[test]
fn variante_3_nao_existe_no_fio() {
    assert_eq!(Variant::from_wire(3), None);
    assert_eq!(Variant::from_wire(5), None);
    for v in [Variant::M0, Variant::M1, Variant::M2, Variant::M4] {
        assert_eq!(Variant::from_wire(v.to_wire()), Some(v));
    }
}

#[test]
fn refused_width_reports_the_value() {
    assert_eq!(Width::new(0).unwrap_err().bits, 0);
    assert_eq!(Width::new(200).unwrap_err().bits, 200);
}

#[test]
fn variant_names_and_wire_bytes() {
    assert_eq!(Variant::M0.name(), "M0");
    assert_eq!(Variant::M4.name(), "M4");
    assert_eq!(Variant::M4.to_wire(), 4);
    assert_eq!(Variant::from_wire(2), Some(Variant::M2));
}

#[test]
fn base_width_is_eight_bits() {
    assert_eq!(Width::base().bits(), 8);
    assert_eq!(Width::base().band(), Band::Base);
}

#[test]
fn no_smaller_group_closes_a_byte() {
    for w in all_widths() {
        let b = w.bits() as u32;
        let s = w.pack_group_symbols() as u32;
        assert_eq!((s * b) % 8, 0);
        assert_eq!(w.pack_group_bytes() as u32, s * b / 8);
        for m in 1..s {
            assert_ne!((m * b) % 8, 0, "b={b} m={m}");
        }
    }
}
