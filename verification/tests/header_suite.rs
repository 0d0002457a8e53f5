use higher_core::hgr::{Header, HeaderError, FLAG_ADAPTIVE, FLAG_SYNC_MARKERS, HEADER_BYTES};
use higher_core::model::{Variant, Width};

fn cabecalho() -> Header {
    Header {
        width: Width::new(14).unwrap(),
        variant: Variant::M2,
        flags: 0,
        table_id: [0x11, 0x22, 0x33, 0x44, 0x55, 0x66, 0x77, 0x88],
        n_symbols: 0x0102_0304_0506_0708,
        n_input_bytes: 0x1112_1314_1516_1718,
        crc32_payload: 0xDEAD_BEEF,
    }
}

#[test]
fn os_campos_caem_nos_offsets_de_docs_01_secao_8() {
    let b = cabecalho().to_bytes();
    assert_eq!(b.len(), 36, "cabeçalho tem de ter 36 bytes fixos");
    assert_eq!(&b[0..4], b"HGR1");
    assert_eq!(b[4], 1, "version");
    assert_eq!(b[5], 14, "b");
    assert_eq!(b[6], 2, "variant M2");
    assert_eq!(b[7], 0, "flags");
    assert_eq!(&b[8..16], &[0x11, 0x22, 0x33, 0x44, 0x55, 0x66, 0x77, 0x88]);
    assert_eq!(&b[16..24], &[1, 2, 3, 4, 5, 6, 7, 8], "n_symbols BE");
    assert_eq!(
        &b[24..32],
        &[0x11, 0x12, 0x13, 0x14, 0x15, 0x16, 0x17, 0x18],
        "n_input_bytes BE"
    );
    assert_eq!(&b[32..36], &[0xDE, 0xAD, 0xBE, 0xEF], "crc32 BE");
}

#[test]
fn roundtrip_do_cabecalho() {
    let antes = cabecalho();
    assert_eq!(Header::from_bytes(&antes.to_bytes()), Ok(antes));
}

#[test]
fn campos_extras_depois_do_cabecalho_sao_ignorados_na_leitura() {
    let mut bytes = cabecalho().to_bytes().to_vec();
    bytes.extend_from_slice(b"payload arbitrario");
    assert_eq!(Header::from_bytes(&bytes), Ok(cabecalho()));
}

#[test]
fn erros_tipados_para_cabecalho_invalido() {
    let bom = cabecalho().to_bytes();

    assert_eq!(
        Header::from_bytes(&bom[..35]),
        Err(HeaderError::TooShort { got: 35 })
    );

    let mut m = bom;
    m[0] = b'X';
    assert!(matches!(
        Header::from_bytes(&m),
        Err(HeaderError::BadMagic { .. })
    ));

    let mut v = bom;
    v[4] = 2;
    assert_eq!(
        Header::from_bytes(&v),
        Err(HeaderError::BadVersion { got: 2 })
    );

    for largura_ruim in [0u8, 33, 255] {
        let mut w = bom;
        w[5] = largura_ruim;
        assert_eq!(
            Header::from_bytes(&w),
            Err(HeaderError::BadWidth { got: largura_ruim })
        );
    }

    for variante_ruim in [3u8, 5, 255] {
        let mut v = bom;
        v[6] = variante_ruim;
        assert_eq!(
            Header::from_bytes(&v),
            Err(HeaderError::BadVariant { got: variante_ruim })
        );
    }
}

#[test]
fn as_flags_sao_lidas_bit_a_bit() {
    let mut h = cabecalho();
    h.flags = FLAG_ADAPTIVE;
    assert!(h.has_adaptive_block() && !h.has_sync_markers());
    h.flags = FLAG_SYNC_MARKERS;
    assert!(!h.has_adaptive_block() && h.has_sync_markers());
    h.flags = FLAG_ADAPTIVE | FLAG_SYNC_MARKERS;
    assert!(h.has_adaptive_block() && h.has_sync_markers());
}

#[test]
fn bad_magic_reports_the_bytes_read() {
    let mut m = cabecalho().to_bytes();
    m[0] = b'X';
    assert_eq!(
        Header::from_bytes(&m),
        Err(HeaderError::BadMagic { got: *b"XGR1" })
    );
    assert_eq!(HEADER_BYTES, 36);
}

#[test]
fn empty_input_is_too_short() {
    assert_eq!(Header::from_bytes(&[]), Err(HeaderError::TooShort { got: 0 }));
}
