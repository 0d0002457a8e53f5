use higher_core::model::all_widths;
use higher_core::packing::{max_value, pack, packed_len, unpack};

const SEED: u64 = 42;
const CASOS_POR_LARGURA: usize = 100_000;

struct SplitMix64(u64);

impl SplitMix64 {
    fn new(seed: u64) -> Self {
        Self(seed)
    }

    fn next_u64(&mut self) -> u64 {
        self.0 = self.0.wrapping_add(0x9E37_79B9_7F4A_7C15);
        let mut z = self.0;
        z = (z ^ (z >> 30)).wrapping_mul(0xBF58_476D_1CE4_E5B9);
        z = (z ^ (z >> 27)).wrapping_mul(0x94D0_49BB_1331_11EB);
        z ^ (z >> 31)
    }

    fn valor_ate(&mut self, max: u32) -> u32 {
        if max == u32::MAX {
            return self.next_u64() as u32;
        }
        (self.next_u64() % (u64::from(max) + 1)) as u32
    }
}

#[test]
fn volume_100k_casos_por_largura() {
    for width in all_widths() {
        let max = max_value(width.bits());
        let mut rng = SplitMix64::new(SEED ^ u64::from(width.bits()));
        let valores: Vec<u32> = (0..CASOS_POR_LARGURA).map(|_| rng.valor_ate(max)).collect();

        let bytes = pack(&valores, width).expect("valores cabem na largura");
        assert_eq!(
            bytes.len(),
            packed_len(valores.len(), width),
            "b = {}: tamanho empacotado fora do previsto",
            width.bits()
        );

        let voltou = unpack(&bytes, valores.len(), width).expect("roundtrip");
        assert_eq!(voltou, valores, "b = {}: roundtrip divergiu (seed {SEED})", width.bits());
    }
}

#[test]
fn volume_em_sequencias_curtas_de_comprimento_sorteado() {
    for width in all_widths() {
        let max = max_value(width.bits());
        let mut rng = SplitMix64::new(SEED.wrapping_mul(31) ^ u64::from(width.bits()));
        let mut total = 0usize;

        while total < CASOS_POR_LARGURA {
            let n = (rng.next_u64() % 65) as usize;
            let valores: Vec<u32> = (0..n).map(|_| rng.valor_ate(max)).collect();
            let bytes = pack(&valores, width).expect("valores cabem na largura");
            assert_eq!(bytes.len(), packed_len(n, width), "b = {}, n = {n}", width.bits());
            assert_eq!(
                unpack(&bytes, n, width).expect("roundtrip"),
                valores,
                "b = {}, n = {n} (seed {SEED})",
                width.bits()
            );
            total += n.max(1);
        }
    }
}
