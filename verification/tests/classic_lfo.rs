use flp_extract_fxp::classic_lfo::{default_classic_block, normalize_classic_lfo};
use flp_extract_fxp::s1state::LFO_BLOCK_SIZE;

fn f64_at(b: &[u8], i: usize) -> f64 {
    f64::from_le_bytes(b[i * 8..i * 8 + 8].try_into().unwrap())
}

#[test]
fn default_block_layout() {
    let b = default_classic_block(false);
    assert_eq!(b.len(), LFO_BLOCK_SIZE);
    assert!((0..480).all(|i| f64_at(&b, i) == 0.5));
    assert_eq!(f64_at(&b, 480), 0.0);
    assert_eq!(f64_at(&b, 481), 0.5);
    assert!((482..960).all(|i| f64_at(&b, i) == 1.0));
    assert_eq!(f64_at(&b, 960), 1.0);
    assert_eq!(f64_at(&b, 961), 0.0);
    assert!((962..1440).all(|i| f64_at(&b, i) == 1.0));
    assert_eq!(b[0x2D00], 1);
    assert_eq!(b[0x2D01], 0);
    assert_eq!(u32::from_le_bytes(b[0x2D08..0x2D0C].try_into().unwrap()), 2);
    assert_eq!(u64::from_le_bytes(b[0x2D0C..0x2D14].try_into().unwrap()), 0x1E0_FFFF_FFFF);
    assert_eq!(f32::from_le_bytes(b[0x2D14..0x2D18].try_into().unwrap()), 0.5);
    assert!(b[0x2D18..].iter().all(|x| *x == 0));
}

#[test]
fn alt_default_block_layout() {
    let b = default_classic_block(true);
    assert_eq!(b.len(), LFO_BLOCK_SIZE);
    assert_eq!(f64_at(&b, 481), 1.0);
    assert_eq!(b[0x2D00], 0);
    assert_eq!(u32::from_le_bytes(b[0x2D08..0x2D0C].try_into().unwrap()), 1);
    assert!(b[0x2D0C..].iter().all(|x| *x == 0));
}

#[test]
fn classic_region_is_rewritten() {
    let sub = 2usize;
    let mut region = vec![0u8; 0x18F0];
    let base = sub * 0x208;
    for k in 0..65 {
        region[base + 8 * k..base + 8 * k + 8].copy_from_slice(&(k as f64).to_le_bytes());
    }
    for k in 0..65 {
        let o = base + 0x820 + 8 * k;
        region[o..o + 8].copy_from_slice(&(100.0 + k as f64).to_le_bytes());
        let o = base + 0x1040 + 8 * k;
        region[o..o + 8].copy_from_slice(&(200.0 + k as f64).to_le_bytes());
    }
    region[sub + 0x1860] = 0xFE;
    region[sub + 0x1874] = 7;
    region[sub + 0x188C] = 9;
    region[sub * 4 + 0x18A0..sub * 4 + 0x18A4].copy_from_slice(&[1, 2, 3, 4]);
    region[sub * 4 + 0x1864..sub * 4 + 0x1868].copy_from_slice(&0.25f32.to_le_bytes());
    let out = normalize_classic_lfo(&region, sub);
    assert_eq!(out.len(), LFO_BLOCK_SIZE);
    assert!((0..65).all(|k| f64_at(&out, k) == k as f64));
    assert_eq!(f64_at(&out, 65), 0.5);
    assert!((0..64).all(|k| f64_at(&out, 480 + k) == 100.0 + k as f64));
    assert_eq!(f64_at(&out, 544), 1.0);
    assert!((0..64).all(|k| f64_at(&out, 960 + k) == 200.0 + k as f64));
    assert_eq!(i32::from_le_bytes(out[0x2D08..0x2D0C].try_into().unwrap()), -2);
    assert_eq!(out[0x2D00], 7);
    assert_eq!(out[0x2D06], 9);
    assert_eq!(&out[0x2D0C..0x2D10], &[1, 2, 3, 4]);
    assert_eq!(f32::from_le_bytes(out[0x2D14..0x2D18].try_into().unwrap()), 0.25);
}

#[test]
fn short_region_keeps_default_tail() {
    let region = vec![0xAAu8; 0x600];
    let out = normalize_classic_lfo(&region, 0);
    let d = default_classic_block(false);
    assert_eq!(&out[..65 * 8], &region[..65 * 8]);
    assert_eq!(&out[65 * 8..], &d[65 * 8..]);
}
