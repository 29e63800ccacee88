use collatz_cert::cert::{
    check_manifest, check_recomputed, check_table, compute_table, recompute_table, verify_table, derive_certificate, generate, manifest_for, precheck,
    table_min, verify, CertError, Manifest, ManifestField,
};
use collatz_cert::hex::hex;
use collatz_cert::table::{entry_bytes, frame_table_file, read_table, FormatError};
use sha2::{Digest, Sha256};

fn collatz_s_sum(k: u32, l: u32, idx: usize) -> u32 {
    let mask: u64 = (1u64 << k) - 1;
    let mut m = ((idx as u64) << 1) | 1;
    let mut s: u64 = 0;
    for _ in 0..l {
        let t = 3u64.wrapping_mul(m & mask).wrapping_add(1);
        let e = t.trailing_zeros() as u64;
        s += e;
        m = (t >> e) & mask;
    }
    s.min(u32::MAX as u64) as u32
}

fn copy(m: &Manifest) -> Manifest {
    Manifest {
        k: m.k,
        l: m.l,
        count: m.count,
        min_s: m.min_s,
        threshold: m.threshold,
        pass: m.pass,
        sha256_table_hex: m.sha256_table_hex.clone(),
        file_ver: m.file_ver,
    }
}

#[test]
fn gen_v2_and_verify_roundtrip_small() {
    let g = generate(4, 8, 2).unwrap();
    let c = verify(4, 8, &g.file, &g.manifest, 2).unwrap();
    assert_eq!(g.manifest.file_ver, 2);
    assert_eq!(c.count, 8);
    assert_eq!(c.min_s, g.manifest.min_s);
}

#[test]
fn verify_v1_synthetic_small() {
    let k: u32 = 4;
    let l: u32 = 8;
    let count: usize = 1usize << (k as usize - 1);
    let mut table_bytes: Vec<u8> = Vec::with_capacity(count * 2);
    let mut min_s = u32::MAX;
    for idx in 0..count {
        let s_i = collatz_s_sum(k, l, idx);
        min_s = min_s.min(s_i);
        table_bytes.extend_from_slice(&(s_i as u16).to_le_bytes());
    }
    let mut file_bytes: Vec<u8> = Vec::new();
    file_bytes.extend_from_slice(b"CALT");
    file_bytes.extend_from_slice(1u32.to_le_bytes().as_slice());
    file_bytes.extend_from_slice(k.to_le_bytes().as_slice());
    file_bytes.extend_from_slice(l.to_le_bytes().as_slice());
    file_bytes.extend_from_slice((count as u64).to_le_bytes().as_slice());
    file_bytes.extend_from_slice(&[0u8; 8]);
    file_bytes.extend_from_slice(&table_bytes);
    let digest = Sha256::digest(&table_bytes);
    file_bytes.extend_from_slice(&digest);

    let thr = ((l as f64) * (3f64.log2())).floor() as u64 + 1;
    let pass = (min_s as u64) >= thr;
    let mut hex_s = String::new();
    for b in digest.as_slice() {
        hex_s.push_str(&format!("{:02x}", b));
    }
    let manifest = Manifest {
        k,
        l,
        count: count as u64,
        min_s,
        threshold: thr,
        pass,
        sha256_table_hex: hex_s,
        file_ver: 1,
    };
    let c = verify(k, l, &file_bytes, &manifest, 2).unwrap();
    assert_eq!(c.min_s, min_s);
    assert_eq!(c.pass, pass);
}

#[test]
fn certificate_scenario_k4_l8() {
    let g = generate(4, 8, 2).unwrap();
    assert_eq!(g.table.len(), 8);
    let expected: Vec<u32> = (0..8).map(|i| collatz_s_sum(4, 8, i)).collect();
    assert_eq!(g.table, expected);
    let min = *expected.iter().min().unwrap();
    assert_eq!(g.manifest.min_s, min);
    assert_eq!(g.manifest.threshold, 13);
    assert_eq!(g.manifest.pass, min >= 13);
    assert_eq!(g.manifest.count, 8);
    let c = verify(4, 8, &g.file, &g.manifest, 3).unwrap();
    assert_eq!(c.min_s, min);
    assert_eq!(c.threshold, 13);
    assert_eq!(c.pass, min >= 13);
    let tf = read_table(&g.file).unwrap();
    assert_eq!(tf.entries, expected);
}

#[test]
fn certificate_derivation() {
    let t = vec![20u32, 14, 13, 40];
    let c = derive_certificate(4, 8, &t);
    assert_eq!(c.min_s, 13);
    assert_eq!(c.threshold, 13);
    assert!(c.pass);
    let t2 = vec![20u32, 12, 13, 40];
    let c2 = derive_certificate(4, 8, &t2);
    assert_eq!(c2.min_s, 12);
    assert!(!c2.pass);
    assert_eq!(table_min(&vec![]), u32::MAX);
}

#[test]
fn certificate_generated_manifest_records_digest() {
    let g = generate(5, 10, 1).unwrap();
    let digest = Sha256::digest(&g.file[32..g.file.len() - 32]);
    assert_eq!(g.manifest.sha256_table_hex, hex(digest.as_slice()));
    assert_eq!(&g.file[g.file.len() - 32..], digest.as_slice());
}

#[test]
fn certificate_invalid_params() {
    assert!(matches!(generate(1, 8, 1), Err(CertError::InvalidParams)));
    assert!(matches!(generate(29, 8, 1), Err(CertError::InvalidParams)));
    assert!(matches!(generate(4, 0, 1), Err(CertError::InvalidParams)));
    let g = generate(4, 8, 1).unwrap();
    assert!(matches!(verify(4, 0, &g.file, &g.manifest, 1), Err(CertError::InvalidParams)));
}

#[test]
fn certificate_tampered_min_s_is_detected() {
    let g = generate(4, 8, 2).unwrap();
    let mut m = copy(&g.manifest);
    m.min_s += 1;
    assert!(matches!(verify(4, 8, &g.file, &m, 2), Err(CertError::Manifest(ManifestField::MinS))));
    assert!(read_table(&g.file).is_ok());
}

#[test]
fn certificate_manifest_field_mismatches() {
    let g = generate(4, 8, 2).unwrap();
    let mut m = copy(&g.manifest);
    m.count = 9;
    assert!(matches!(verify(4, 8, &g.file, &m, 2), Err(CertError::Manifest(ManifestField::Params))));
    let mut m = copy(&g.manifest);
    m.sha256_table_hex = "00".to_string();
    assert!(matches!(verify(4, 8, &g.file, &m, 2), Err(CertError::Manifest(ManifestField::TableHash))));
    let mut m = copy(&g.manifest);
    m.file_ver = 1;
    assert!(matches!(verify(4, 8, &g.file, &m, 2), Err(CertError::Manifest(ManifestField::FileVersion))));
    let mut m = copy(&g.manifest);
    m.file_ver = 0;
    assert!(verify(4, 8, &g.file, &m, 2).is_ok());
    let mut m = copy(&g.manifest);
    m.threshold = 12;
    assert!(matches!(verify(4, 8, &g.file, &m, 2), Err(CertError::Manifest(ManifestField::Threshold))));
    let mut m = copy(&g.manifest);
    m.pass = !m.pass;
    assert!(matches!(verify(4, 8, &g.file, &m, 2), Err(CertError::Manifest(ManifestField::Pass))));
}

#[test]
fn certificate_file_errors() {
    let g = generate(4, 8, 2).unwrap();
    assert!(matches!(verify(5, 8, &g.file, &g.manifest, 2), Err(CertError::ParamMismatch)));
    assert!(matches!(verify(4, 9, &g.file, &g.manifest, 2), Err(CertError::ParamMismatch)));
    let mut b = g.file.clone();
    b[40] ^= 4;
    assert!(matches!(
        verify(4, 8, &b, &g.manifest, 2),
        Err(CertError::Format(FormatError::HashMismatch))
    ));
    let short: Vec<u32> = g.table[..4].to_vec();
    let e = entry_bytes(&short);
    let d: [u8; 32] = Sha256::digest(&e).into();
    let f = frame_table_file(4, 8, 4, &e, &d);
    assert!(matches!(verify(4, 8, &f, &g.manifest, 2), Err(CertError::CountMismatch)));
}

#[test]
fn certificate_value_mismatch() {
    let g = generate(4, 8, 2).unwrap();
    let mut t = g.table.clone();
    t[3] += 1;
    let e = entry_bytes(&t);
    let d: [u8; 32] = Sha256::digest(&e).into();
    let f = frame_table_file(4, 8, 8, &e, &d);
    let m = manifest_for(4, 8, &t, &d);
    assert!(matches!(verify(4, 8, &f, &m, 2), Err(CertError::ValueMismatch)));
    let tf = precheck(4, 8, &f).unwrap();
    let re = compute_table(4, 8);
    assert!(matches!(check_recomputed(4, 8, &tf, &re, &m), Err(CertError::ValueMismatch)));
    assert!(check_recomputed(4, 8, &tf, &t, &m).is_ok());
}

#[test]
fn certificate_param_mismatch_comes_before_length_and_digest() {
    let g = generate(4, 8, 2).unwrap();
    let mut b = g.file.clone();
    b.push(0);
    assert!(matches!(verify(5, 8, &b, &g.manifest, 2), Err(CertError::ParamMismatch)));
    assert!(matches!(verify(4, 8, &b, &g.manifest, 2), Err(CertError::Format(FormatError::BadLength))));
    let mut c = g.file.clone();
    c[40] ^= 1;
    assert!(matches!(verify(4, 7, &c, &g.manifest, 2), Err(CertError::ParamMismatch)));
    assert!(matches!(verify_table(4, 7, &c, 2), Err(CertError::ParamMismatch)));
}

#[test]
fn certificate_table_check_then_manifest_check() {
    let g = generate(6, 12, 2).unwrap();
    let (tf, c) = verify_table(6, 12, &g.file, 2).unwrap();
    assert_eq!(c.min_s, g.manifest.min_s);
    assert_eq!(c.count, 32);
    let c2 = check_manifest(6, 12, &tf, &c, &g.manifest).unwrap();
    assert_eq!(c2, c);
    let mut m = copy(&g.manifest);
    m.min_s = m.min_s.wrapping_add(1);
    assert!(matches!(check_manifest(6, 12, &tf, &c, &m), Err(CertError::Manifest(ManifestField::MinS))));
    let re = recompute_table(6, 12, 3);
    assert_eq!(re, compute_table(6, 12));
    assert_eq!(check_table(6, 12, &tf, &re).unwrap(), c);
}
