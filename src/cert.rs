//! Certificates: derivation from a table, generation of a table file with
//! its manifest, and verification of a stored pair by recomputation.
use crate::hex::{hex, hex_of};
use crate::kernel::{compute, kernel_value, table_len, valid_params, MAX_K, MIN_K};
use crate::table::{
    encode_entries, entry_bytes, frame_table_file, header_params, lemma_round_trip, parse_table_file,
    read_header_params, read_table,
    sha256, sha256_of, table_file_bytes, FormatError, FormatVersion, TableFile, TableFileView,
};
use crate::threshold::{lemma_threshold_bound, threshold, threshold_spec};
use rayon::iter::{IndexedParallelIterator, IntoParallelIterator, ParallelIterator};
use vstd::arithmetic::power2::{lemma2_to64, lemma_pow2_strictly_increases};
use vstd::bits::lemma_u64_shl_is_mul;
use vstd::prelude::*;

verus! {

/// The table that the kernel defines for `k` and `l`.
pub open spec fn kernel_table(k: u32, l: u32) -> Seq<u32> {
    Seq::new(table_len(k as nat), |i: int| kernel_value(k as nat, l as nat, i as nat))
}

/// The least entry of `s`; `u32::MAX` for an empty sequence.
pub open spec fn seq_min(s: Seq<u32>) -> u32
    decreases s.len(),
{
    if s.len() == 0 {
        u32::MAX
    } else {
        let m = seq_min(s.drop_last());
        if s.last() < m {
            s.last()
        } else {
            m
        }
    }
}

/// The statistics that a table certifies.
#[derive(Clone, Copy, Debug, PartialEq, Eq, Structural)]
pub struct Certificate {
    pub k: u32,
    pub l: u32,
    pub count: u64,
    /// The least valuation sum over all residues.
    pub min_s: u32,
    /// `floor(l * log2(3)) + 1`.
    pub threshold: u64,
    /// Whether `min_s` reaches the threshold.
    pub pass: bool,
}

/// The certificate of table `t` under parameters `k`, `l`.
pub open spec fn certificate_of(k: u32, l: u32, t: Seq<u32>) -> Certificate {
    Certificate {
        k,
        l,
        count: t.len() as u64,
        min_s: seq_min(t),
        threshold: threshold_spec(l as nat) as u64,
        pass: seq_min(t) >= threshold_spec(l as nat),
    }
}

/// The fields of a stored manifest that verification checks. The drift
/// `min_s / l - log2(3)` is a floating-point value and is checked by the
/// caller.
#[derive(Debug)]
pub struct Manifest {
    pub k: u32,
    pub l: u32,
    pub count: u64,
    pub min_s: u32,
    pub threshold: u64,
    pub pass: bool,
    /// The table digest in lower-case hexadecimal.
    pub sha256_table_hex: String,
    /// The format version tag; 0 when unknown, which skips its check.
    pub file_ver: u32,
}

/// The manifest field that disagrees with the recomputation.
#[derive(Clone, Copy, Debug, PartialEq, Eq, Structural)]
pub enum ManifestField {
    /// `k`, `l` or `count`.
    Params,
    TableHash,
    FileVersion,
    MinS,
    Threshold,
    Pass,
}

/// Why generation or verification stopped.
#[derive(Clone, Copy, Debug, PartialEq, Eq, Structural)]
pub enum CertError {
    /// `k` outside `[2, 28]` or `l == 0`.
    InvalidParams,
    /// The table file is malformed or its digest does not match.
    Format(FormatError),
    /// The file was made for other parameters than those asked for.
    ParamMismatch,
    /// The declared entry count is not `2^(k-1)`.
    CountMismatch,
    /// A recomputed entry differs from the stored one.
    ValueMismatch,
    /// A manifest field disagrees with the recomputed certificate.
    Manifest(ManifestField),
}

/// `m` records what generation produced for table `t`.
pub open spec fn manifest_describes(m: Manifest, k: u32, l: u32, t: Seq<u32>) -> bool {
    let c = certificate_of(k, l, t);
    &&& m.k == k
    &&& m.l == l
    &&& m.count == t.len() as u64
    &&& m.min_s == c.min_s
    &&& m.threshold == c.threshold
    &&& m.pass == c.pass
    &&& m.sha256_table_hex@ == hex_of(sha256_of(encode_entries(t))@)
    &&& m.file_ver == FormatVersion::Current.spec_tag()
}

/// The checks made before recomputation; `Ok` carries the decoded file.
/// The parameters recorded in the header are compared as soon as the header
/// is known to be one, before the length and the digest are checked.
pub open spec fn precheck_spec(k: u32, l: u32, file: Seq<u8>) -> Result<TableFileView, CertError> {
    if !valid_params(k, l) {
        Err(CertError::InvalidParams)
    } else if header_params(file) is Some && header_params(file) != Some::<(u32, u32)>((k, l)) {
        Err(CertError::ParamMismatch)
    } else {
        match parse_table_file(file) {
            Err(e) => Err(CertError::Format(e)),
            Ok(tf) => if tf.count != table_len(k as nat) {
                Err(CertError::CountMismatch)
            } else {
                Ok(tf)
            },
        }
    }
}

/// The comparison of the recomputed table `re` with the stored one; `Ok`
/// carries the certificate of `re`.
pub open spec fn table_check_spec(k: u32, l: u32, tf: TableFileView, re: Seq<u32>) -> Result<
    Certificate,
    CertError,
> {
    if re != tf.entries {
        Err(CertError::ValueMismatch)
    } else {
        Ok(certificate_of(k, l, re))
    }
}

/// The comparison of every manifest field with certificate `c` of file `tf`.
pub open spec fn manifest_check_spec(k: u32, l: u32, tf: TableFileView, c: Certificate, m: Manifest) -> Result<
    Certificate,
    CertError,
> {
    if m.k != k || m.l != l || m.count != tf.count {
        Err(CertError::Manifest(ManifestField::Params))
    } else if m.sha256_table_hex@ != hex_of(tf.digest) {
        Err(CertError::Manifest(ManifestField::TableHash))
    } else if m.file_ver != 0 && m.file_ver != tf.version.spec_tag() {
        Err(CertError::Manifest(ManifestField::FileVersion))
    } else if m.min_s != c.min_s {
        Err(CertError::Manifest(ManifestField::MinS))
    } else if m.threshold != threshold_spec(m.l as nat) {
        Err(CertError::Manifest(ManifestField::Threshold))
    } else if m.pass != c.pass {
        Err(CertError::Manifest(ManifestField::Pass))
    } else {
        Ok(c)
    }
}

/// The checks made once the table has been recomputed as `re`.
pub open spec fn check_spec(k: u32, l: u32, tf: TableFileView, re: Seq<u32>, m: Manifest) -> Result<
    Certificate,
    CertError,
> {
    match table_check_spec(k, l, tf, re) {
        Err(e) => Err(e),
        Ok(c) => manifest_check_spec(k, l, tf, c, m),
    }
}

/// The outcome of verifying the table file alone: decoding, the parameter
/// checks, and the comparison with the recomputed table.
pub open spec fn verify_table_spec(k: u32, l: u32, file: Seq<u8>) -> Result<
    (TableFileView, Certificate),
    CertError,
> {
    match precheck_spec(k, l, file) {
        Err(e) => Err(e),
        Ok(tf) => match table_check_spec(k, l, tf, kernel_table(k, l)) {
            Err(e) => Err(e),
            Ok(c) => Ok((tf, c)),
        },
    }
}

/// The outcome of verifying `file` and `m` for parameters `k`, `l`.
pub open spec fn verify_spec(k: u32, l: u32, file: Seq<u8>, m: Manifest) -> Result<Certificate, CertError> {
    match verify_table_spec(k, l, file) {
        Err(e) => Err(e),
        Ok((tf, c)) => manifest_check_spec(k, l, tf, c, m),
    }
}

/// `2^(k-1)` as a machine integer.
fn table_count(k: u32) -> (r: usize)
    requires
        MIN_K <= k <= MAX_K,
    ensures
        r == table_len(k as nat),
        r <= 0x800_0000,
{
    proof {
        lemma2_to64();
        if k - 1 < 27 {
            lemma_pow2_strictly_increases((k - 1) as nat, 27);
        }
        lemma_u64_shl_is_mul(1, (k - 1) as u64);
    }
    (1u64 << (k - 1) as u64) as usize
}

/// The least entry of `t`; `u32::MAX` when `t` is empty.
pub fn table_min(t: &Vec<u32>) -> (r: u32)
    ensures
        r == seq_min(t@),
{
    let mut m: u32 = u32::MAX;
    let mut i: usize = 0;
    while i < t.len()
        invariant
            i <= t@.len(),
            m == seq_min(t@.subrange(0, i as int)),
        decreases t@.len() - i,
    {
        assert(t@.subrange(0, i + 1).drop_last() =~= t@.subrange(0, i as int));
        if t[i] < m {
            m = t[i];
        }
        i = i + 1;
    }
    assert(t@.subrange(0, t@.len() as int) =~= t@);
    m
}

/// The certificate of table `t` under parameters `k`, `l`.
pub fn derive_certificate(k: u32, l: u32, t: &Vec<u32>) -> (r: Certificate)
    ensures
        r == certificate_of(k, l, t@),
{
    let min_s = table_min(t);
    let thr = threshold(l);
    Certificate { k, l, count: t.len() as u64, min_s, threshold: thr, pass: min_s as u64 >= thr }
}

/// Computes the whole table on the calling thread.
pub fn compute_table(k: u32, l: u32) -> (r: Vec<u32>)
    requires
        MIN_K <= k <= MAX_K,
    ensures
        r@ == kernel_table(k, l),
{
    let count = table_count(k);
    let mut t: Vec<u32> = Vec::new();
    let mut i: usize = 0;
    while i < count
        invariant
            i <= count,
            count == table_len(k as nat),
            MIN_K <= k <= MAX_K,
            t@ =~= Seq::new(i as nat, |j: int| kernel_value(k as nat, l as nat, j as nat)),
        decreases count - i,
    {
        t.push(compute(k, l, i as u64));
        i = i + 1;
    }
    t
}

/// Relies on rayon: `ThreadPoolBuilder::build`, which may fail (with
/// `threads == 0` the pool picks its own size), and `collect_into_vec` on an
/// indexed parallel iterator, which stores item `i` at position `i`. Item
/// `i` is `compute(k, l, i)`.
#[verifier::external_body]
fn compute_table_parallel(k: u32, l: u32, count: usize, threads: usize) -> (r: Option<Vec<u32>>)
    requires
        MIN_K <= k <= MAX_K,
        count == table_len(k as nat),
    ensures
        r matches Some(t) ==> t@ == kernel_table(k, l),
{
    let pool = rayon::ThreadPoolBuilder::new().num_threads(threads).build().ok()?;
    let mut out: Vec<u32> = Vec::new();
    pool.install(|| (0..count).into_par_iter().map(|i| compute(k, l, i as u64)).collect_into_vec(&mut out));
    Some(out)
}

/// Computes the table on `threads` workers (0: as many as the machine
/// offers), or on the calling thread when no worker pool can be started.
pub fn recompute_table(k: u32, l: u32, threads: usize) -> (r: Vec<u32>)
    requires
        MIN_K <= k <= MAX_K,
    ensures
        r@ == kernel_table(k, l),
{
    let count = table_count(k);
    match compute_table_parallel(k, l, count, threads) {
        Some(t) => t,
        None => compute_table(k, l),
    }
}

/// The manifest record for table `t` whose entries region has digest `d`.
pub fn manifest_for(k: u32, l: u32, t: &Vec<u32>, d: &[u8; 32]) -> (r: Manifest)
    ensures
        r.k == k && r.l == l && r.count == t@.len() as u64,
        r.min_s == certificate_of(k, l, t@).min_s,
        r.threshold == certificate_of(k, l, t@).threshold,
        r.pass == certificate_of(k, l, t@).pass,
        r.sha256_table_hex@ == hex_of(d@),
        r.file_ver == FormatVersion::Current.spec_tag(),
{
    let c = derive_certificate(k, l, t);
    Manifest {
        k,
        l,
        count: c.count,
        min_s: c.min_s,
        threshold: c.threshold,
        pass: c.pass,
        sha256_table_hex: hex(d.as_slice()),
        file_ver: FormatVersion::Current.tag(),
    }
}

/// What generation hands back: the table, its file image and its manifest.
pub struct Generated {
    pub table: Vec<u32>,
    pub file: Vec<u8>,
    pub manifest: Manifest,
}

/// Computes the table for `k`, `l` on `threads` workers (0: as many as the
/// machine offers), and lays out its file and manifest.
pub fn generate(k: u32, l: u32, threads: usize) -> (r: Result<Generated, CertError>)
    ensures
        !valid_params(k, l) ==> r == Err::<Generated, CertError>(CertError::InvalidParams),
        valid_params(k, l) ==> r is Ok,
        r matches Ok(g) ==> {
            &&& g.table@ == kernel_table(k, l)
            &&& g.file@ == table_file_bytes(k, l, kernel_table(k, l))
            &&& manifest_describes(g.manifest, k, l, kernel_table(k, l))
        },
{
    if k < MIN_K || k > MAX_K || l < 1 {
        return Err(CertError::InvalidParams);
    }
    let table = recompute_table(k, l, threads);
    let entries = entry_bytes(&table);
    let d = sha256(entries.as_slice());
    let file = frame_table_file(k, l, table.len() as u64, &entries, &d);
    let manifest = manifest_for(k, l, &table, &d);
    Ok(Generated { table, file, manifest })
}

/// Decodes `file` and checks it against the parameters asked for.
pub fn precheck(k: u32, l: u32, file: &Vec<u8>) -> (r: Result<TableFile, CertError>)
    ensures
        match r {
            Ok(tf) => precheck_spec(k, l, file@) == Ok::<TableFileView, CertError>(tf@),
            Err(e) => precheck_spec(k, l, file@) == Err::<TableFileView, CertError>(e),
        },
{
    if k < MIN_K || k > MAX_K || l < 1 {
        return Err(CertError::InvalidParams);
    }
    match read_header_params(file) {
        Some((fk, fl)) => {
            if fk != k || fl != l {
                return Err(CertError::ParamMismatch);
            }
        },
        None => {},
    }
    let tf = match read_table(file) {
        Ok(tf) => tf,
        Err(e) => return Err(CertError::Format(e)),
    };
    let count = table_count(k);
    if tf.count != count as u64 {
        return Err(CertError::CountMismatch);
    }
    Ok(tf)
}

/// Whether two tables are equal.
fn tables_equal(a: &Vec<u32>, b: &Vec<u32>) -> (r: bool)
    ensures
        r == (a@ == b@),
{
    if a.len() != b.len() {
        return false;
    }
    let mut i: usize = 0;
    while i < a.len()
        invariant
            a@.len() == b@.len(),
            i <= a@.len(),
            a@.subrange(0, i as int) == b@.subrange(0, i as int),
        decreases a@.len() - i,
    {
        if a[i] != b[i] {
            return false;
        }
        assert(a@.subrange(0, i + 1) =~= a@.subrange(0, i as int).push(a@[i as int]));
        assert(b@.subrange(0, i + 1) =~= b@.subrange(0, i as int).push(b@[i as int]));
        i = i + 1;
    }
    assert(a@.subrange(0, a@.len() as int) =~= a@);
    assert(b@.subrange(0, b@.len() as int) =~= b@);
    true
}

/// Compares the recomputed table `re` with the stored one and, when they
/// agree, derives the certificate of `re`.
pub fn check_table(k: u32, l: u32, tf: &TableFile, re: &Vec<u32>) -> (r: Result<Certificate, CertError>)
    ensures
        r == table_check_spec(k, l, tf@, re@),
{
    if !tables_equal(re, &tf.entries) {
        return Err(CertError::ValueMismatch);
    }
    Ok(derive_certificate(k, l, re))
}

/// Checks every manifest field against certificate `c` of file `tf`.
pub fn check_manifest(k: u32, l: u32, tf: &TableFile, c: &Certificate, m: &Manifest) -> (r: Result<Certificate, CertError>)
    ensures
        r == manifest_check_spec(k, l, tf@, *c, *m),
{
    if m.k != k || m.l != l || m.count != tf.count {
        return Err(CertError::Manifest(ManifestField::Params));
    }
    let h = hex(tf.digest.as_slice());
    if m.sha256_table_hex != h {
        return Err(CertError::Manifest(ManifestField::TableHash));
    }
    if m.file_ver != 0 && m.file_ver != tf.version.tag() {
        return Err(CertError::Manifest(ManifestField::FileVersion));
    }
    if m.min_s != c.min_s {
        return Err(CertError::Manifest(ManifestField::MinS));
    }
    if m.threshold != threshold(m.l) {
        return Err(CertError::Manifest(ManifestField::Threshold));
    }
    if m.pass != c.pass {
        return Err(CertError::Manifest(ManifestField::Pass));
    }
    Ok(*c)
}

/// The checks that follow recomputation: the recomputed table `re` against
/// the stored one, then every manifest field against the certificate of
/// `re`.
pub fn check_recomputed(k: u32, l: u32, tf: &TableFile, re: &Vec<u32>, m: &Manifest) -> (r: Result<Certificate, CertError>)
    ensures
        r == check_spec(k, l, tf@, re@, *m),
{
    let c = check_table(k, l, tf, re)?;
    check_manifest(k, l, tf, &c, m)
}

/// Verifies a stored table file for `k`, `l` without its manifest: decodes
/// and digest-checks the file, recomputes the table on `threads` workers and
/// compares. `Ok` carries the decoded file and the recomputed certificate.
pub fn verify_table(k: u32, l: u32, file: &Vec<u8>, threads: usize) -> (r: Result<(TableFile, Certificate), CertError>)
    ensures
        match r {
            Ok((tf, c)) => verify_table_spec(k, l, file@) == Ok::<(TableFileView, Certificate), CertError>((tf@, c)),
            Err(e) => verify_table_spec(k, l, file@) == Err::<(TableFileView, Certificate), CertError>(e),
        },
{
    let tf = precheck(k, l, file)?;
    let re = recompute_table(k, l, threads);
    let c = check_table(k, l, &tf, &re)?;
    Ok((tf, c))
}

/// Verifies a stored table file and manifest for `k`, `l`: the checks of
/// `verify_table`, then every manifest field.
pub fn verify(k: u32, l: u32, file: &Vec<u8>, m: &Manifest, threads: usize) -> (r: Result<Certificate, CertError>)
    ensures
        r == verify_spec(k, l, file@, *m),
{
    let (tf, c) = verify_table(k, l, file, threads)?;
    check_manifest(k, l, &tf, &c, m)
}

/// `seq_min` is the least entry: no entry is below it, and a non-empty
/// sequence holds it.
pub proof fn lemma_seq_min_is_least(s: Seq<u32>)
    ensures
        forall|i: int| 0 <= i < s.len() ==> seq_min(s) <= #[trigger] s[i],
        s.len() > 0 ==> exists|i: int| 0 <= i < s.len() && s[i] == seq_min(s),
    decreases s.len(),
{
    if s.len() > 0 {
        let p = s.drop_last();
        lemma_seq_min_is_least(p);
        assert forall|i: int| 0 <= i < s.len() implies seq_min(s) <= #[trigger] s[i] by {
            if i < p.len() {
                assert(p[i] == s[i]);
            }
        }
        if s.last() >= seq_min(p) && p.len() > 0 {
            let j = choose|j: int| 0 <= j < p.len() && p[j] == seq_min(p);
            assert(s[j] == seq_min(s));
        } else {
            assert(s[s.len() - 1] == seq_min(s));
        }
    }
}

/// A table is determined by `k` and `l`: any two tables whose entries are
/// each the kernel's value, however the work was scheduled, are equal.
pub proof fn lemma_table_determined(k: u32, l: u32, t1: Seq<u32>, t2: Seq<u32>)
    requires
        t1.len() == table_len(k as nat),
        t2.len() == table_len(k as nat),
        forall|i: int| 0 <= i < t1.len() ==> #[trigger] t1[i] == kernel_value(k as nat, l as nat, i as nat),
        forall|i: int| 0 <= i < t2.len() ==> #[trigger] t2[i] == kernel_value(k as nat, l as nat, i as nat),
    ensures
        t1 == t2,
        t1 == kernel_table(k, l),
{
    assert(t1 =~= t2);
    assert(t1 =~= kernel_table(k, l));
}

/// A freshly generated table file, with the manifest generated beside it,
/// passes verification with the generated certificate.
pub proof fn lemma_generated_verifies(k: u32, l: u32, m: Manifest)
    requires
        valid_params(k, l),
        manifest_describes(m, k, l, kernel_table(k, l)),
    ensures
        verify_spec(k, l, table_file_bytes(k, l, kernel_table(k, l)), m) == Ok::<Certificate, CertError>(
            certificate_of(k, l, kernel_table(k, l)),
        ),
{
    let t = kernel_table(k, l);
    lemma2_to64();
    if k - 1 < 27 {
        lemma_pow2_strictly_increases((k - 1) as nat, 27);
    }
    lemma_round_trip(k, l, t);
    lemma_threshold_bound(l as nat);
    let file = table_file_bytes(k, l, t);
    let tf = parse_table_file(file).unwrap();
    assert(t.len() == table_len(k as nat));
    assert(tf.count == table_len(k as nat));
    assert(precheck_spec(k, l, file) == Ok::<TableFileView, CertError>(tf));
}

/// Changing the stored minimum of a manifest that verifies makes
/// verification fail on that field, while the table file itself still
/// decodes and passes its digest check.
pub proof fn lemma_min_s_tamper_detected(k: u32, l: u32, file: Seq<u8>, m: Manifest, m2: Manifest)
    requires
        verify_spec(k, l, file, m) is Ok,
        m2.min_s != m.min_s,
        m2.k == m.k,
        m2.l == m.l,
        m2.count == m.count,
        m2.threshold == m.threshold,
        m2.pass == m.pass,
        m2.sha256_table_hex@ == m.sha256_table_hex@,
        m2.file_ver == m.file_ver,
    ensures
        verify_spec(k, l, file, m2) == Err::<Certificate, CertError>(CertError::Manifest(ManifestField::MinS)),
        parse_table_file(file) is Ok,
{
}

} // verus!
