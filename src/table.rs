//! The binary table file: a fixed header, the entries in little-endian
//! order, and a SHA-256 digest of the entries region.
use sha2::Digest;
use vstd::bytes::{
    lemma_auto_spec_u32_to_from_le_bytes, lemma_auto_spec_u64_to_from_le_bytes,
    spec_u16_from_le_bytes, spec_u32_from_le_bytes, spec_u32_to_le_bytes,
    spec_u64_from_le_bytes, spec_u64_to_le_bytes, u16_from_le_bytes, u32_from_le_bytes,
    u32_to_le_bytes, u64_from_le_bytes, u64_to_le_bytes,
};
use crate::hex::{hex, hex_of};
use vstd::prelude::*;
use vstd::slice::slice_subrange;

verus! {

/// Length of the header in bytes.
pub const HEADER_LEN: usize = 32;

/// Length of the trailing digest in bytes.
pub const DIGEST_LEN: usize = 32;

/// The four tag bytes "CALT" that open every table file.
pub open spec fn magic() -> Seq<u8> {
    seq![0x43u8, 0x41u8, 0x4cu8, 0x54u8]
}

/// The SHA-256 digest of a byte sequence.
pub uninterp spec fn sha256_of(data: Seq<u8>) -> [u8; 32];

/// Relies on sha2's `Sha256::digest`: the SHA-256 digest of `data`, which
/// depends on the bytes alone.
#[verifier::external_body]
pub(crate) fn sha256(data: &[u8]) -> (r: [u8; 32])
    ensures
        r == sha256_of(data@),
{
    sha2::Sha256::digest(data).into()
}

/// The SHA-256 digest of `data` in lower-case hexadecimal.
pub fn sha256_hex(data: &[u8]) -> (r: String)
    ensures
        r@ == hex_of(sha256_of(data@)@),
{
    let d = sha256(data);
    hex(d.as_slice())
}

/// The two on-disk layouts: two-byte entries (tag 1) and four-byte entries
/// (tag 2).
#[derive(Clone, Copy, Debug, PartialEq, Eq, Structural)]
pub enum FormatVersion {
    Legacy,
    Current,
}

impl FormatVersion {
    pub open spec fn spec_tag(self) -> u32 {
        match self {
            FormatVersion::Legacy => 1,
            FormatVersion::Current => 2,
        }
    }

    pub open spec fn spec_width(self) -> nat {
        match self {
            FormatVersion::Legacy => 2,
            FormatVersion::Current => 4,
        }
    }

    /// The version tag written in the header.
    pub fn tag(&self) -> (r: u32)
        ensures
            r == self.spec_tag(),
    {
        match self {
            FormatVersion::Legacy => 1,
            FormatVersion::Current => 2,
        }
    }

    /// Bytes per entry.
    pub fn width(&self) -> (r: usize)
        ensures
            r == self.spec_width(),
    {
        match self {
            FormatVersion::Legacy => 2,
            FormatVersion::Current => 4,
        }
    }
}

/// The version that a header tag names, if any.
pub open spec fn version_from_tag(tag: u32) -> Option<FormatVersion> {
    if tag == 1 {
        Some(FormatVersion::Legacy)
    } else if tag == 2 {
        Some(FormatVersion::Current)
    } else {
        None
    }
}

/// Why a byte sequence is not a usable table file.
#[derive(Clone, Copy, Debug, PartialEq, Eq, Structural)]
pub enum FormatError {
    /// Shorter than a header and a digest.
    TooShort,
    /// The first four bytes are not the format tag.
    BadMagic,
    /// The version tag is neither 1 nor 2.
    BadVersion,
    /// The length disagrees with the declared count and the entry width.
    BadLength,
    /// The stored digest is not the digest of the entries region.
    HashMismatch,
}

/// A decoded table file.
pub struct TableFile {
    pub k: u32,
    pub l: u32,
    pub version: FormatVersion,
    pub count: u64,
    pub entries: Vec<u32>,
    pub digest: [u8; 32],
}

/// The mathematical content of a table file.
pub struct TableFileView {
    pub k: u32,
    pub l: u32,
    pub version: FormatVersion,
    pub count: u64,
    pub entries: Seq<u32>,
    pub digest: Seq<u8>,
}

impl View for TableFile {
    type V = TableFileView;

    open spec fn view(&self) -> TableFileView {
        TableFileView {
            k: self.k,
            l: self.l,
            version: self.version,
            count: self.count,
            entries: self.entries@,
            digest: self.digest@,
        }
    }
}

/// The bytes between the header and the trailing digest.
pub open spec fn entries_region(b: Seq<u8>) -> Seq<u8> {
    b.subrange(HEADER_LEN as int, b.len() - DIGEST_LEN)
}

/// Entry `i` of an entries region laid out as `v` prescribes.
pub open spec fn decode_entry(region: Seq<u8>, v: FormatVersion, i: int) -> u32 {
    match v {
        FormatVersion::Legacy => spec_u16_from_le_bytes(region.subrange(2 * i, 2 * i + 2)) as u32,
        FormatVersion::Current => spec_u32_from_le_bytes(region.subrange(4 * i, 4 * i + 4)),
    }
}

/// The header field at `off` read as a little-endian `u32`.
pub open spec fn field_u32(b: Seq<u8>, off: int) -> u32 {
    spec_u32_from_le_bytes(b.subrange(off, off + 4))
}

/// The declared entry count.
pub open spec fn field_count(b: Seq<u8>) -> u64 {
    spec_u64_from_le_bytes(b.subrange(16, 24))
}

/// The `k` and `l` recorded in the header of `b`, once its length, tag
/// and version have been found in order; `None` otherwise.
pub open spec fn header_params(b: Seq<u8>) -> Option<(u32, u32)> {
    if b.len() >= HEADER_LEN + DIGEST_LEN && b.subrange(0, 4) == magic() && version_from_tag(
        field_u32(b, 4),
    ).is_some() {
        Some((field_u32(b, 8), field_u32(b, 12)))
    } else {
        None
    }
}

/// Decoding of `b` when `d` stands for the digest of its entries region.
pub open spec fn parse_with_digest(b: Seq<u8>, d: Seq<u8>) -> Result<TableFileView, FormatError> {
    if b.len() < HEADER_LEN + DIGEST_LEN {
        Err(FormatError::TooShort)
    } else if b.subrange(0, 4) != magic() {
        Err(FormatError::BadMagic)
    } else if version_from_tag(field_u32(b, 4)).is_none() {
        Err(FormatError::BadVersion)
    } else {
        let v = version_from_tag(field_u32(b, 4)).unwrap();
        let count = field_count(b);
        if b.len() != HEADER_LEN + count * v.spec_width() + DIGEST_LEN {
            Err(FormatError::BadLength)
        } else if b.subrange(b.len() - DIGEST_LEN, b.len() as int) != d {
            Err(FormatError::HashMismatch)
        } else {
            Ok(
                TableFileView {
                    k: field_u32(b, 8),
                    l: field_u32(b, 12),
                    version: v,
                    count,
                    entries: Seq::new(count as nat, |i: int| decode_entry(entries_region(b), v, i)),
                    digest: d,
                },
            )
        }
    }
}

/// Decoding of a table file, digest check included.
pub open spec fn parse_table_file(b: Seq<u8>) -> Result<TableFileView, FormatError> {
    if b.len() < HEADER_LEN + DIGEST_LEN {
        Err(FormatError::TooShort)
    } else {
        parse_with_digest(b, sha256_of(entries_region(b))@)
    }
}

/// `r` is the executable image of the spec-level outcome `s`.
pub open spec fn result_matches(r: Result<TableFile, FormatError>, s: Result<TableFileView, FormatError>) -> bool {
    match r {
        Ok(t) => s == Ok::<TableFileView, FormatError>(t@),
        Err(e) => s == Err::<TableFileView, FormatError>(e),
    }
}

/// Whether `b[off..off + d.len()]` equals `d`.
fn bytes_equal_at(b: &Vec<u8>, off: usize, d: &[u8; 32]) -> (r: bool)
    requires
        off + d@.len() <= b@.len(),
    ensures
        r == (b@.subrange(off as int, off + d@.len()) == d@),
{
    let mut i: usize = 0;
    assert(d@.len() == 32);
    while i < 32
        invariant
            d@.len() == 32,
            off + 32 <= b.len(),
            off + d@.len() <= b@.len(),
            i <= d@.len(),
            b@.subrange(off as int, off + i) == d@.subrange(0, i as int),
        decreases d@.len() - i,
    {
        if b[off + i] != d[i] {
            assert(b@.subrange(off as int, off + d@.len())[i as int] != d@[i as int]);
            return false;
        }
        assert(b@.subrange(off as int, off + i + 1) =~= d@.subrange(0, i + 1));
        i = i + 1;
    }
    assert(d@.subrange(0, d@.len() as int) =~= d@);
    true
}

/// Reads `k` and `l` from the header of `b` when the file is long enough
/// and its tag and version are known.
pub fn read_header_params(b: &Vec<u8>) -> (r: Option<(u32, u32)>)
    ensures
        r == header_params(b@),
{
    if b.len() < HEADER_LEN + DIGEST_LEN {
        return None;
    }
    if !(b[0] == 0x43u8 && b[1] == 0x41u8 && b[2] == 0x4cu8 && b[3] == 0x54u8) {
        assert(b@.subrange(0, 4) != magic()) by {
            if b@.subrange(0, 4) == magic() {
                assert(b@.subrange(0, 4)[0] == b@[0]);
                assert(b@.subrange(0, 4)[1] == b@[1]);
                assert(b@.subrange(0, 4)[2] == b@[2]);
                assert(b@.subrange(0, 4)[3] == b@[3]);
            }
        }
        return None;
    }
    assert(b@.subrange(0, 4) =~= magic());
    let bs = b.as_slice();
    let tag = u32_from_le_bytes(slice_subrange(bs, 4, 8));
    if tag != 1 && tag != 2 {
        return None;
    }
    let k = u32_from_le_bytes(slice_subrange(bs, 8, 12));
    let l = u32_from_le_bytes(slice_subrange(bs, 12, 16));
    Some((k, l))
}

/// Decodes a table file given the digest `d` of its entries region; every
/// check but the digest's own computation is made here.
pub fn decode_table_file(b: &Vec<u8>, d: &[u8; 32]) -> (r: Result<TableFile, FormatError>)
    ensures
        result_matches(r, parse_with_digest(b@, d@)),
{
    let n = b.len();
    if n < HEADER_LEN + DIGEST_LEN {
        return Err(FormatError::TooShort);
    }
    let bs = b.as_slice();
    if !(b[0] == 0x43u8 && b[1] == 0x41u8 && b[2] == 0x4cu8 && b[3] == 0x54u8) {
        assert(b@.subrange(0, 4) != magic()) by {
            if b@.subrange(0, 4) == magic() {
                assert(b@.subrange(0, 4)[0] == b@[0]);
                assert(b@.subrange(0, 4)[1] == b@[1]);
                assert(b@.subrange(0, 4)[2] == b@[2]);
                assert(b@.subrange(0, 4)[3] == b@[3]);
            }
        }
        return Err(FormatError::BadMagic);
    }
    assert(b@.subrange(0, 4) =~= magic());
    let tag = u32_from_le_bytes(slice_subrange(bs, 4, 8));
    let version = if tag == 1 {
        FormatVersion::Legacy
    } else if tag == 2 {
        FormatVersion::Current
    } else {
        return Err(FormatError::BadVersion);
    };
    let k = u32_from_le_bytes(slice_subrange(bs, 8, 12));
    let l = u32_from_le_bytes(slice_subrange(bs, 12, 16));
    let count = u64_from_le_bytes(slice_subrange(bs, 16, 24));
    let width = version.width();
    let body = n - (HEADER_LEN + DIGEST_LEN);
    if body % width != 0 || (body / width) as u64 != count {
        proof {
            vstd::arithmetic::div_mod::lemma_fundamental_div_mod(body as int, width as int);
            if n == HEADER_LEN + count * version.spec_width() + DIGEST_LEN {
                vstd::arithmetic::div_mod::lemma_mod_multiples_basic(count as int, width as int);
                vstd::arithmetic::div_mod::lemma_div_multiples_vanish(count as int, width as int);
                assert(body == count * width);
            }
        }
        return Err(FormatError::BadLength);
    }
    proof {
        vstd::arithmetic::div_mod::lemma_fundamental_div_mod(body as int, width as int);
    }
    assert(n == HEADER_LEN + count * version.spec_width() + DIGEST_LEN);
    if !bytes_equal_at(b, n - DIGEST_LEN, d) {
        return Err(FormatError::HashMismatch);
    }
    let mut entries: Vec<u32> = Vec::new();
    let mut i: usize = 0;
    let ghost region = entries_region(b@);
    while i < body / width
        invariant
            n == b@.len(),
            body == n - 64,
            width == version.spec_width(),
            body == count * width,
            region == entries_region(b@),
            i <= body / width,
            bs@ == b@,
            entries@ =~= Seq::new(i as nat, |j: int| decode_entry(region, version, j)),
        decreases body / width - i,
    {
        proof {
            vstd::arithmetic::mul::lemma_mul_inequality(i as int + 1, body as int / width as int, width as int);
            vstd::arithmetic::div_mod::lemma_fundamental_div_mod(body as int, width as int);
        }
        let off = HEADER_LEN + width * i;
        let v = match version {
            FormatVersion::Legacy => {
                let x = u16_from_le_bytes(slice_subrange(bs, off, off + 2));
                assert(b@.subrange(off as int, off + 2) =~= region.subrange(2 * i, 2 * i + 2));
                x as u32
            },
            FormatVersion::Current => {
                let x = u32_from_le_bytes(slice_subrange(bs, off, off + 4));
                assert(b@.subrange(off as int, off + 4) =~= region.subrange(4 * i, 4 * i + 4));
                x
            },
        };
        entries.push(v);
        i = i + 1;
    }
    Ok(TableFile { k, l, version, count, entries, digest: *d })
}

/// Decodes a table file and checks its digest.
pub fn read_table(b: &Vec<u8>) -> (r: Result<TableFile, FormatError>)
    ensures
        result_matches(r, parse_table_file(b@)),
{
    if b.len() < HEADER_LEN + DIGEST_LEN {
        return Err(FormatError::TooShort);
    }
    let d = sha256(slice_subrange(b.as_slice(), HEADER_LEN, b.len() - DIGEST_LEN));
    decode_table_file(b, &d)
}

/// The entries of `t`, four little-endian bytes each.
pub open spec fn encode_entries(t: Seq<u32>) -> Seq<u8>
    decreases t.len(),
{
    if t.len() == 0 {
        Seq::empty()
    } else {
        encode_entries(t.drop_last()) + spec_u32_to_le_bytes(t.last())
    }
}

/// The header of a file of version `v`; its reserved bytes are zero.
pub open spec fn header_bytes(v: FormatVersion, k: u32, l: u32, count: u64) -> Seq<u8> {
    magic() + spec_u32_to_le_bytes(v.spec_tag()) + spec_u32_to_le_bytes(k) + spec_u32_to_le_bytes(l)
        + spec_u64_to_le_bytes(count) + Seq::new(8, |i: int| 0u8)
}

/// A current-version file around an encoded entries region and a digest.
pub open spec fn frame_bytes(k: u32, l: u32, count: u64, entries: Seq<u8>, d: Seq<u8>) -> Seq<u8> {
    header_bytes(FormatVersion::Current, k, l, count) + entries + d
}

/// The current-version file of table `t`.
pub open spec fn table_file_bytes(k: u32, l: u32, t: Seq<u32>) -> Seq<u8> {
    frame_bytes(k, l, t.len() as u64, encode_entries(t), sha256_of(encode_entries(t))@)
}

/// Encodes the entries of a table in the current width.
pub fn entry_bytes(t: &Vec<u32>) -> (r: Vec<u8>)
    ensures
        r@ == encode_entries(t@),
{
    let mut out: Vec<u8> = Vec::new();
    let mut i: usize = 0;
    while i < t.len()
        invariant
            i <= t@.len(),
            out@ == encode_entries(t@.subrange(0, i as int)),
        decreases t@.len() - i,
    {
        assert(t@.subrange(0, i + 1).drop_last() =~= t@.subrange(0, i as int));
        let x = u32_to_le_bytes(t[i]);
        out.extend_from_slice(x.as_slice());
        i = i + 1;
    }
    assert(t@.subrange(0, t@.len() as int) =~= t@);
    out
}

/// Lays out a current-version file: header, `entries`, then `d`.
pub fn frame_table_file(k: u32, l: u32, count: u64, entries: &Vec<u8>, d: &[u8; 32]) -> (r: Vec<u8>)
    ensures
        r@ == frame_bytes(k, l, count, entries@, d@),
{
    let mut out: Vec<u8> = Vec::new();
    out.push(0x43u8);
    out.push(0x41u8);
    out.push(0x4cu8);
    out.push(0x54u8);
    assert(out@ =~= magic());
    let tag = u32_to_le_bytes(FormatVersion::Current.tag());
    out.extend_from_slice(tag.as_slice());
    let kb = u32_to_le_bytes(k);
    out.extend_from_slice(kb.as_slice());
    let lb = u32_to_le_bytes(l);
    out.extend_from_slice(lb.as_slice());
    let cb = u64_to_le_bytes(count);
    out.extend_from_slice(cb.as_slice());
    let ghost before = out@;
    let mut j: usize = 0;
    while j < 8
        invariant
            j <= 8,
            out@ =~= before + Seq::new(j as nat, |i: int| 0u8),
        decreases 8 - j,
    {
        out.push(0u8);
        j = j + 1;
    }
    assert(out@ =~= header_bytes(FormatVersion::Current, k, l, count));
    out.extend_from_slice(entries.as_slice());
    out.extend_from_slice(d.as_slice());
    out
}

/// Encodes table `t` as a current-version file for parameters `k`, `l`.
pub fn write_table(t: &Vec<u32>, k: u32, l: u32) -> (r: Vec<u8>)
    ensures
        r@ == table_file_bytes(k, l, t@),
{
    let entries = entry_bytes(t);
    let d = sha256(entries.as_slice());
    frame_table_file(k, l, t.len() as u64, &entries, &d)
}

/// The encoding of `t` is four bytes per entry.
pub proof fn lemma_encode_entries_len(t: Seq<u32>)
    ensures
        encode_entries(t).len() == 4 * t.len(),
    decreases t.len(),
{
    lemma_auto_spec_u32_to_from_le_bytes();
    if t.len() > 0 {
        lemma_encode_entries_len(t.drop_last());
    }
}

/// Bytes `4i .. 4i + 4` of the encoding of `t` encode `t[i]`.
pub proof fn lemma_encode_entries_index(t: Seq<u32>, i: int)
    requires
        0 <= i < t.len(),
    ensures
        encode_entries(t).subrange(4 * i, 4 * i + 4) == spec_u32_to_le_bytes(t[i]),
    decreases t.len(),
{
    lemma_auto_spec_u32_to_from_le_bytes();
    let p = t.drop_last();
    lemma_encode_entries_len(p);
    let e = encode_entries(t);
    if i == t.len() - 1 {
        assert(e.subrange(4 * i, 4 * i + 4) =~= spec_u32_to_le_bytes(t[i]));
    } else {
        lemma_encode_entries_index(p, i);
        assert(e.subrange(4 * i, 4 * i + 4) =~= encode_entries(p).subrange(4 * i, 4 * i + 4));
    }
}

/// Reading back a freshly written table file yields the parameters, the
/// current version and the table itself.
pub proof fn lemma_round_trip(k: u32, l: u32, t: Seq<u32>)
    requires
        t.len() <= u64::MAX,
    ensures
        parse_table_file(table_file_bytes(k, l, t)) == Ok::<TableFileView, FormatError>(
            TableFileView {
                k,
                l,
                version: FormatVersion::Current,
                count: t.len() as u64,
                entries: t,
                digest: sha256_of(encode_entries(t))@,
            },
        ),
{
    lemma_auto_spec_u32_to_from_le_bytes();
    lemma_auto_spec_u64_to_from_le_bytes();
    lemma_encode_entries_len(t);
    let count = t.len() as u64;
    let e = encode_entries(t);
    let d = sha256_of(e)@;
    let h = header_bytes(FormatVersion::Current, k, l, count);
    let b = table_file_bytes(k, l, t);
    assert(h.len() == 32);
    assert(b == h + e + d);
    assert(b.subrange(0, 4) =~= magic());
    assert(b.subrange(4, 8) =~= spec_u32_to_le_bytes(2));
    assert(b.subrange(8, 12) =~= spec_u32_to_le_bytes(k));
    assert(b.subrange(12, 16) =~= spec_u32_to_le_bytes(l));
    assert(b.subrange(16, 24) =~= spec_u64_to_le_bytes(count));
    assert(entries_region(b) =~= e);
    assert(b.subrange(b.len() - DIGEST_LEN, b.len() as int) =~= d);
    let v = FormatVersion::Current;
    let decoded = Seq::new(count as nat, |i: int| decode_entry(entries_region(b), v, i));
    assert forall|i: int| 0 <= i < t.len() implies decoded[i] == t[i] by {
        lemma_encode_entries_index(t, i);
        assert(entries_region(b).subrange(4 * i, 4 * i + 4) == spec_u32_to_le_bytes(t[i]));
        assert(spec_u32_from_le_bytes(spec_u32_to_le_bytes(t[i])) == t[i]);
    }
    assert(decoded =~= t);
}

/// Changing one byte of the entries region of a valid file makes reading
/// fail with a digest mismatch, whenever the digest of the changed region
/// differs from the stored one (which SHA-256 is designed to guarantee).
pub proof fn lemma_entry_change_detected(b: Seq<u8>, i: int, x: u8)
    requires
        parse_table_file(b) is Ok,
        HEADER_LEN <= i < b.len() - DIGEST_LEN,
        x != b[i],
        sha256_of(entries_region(b.update(i, x))) != sha256_of(entries_region(b)),
    ensures
        parse_table_file(b.update(i, x)) == Err::<TableFileView, FormatError>(FormatError::HashMismatch),
{
    let b2 = b.update(i, x);
    assert(b2.subrange(0, 4) =~= b.subrange(0, 4));
    assert(b2.subrange(4, 8) =~= b.subrange(4, 8));
    assert(b2.subrange(16, 24) =~= b.subrange(16, 24));
    let tr = b.subrange(b.len() - DIGEST_LEN, b.len() as int);
    assert(b2.subrange(b.len() - DIGEST_LEN, b.len() as int) =~= tr);
    assert(tr == sha256_of(entries_region(b))@);
    vstd::array::lemma_array_index(sha256_of(entries_region(b)), 0);
    if sha256_of(entries_region(b2))@ == sha256_of(entries_region(b))@ {
        vstd::array::axiom_array_ext_equal(sha256_of(entries_region(b2)), sha256_of(entries_region(b)));
        assert forall|j: int| 0 <= j < 32 implies sha256_of(entries_region(b2))[j] == sha256_of(entries_region(b))[j] by {
            vstd::array::lemma_array_index(sha256_of(entries_region(b2)), j);
            vstd::array::lemma_array_index(sha256_of(entries_region(b)), j);
        }
    }
}

/// Changing a byte of the reserved header padding does not change what is
/// read.
pub proof fn lemma_padding_change_ignored(b: Seq<u8>, i: int, x: u8)
    requires
        24 <= i < HEADER_LEN,
        i < b.len(),
    ensures
        parse_table_file(b.update(i, x)) == parse_table_file(b),
{
    let b2 = b.update(i, x);
    if b.len() >= HEADER_LEN + DIGEST_LEN {
        assert(b2.subrange(0, 4) =~= b.subrange(0, 4));
        assert(b2.subrange(4, 8) =~= b.subrange(4, 8));
        assert(b2.subrange(8, 12) =~= b.subrange(8, 12));
        assert(b2.subrange(12, 16) =~= b.subrange(12, 16));
        assert(b2.subrange(16, 24) =~= b.subrange(16, 24));
        assert(entries_region(b2) =~= entries_region(b));
        assert(b2.subrange(b.len() - DIGEST_LEN, b.len() as int) =~= b.subrange(
            b.len() - DIGEST_LEN,
            b.len() as int,
        ));
    }
}

} // verus!
