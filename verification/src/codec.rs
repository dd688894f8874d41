//! Byte layouts of the single-file containers.
//!
//! A `.trickydata` file is: the magic `trickydata:`, the version text, a zero
//! byte, the 16-byte MD5 digest of the gzip-compressed index, the compressed
//! index's length (4 bytes, little-endian), the compressed index, the digest
//! again as a trailing bookend, a zero byte, and then the blob.
//!
//! A `.zip` holds the index and the blob as two members.

use vstd::prelude::*;
use vstd::utf8::{decode_utf8, encode_utf8, encode_utf8_decode_utf8, encode_utf8_valid_utf8, valid_utf8};
use vstd::string::StringSliceAdditionalSpecFns;
use vstd::slice::{slice_subrange, slice_to_vec};
use crate::text::{concat, ends_with, has_suffix, utf8_str};
use crate::corpus::{BIN_NAME, BIN_SUFFIX, DEFAULT_PREFIX, INDEX_SUFFIX};

verus! {

/// What gzip compression (default level, zero modification time) makes of
/// `data`.
pub uninterp spec fn gzip_of(data: Seq<u8>) -> Seq<u8>;

/// What gzip decompression makes of `data`, if it is a gzip stream.
pub uninterp spec fn gunzip_of(data: Seq<u8>) -> Option<Seq<u8>>;

/// The MD5 digest of `data`.
pub uninterp spec fn md5_of(data: Seq<u8>) -> Seq<u8>;

/// Compress `data` with gzip at the default level and a zeroed modification
/// time, so that the output depends on the input alone.
///
/// Calls `flate2::GzBuilder` with `mtime(0)` and writes through the
/// resulting `GzEncoder` into a `Vec`, then `finish`es it. The contract names
/// the output and states that gzip decompression gives `data` back. Writing
/// and finishing into a `Vec` cannot fail, so the arms for their errors are
/// never taken.
#[verifier::external_body]
fn gzip(data: &[u8]) -> (r: Vec<u8>)
    ensures
        r@ == gzip_of(data@),
        gunzip_of(r@) == Some(data@),
{
    let mut enc = flate2::GzBuilder::new().mtime(0).write(Vec::new(), flate2::Compression::default());
    match std::io::Write::write_all(&mut enc, data) {
        Ok(()) => enc.finish().unwrap_or_default(),
        Err(_) => Vec::new(),
    }
}

/// Decompress a gzip stream.
///
/// Reads `data` to its end through `flate2::read::GzDecoder`; the contract
/// names the result, `None` when the stream is not valid gzip.
#[verifier::external_body]
fn gunzip(data: &[u8]) -> (r: Option<Vec<u8>>)
    ensures
        r matches Some(v) ==> gunzip_of(data@) == Some(v@),
        r is None ==> gunzip_of(data@) is None,
{
    let mut out = Vec::new();
    match std::io::Read::read_to_end(&mut flate2::read::GzDecoder::new(data), &mut out) {
        Ok(_) => Some(out),
        Err(_) => None,
    }
}

/// The MD5 digest of `data`, 16 bytes, from `md5::compute`.
#[verifier::external_body]
fn md5_digest(data: &[u8]) -> (r: Vec<u8>)
    ensures
        r@ == md5_of(data@),
        r@.len() == 16,
{
    md5::compute(data).0.to_vec()
}

/// The magic prefix of a `.trickydata` file: `trickydata:`.
pub open spec fn magic_bytes() -> Seq<u8> {
    seq![0x74u8, 0x72, 0x69, 0x63, 0x6b, 0x79, 0x64, 0x61, 0x74, 0x61, 0x3a]
}

/// `n` as 4 little-endian bytes.
pub open spec fn le32(n: nat) -> Seq<u8> {
    seq![(n % 256) as u8, (n / 256 % 256) as u8, (n / 65536 % 256) as u8, (n / 16777216 % 256) as u8]
}

/// The value of 4 little-endian bytes.
pub open spec fn le32_value(b: Seq<u8>) -> nat {
    (b[0] + 256 * b[1] + 65536 * b[2] + 16777216 * b[3]) as nat
}

/// The bytes of a `.trickydata` file holding `version`, the compressed index
/// `gz` with digest `digest`, and `blob`.
pub open spec fn trickydata_layout(version: Seq<char>, gz: Seq<u8>, digest: Seq<u8>, blob: Seq<u8>) -> Seq<
    u8,
> {
    magic_bytes() + encode_utf8(version) + seq![0u8] + digest + le32(gz.len()) + gz + digest + seq![
        0u8,
    ] + blob
}

/// A part of a `.trickydata` file that can be cut short.
#[derive(Debug, Clone, Copy, PartialEq, Eq)]
pub enum Field {
    LeadingChecksum,
    IndexLength,
    CompressedIndex,
    TrailingChecksum,
    BlobSeparator,
}

/// Why a `.trickydata` file could not be written or read.
#[derive(Debug, Clone, Copy, PartialEq, Eq)]
pub enum TrickydataError {
    /// The compressed index does not fit a 4-byte length.
    IndexTooLarge,
    /// The file does not open with `trickydata:`.
    MissingMagic,
    /// No zero byte ends the version.
    MissingVersionTerminator,
    /// The version is not UTF-8.
    VersionNotUtf8,
    /// The file ends before `needed` more bytes of a part.
    Truncated { field: Field, needed: usize },
    /// The leading digest is not that of the compressed index.
    ChecksumMismatch,
    /// The trailing digest differs from the leading one.
    TrailingChecksumMismatch,
    /// The byte before the blob is not zero.
    MissingBlobSeparator,
    /// The compressed index is not a gzip stream.
    Decompress,
    /// The header's version differs from the index's.
    VersionMismatch,
}

/// The position of the first zero byte of `b`, if any.
pub open spec fn first_zero(b: Seq<u8>) -> Option<int> {
    if exists|i: int| 0 <= i < b.len() && b[i] == 0 {
        Some(choose|i: int| 0 <= i < b.len() && b[i] == 0 && forall|j: int| 0 <= j < i ==> b[j] != 0)
    } else {
        None
    }
}

/// The parts of a `.trickydata` file: its version bytes, compressed index and
/// blob, or the first thing wrong with it.
pub open spec fn parse_trickydata(b: Seq<u8>) -> Result<(Seq<u8>, Seq<u8>, Seq<u8>), TrickydataError> {
    if !(b.len() >= 11 && b.take(11) == magic_bytes()) {
        Err(TrickydataError::MissingMagic)
    } else {
        let p = b.skip(11);
        match first_zero(p) {
            None => Err(TrickydataError::MissingVersionTerminator),
            Some(z) => if !valid_utf8(p.take(z)) {
                Err(TrickydataError::VersionNotUtf8)
            } else {
                match parse_body(p.skip(z + 1)) {
                    Ok((gz, blob)) => Ok((p.take(z), gz, blob)),
                    Err(e) => Err(e),
                }
            },
        }
    }
}

/// The part of a `.trickydata` file after the version: the compressed index
/// and the blob, with both digests and the separator checked.
pub open spec fn parse_body(q0: Seq<u8>) -> Result<(Seq<u8>, Seq<u8>), TrickydataError> {
    if q0.len() < 16 {
        Err(TrickydataError::Truncated { field: Field::LeadingChecksum, needed: 16 })
    } else {
        let lead = q0.take(16);
        let q1 = q0.skip(16);
        if q1.len() < 4 {
            Err(TrickydataError::Truncated { field: Field::IndexLength, needed: 4 })
        } else {
            let len = le32_value(q1.take(4));
            parse_tail(lead, len, q1.skip(4))
        }
    }
}

/// The compressed index of length `len` and what follows it, checked against
/// the leading digest `lead`.
pub open spec fn parse_tail(lead: Seq<u8>, len: nat, q2: Seq<u8>) -> Result<(Seq<u8>, Seq<u8>), TrickydataError> {
    if q2.len() < len {
        Err(TrickydataError::Truncated { field: Field::CompressedIndex, needed: len as usize })
    } else {
        let gz = q2.take(len as int);
        let q3 = q2.skip(len as int);
        if md5_of(gz) != lead {
            Err(TrickydataError::ChecksumMismatch)
        } else if q3.len() < 16 {
            Err(TrickydataError::Truncated { field: Field::TrailingChecksum, needed: 16 })
        } else if q3.take(16) != lead {
            Err(TrickydataError::TrailingChecksumMismatch)
        } else {
            let q4 = q3.skip(16);
            if q4.len() < 1 {
                Err(TrickydataError::Truncated { field: Field::BlobSeparator, needed: 1 })
            } else if q4[0] != 0 {
                Err(TrickydataError::MissingBlobSeparator)
            } else {
                Ok((gz, q4.skip(1)))
            }
        }
    }
}


/// Whether two byte strings are equal.
pub fn bytes_eq(a: &[u8], b: &[u8]) -> (r: bool)
    ensures
        r == (a@ == b@),
{
    if a.len() != b.len() {
        return false;
    }
    let mut i: usize = 0;
    while i < a.len()
        invariant
            i <= a@.len() == b@.len(),
            forall|j: int| 0 <= j < i ==> a@[j] == b@[j],
        decreases a.len() - i,
    {
        if a[i] != b[i] {
            return false;
        }
        i = i + 1;
    }
    assert(a@ =~= b@);
    true
}

proof fn lemma_first_zero(p: Seq<u8>, k: int)
    requires
        0 <= k < p.len(),
        p[k] == 0,
        forall|j: int| 0 <= j < k ==> p[j] != 0,
    ensures
        first_zero(p) == Some(k),
{
    let i = choose|i: int| 0 <= i < p.len() && p[i] == 0 && forall|j: int| 0 <= j < i ==> p[j] != 0;
    assert(0 <= i < p.len() && p[i] == 0 && forall|j: int| 0 <= j < i ==> p[j] != 0);
    if i < k {
    } else if i > k {
        assert(p[k] != 0);
    }
}

/// The parts of a `.trickydata` file, its index decompressed.
#[derive(Debug)]
pub struct TrickydataFrame {
    pub version: String,
    pub index_json: Vec<u8>,
    pub blob: Vec<u8>,
}

/// Check the compressed index of length `len` at `pos` and what follows it;
/// on success, where the blob starts.
fn decode_tail(bytes: &[u8], lead: &[u8], len: usize, pos: usize) -> (res: Result<usize, TrickydataError>)
    requires
        pos <= bytes@.len(),
    ensures
        match parse_tail(lead@, len as nat, bytes@.skip(pos as int)) {
            Err(e) => res matches Err(f) && f == e,
            Ok((gz, blob)) => res matches Ok(start) && pos + len <= start <= bytes@.len() && gz
                == bytes@.subrange(pos as int, pos + len) && blob == bytes@.skip(start as int),
        },
{
    let ghost q2 = bytes@.skip(pos as int);
    let n = bytes.len();
    if n - pos < len {
        return Err(TrickydataError::Truncated { field: Field::CompressedIndex, needed: len });
    }
    let gz = slice_subrange(bytes, pos, pos + len);
    assert(gz@ =~= q2.take(len as int));
    let p = pos + len;
    let ghost q3 = q2.skip(len as int);
    assert(q3 =~= bytes@.skip(p as int));
    let d = md5_digest(gz);
    if !bytes_eq(d.as_slice(), lead) {
        return Err(TrickydataError::ChecksumMismatch);
    }
    if n - p < 16 {
        return Err(TrickydataError::Truncated { field: Field::TrailingChecksum, needed: 16 });
    }
    let trailing = slice_subrange(bytes, p, p + 16);
    assert(trailing@ =~= q3.take(16));
    if !bytes_eq(trailing, lead) {
        return Err(TrickydataError::TrailingChecksumMismatch);
    }
    let p = p + 16;
    let ghost q4 = q3.skip(16);
    assert(q4 =~= bytes@.skip(p as int));
    if n - p < 1 {
        return Err(TrickydataError::Truncated { field: Field::BlobSeparator, needed: 1 });
    }
    if bytes[p] != 0 {
        return Err(TrickydataError::MissingBlobSeparator);
    }
    assert(q4.skip(1) =~= bytes@.skip(p + 1));
    Ok(p + 1)
}

/// Check the part after the version, starting at `pos`; on success, where
/// the compressed index ends and where the blob starts.
fn decode_body(bytes: &[u8], pos: usize) -> (res: Result<(usize, usize, usize), TrickydataError>)
    requires
        pos <= bytes@.len(),
    ensures
        match parse_body(bytes@.skip(pos as int)) {
            Err(e) => res matches Err(f) && f == e,
            Ok((gz, blob)) => res matches Ok((a, z, start)) && a <= z <= start <= bytes@.len() && gz
                == bytes@.subrange(a as int, z as int) && blob == bytes@.skip(start as int),
        },
{
    let ghost q0 = bytes@.skip(pos as int);
    let n = bytes.len();
    if n - pos < 16 {
        return Err(TrickydataError::Truncated { field: Field::LeadingChecksum, needed: 16 });
    }
    let lead = slice_subrange(bytes, pos, pos + 16);
    assert(lead@ =~= q0.take(16));
    let p = pos + 16;
    let ghost q1 = q0.skip(16);
    assert(q1 =~= bytes@.skip(p as int));
    if n - p < 4 {
        return Err(TrickydataError::Truncated { field: Field::IndexLength, needed: 4 });
    }
    let len64: u64 = bytes[p] as u64 + 256 * (bytes[p + 1] as u64) + 65536 * (bytes[p + 2] as u64)
        + 16777216 * (bytes[p + 3] as u64);
    assert(q1.take(4)[0] == bytes@[p as int] && q1.take(4)[1] == bytes@[p + 1] && q1.take(4)[2]
        == bytes@[p + 2] && q1.take(4)[3] == bytes@[p + 3]);
    assert(len64 == le32_value(q1.take(4)));
    let len = len64 as usize;
    let p = p + 4;
    assert(q1.skip(4) =~= bytes@.skip(p as int));
    match decode_tail(bytes, lead, len, p) {
        Err(e) => Err(e),
        Ok(start) => Ok((p, p + len, start)),
    }
}

/// Decode the `.trickydata` byte layout, verifying both digests; the index
/// is decompressed but left serialized.
pub fn decode_trickydata(bytes: &[u8]) -> (res: Result<TrickydataFrame, TrickydataError>)
    ensures
        match parse_trickydata(bytes@) {
            Err(e) => res matches Err(f) && f == e,
            Ok((vb, gz, blob)) => match gunzip_of(gz) {
                None => res matches Err(f) && f == TrickydataError::Decompress,
                Some(j) => res matches Ok(fr) && fr.version@ == decode_utf8(vb) && fr.index_json@ == j
                    && fr.blob@ == blob,
            },
        },
{
    let ghost b = bytes@;
    let n = bytes.len();
    let m = magic();
    if n < 11 || !bytes_eq(slice_subrange(bytes, 0, 11), m.as_slice()) {
        proof {
            if n >= 11 {
                assert(b.subrange(0, 11) =~= b.take(11));
            }
        }
        return Err(TrickydataError::MissingMagic);
    }
    assert(b.subrange(0, 11) =~= b.take(11));
    let ghost p = b.skip(11);
    let mut z: usize = 11;
    while z < n && bytes[z] != 0
        invariant
            11 <= z <= n == b.len(),
            bytes@ == b,
            p == b.skip(11),
            forall|j: int| 0 <= j < z - 11 ==> p[j] != 0,
        decreases n - z,
    {
        z = z + 1;
    }
    if z == n {
        assert forall|i: int| 0 <= i < p.len() implies p[i] != 0 by {}
        return Err(TrickydataError::MissingVersionTerminator);
    }
    proof {
        lemma_first_zero(p, z - 11);
    }
    let vslice = slice_subrange(bytes, 11, z);
    assert(vslice@ =~= p.take(z - 11));
    let version = match utf8_str(vslice) {
        Some(v) => v.to_owned(),
        None => return Err(TrickydataError::VersionNotUtf8),
    };
    assert(p.skip(z - 11 + 1) =~= b.skip(z + 1));
    let (a, e, start) = match decode_body(bytes, z + 1) {
        Err(err) => return Err(err),
        Ok(r) => r,
    };
    let gz = slice_subrange(bytes, a, e);
    let blob = slice_to_vec(slice_subrange(bytes, start, n));
    assert(blob@ =~= b.skip(start as int));
    match gunzip(gz) {
        None => Err(TrickydataError::Decompress),
        Some(index_json) => Ok(TrickydataFrame { version, index_json, blob }),
    }
}

/// The version recorded in a `.trickydata` header must be the index's own.
pub fn check_version(header: &str, index_version: &str) -> (r: Result<(), TrickydataError>)
    ensures
        r is Ok <==> header@ == index_version@,
        r matches Err(e) ==> e == TrickydataError::VersionMismatch,
{
    if crate::text::str_eq(header, index_version) {
        Ok(())
    } else {
        Err(TrickydataError::VersionMismatch)
    }
}


fn magic() -> (v: Vec<u8>)
    ensures
        v@ == magic_bytes(),
{
    let v = vec![0x74u8, 0x72, 0x69, 0x63, 0x6b, 0x79, 0x64, 0x61, 0x74, 0x61, 0x3a];
    assert(v@ =~= magic_bytes());
    v
}

proof fn lemma_le32_round_trip(n: nat)
    requires
        n <= u32::MAX,
    ensures
        le32(n).len() == 4,
        le32_value(le32(n)) == n,
{
    let b0 = n % 256;
    let b1 = n / 256 % 256;
    let b2 = n / 65536 % 256;
    let b3 = n / 16777216 % 256;
    assert(n == b0 + 256 * b1 + 65536 * b2 + 16777216 * b3) by (nonlinear_arith)
        requires
            n <= 0xffff_ffff,
            b0 == n % 256,
            b1 == n / 256 % 256,
            b2 == n / 65536 % 256,
            b3 == n / 16777216 % 256,
    ;
}

proof fn lemma_parse_tail_layout(d: Seq<u8>, gz: Seq<u8>, blob: Seq<u8>)
    requires
        d == md5_of(gz),
        d.len() == 16,
    ensures
        parse_tail(d, gz.len(), gz + (d + seq![0u8] + blob)) == Ok::<(Seq<u8>, Seq<u8>), TrickydataError>(
            (gz, blob),
        ),
{
    let q2 = gz + (d + seq![0u8] + blob);
    assert(q2.take(gz.len() as int) =~= gz);
    let q3 = q2.skip(gz.len() as int);
    assert(q3 =~= d + (seq![0u8] + blob));
    assert(q3.take(16) =~= d);
    let q4 = q3.skip(16);
    assert(q4 =~= seq![0u8] + blob);
    assert(q4.skip(1) =~= blob);
}

proof fn lemma_parse_body_layout(gz: Seq<u8>, blob: Seq<u8>)
    requires
        md5_of(gz).len() == 16,
        gz.len() <= u32::MAX,
    ensures
        parse_body(md5_of(gz) + le32(gz.len()) + gz + md5_of(gz) + seq![0u8] + blob) == Ok::<
            (Seq<u8>, Seq<u8>),
            TrickydataError,
        >((gz, blob)),
{
    let d = md5_of(gz);
    let q0 = d + le32(gz.len()) + gz + d + seq![0u8] + blob;
    lemma_le32_round_trip(gz.len());
    assert(q0.take(16) =~= d);
    let q1 = q0.skip(16);
    assert(q1 =~= le32(gz.len()) + (gz + d + seq![0u8] + blob));
    assert(q1.take(4) =~= le32(gz.len()));
    let q2 = q1.skip(4);
    assert(q2 =~= gz + (d + seq![0u8] + blob));
    lemma_parse_tail_layout(d, gz, blob);
}

/// Reading back the layout of a `.trickydata` file gives back its parts,
/// when the version has no zero byte (which would end it early).
pub proof fn lemma_parse_layout(version: Seq<char>, gz: Seq<u8>, blob: Seq<u8>)
    requires
        !encode_utf8(version).contains(0u8),
        md5_of(gz).len() == 16,
        gz.len() <= u32::MAX,
    ensures
        parse_trickydata(trickydata_layout(version, gz, md5_of(gz), blob)) == Ok::<
            (Seq<u8>, Seq<u8>, Seq<u8>),
            TrickydataError,
        >((encode_utf8(version), gz, blob)),
{
    let d = md5_of(gz);
    let vb = encode_utf8(version);
    let b = trickydata_layout(version, gz, d, blob);
    let rest = d + le32(gz.len()) + gz + d + seq![0u8] + blob;
    lemma_parse_body_layout(gz, blob);
    assert(b =~= magic_bytes() + (vb + (seq![0u8] + rest)));
    assert(b.take(11) =~= magic_bytes());
    let p = b.skip(11);
    assert(p =~= vb + (seq![0u8] + rest));
    let z = vb.len() as int;
    assert(p[z] == 0);
    assert forall|j: int| 0 <= j < z implies p[j] != 0 by {
        assert(p[j] == vb[j]);
        if p[j] == 0 {
            assert(vb.contains(0u8));
        }
    }
    lemma_first_zero(p, z);
    assert(p.take(z) =~= vb);
    encode_utf8_valid_utf8(version);
    assert(p.skip(z + 1) =~= rest);
}

/// Encode a corpus into the `.trickydata` byte layout, given its version,
/// its serialized index (without a `bin` locator: the blob is inline) and
/// its blob.
///
/// Encoding succeeds exactly when the compressed index fits a 4-byte length.
/// A file so written reads back to the same version, index and blob unless
/// the version holds a zero byte.
pub fn encode_trickydata(version: &str, index_json: &[u8], blob: &[u8]) -> (res: Result<Vec<u8>, TrickydataError>)
    ensures
        res is Ok <==> gzip_of(index_json@).len() <= u32::MAX,
        match res {
            Ok(out) => {
                let gz = gzip_of(index_json@);
                &&& gz.len() <= u32::MAX
                &&& out@ == trickydata_layout(version@, gz, md5_of(gz), blob@)
                &&& gunzip_of(gz) == Some(index_json@)
                &&& !encode_utf8(version@).contains(0u8) ==> parse_trickydata(out@) == Ok::<
                    (Seq<u8>, Seq<u8>, Seq<u8>),
                    TrickydataError,
                >((encode_utf8(version@), gz, blob@))
            },
            Err(e) => e == TrickydataError::IndexTooLarge,
        },
{
    let gz = gzip(index_json);
    let digest = md5_digest(gz.as_slice());
    if gz.len() > 0xffff_ffffusize {
        return Err(TrickydataError::IndexTooLarge);
    }
    let len = gz.len() as u32;
    let mut out = magic();
    out.extend_from_slice(version.as_bytes());
    out.push(0);
    out.extend_from_slice(digest.as_slice());
    out.push((len % 256) as u8);
    out.push((len / 256 % 256) as u8);
    out.push((len / 65536 % 256) as u8);
    out.push((len / 16777216 % 256) as u8);
    out.extend_from_slice(gz.as_slice());
    out.extend_from_slice(digest.as_slice());
    out.push(0);
    out.extend_from_slice(blob);
    proof {
        assert(out@ =~= trickydata_layout(version@, gz@, digest@, blob@));
        if !encode_utf8(version@).contains(0u8) {
            lemma_parse_layout(version@, gz@, blob@);
        }
    }
    Ok(out)
}


/// What writing a zip archive (deflated members, default timestamps, Unix as
/// the recorded system) holding `index` under `index_name` and then `blob`
/// under `bin_name` gives: the archive's bytes, or `None` when the writer
/// refuses the members.
pub uninterp spec fn zip_of(index_name: Seq<char>, index: Seq<u8>, bin_name: Seq<char>, blob: Seq<u8>) -> Option<
    Seq<u8>,
>;

/// The members of a zip archive, in order, each with its name and contents;
/// `None` when the bytes are not a readable archive.
pub uninterp spec fn zip_members_of(archive: Seq<u8>) -> Option<Seq<(Seq<char>, Seq<u8>)>>;

/// Write a zip archive of two deflated members with the default timestamp and
/// Unix as the recorded system, so that the outcome depends on the inputs
/// alone.
///
/// Calls `zip::ZipWriter` over an in-memory cursor: `start_file` and
/// `write_all` for each member, then `finish`. The contract names the
/// outcome and states that reading an archive so made lists the two members
/// as written. The writer refuses a second member of the same name, a name
/// too long for a local header, and a member whose plain or deflated size
/// reaches 4 GiB without the large-file option; in memory nothing else
/// fails. So the archive is made whenever the names differ and are short and
/// the two members together hold at most 2 GiB. Exactly where above that the
/// writer refuses depends on the deflated sizes, which are left to the name.
#[verifier::external_body]
fn zip_archive(index_name: &str, index: &[u8], bin_name: &str, blob: &[u8]) -> (r: Option<Vec<u8>>)
    ensures
        match r {
            Some(z) => zip_of(index_name@, index@, bin_name@, blob@) == Some(z@) && zip_members_of(z@)
                == Some(seq![(index_name@, index@), (bin_name@, blob@)]),
            None => zip_of(index_name@, index@, bin_name@, blob@) is None,
        },
        index_name@ != bin_name@ && index_name@.len() <= 1000 && bin_name@.len() <= 1000 && index@.len()
            + blob@.len() <= 0x8000_0000 ==> r is Some,
{
    let options = zip::write::SimpleFileOptions::default().compression_method(
        zip::CompressionMethod::Deflated,
    ).last_modified_time(zip::DateTime::default()).system(zip::System::Unix);
    let mut zw = zip::ZipWriter::new(std::io::Cursor::new(Vec::new()));
    zw.start_file(index_name, options).ok()?;
    std::io::Write::write_all(&mut zw, index).ok()?;
    zw.start_file(bin_name, options).ok()?;
    std::io::Write::write_all(&mut zw, blob).ok()?;
    Some(zw.finish().ok()?.into_inner())
}

/// Read every member of a zip archive, in order, with its name and contents.
///
/// Calls `zip::ZipArchive::new`, then `by_index`, `name` and `read_to_end`
/// for each member; any error gives `None`.
#[verifier::external_body]
fn zip_members(bytes: &[u8]) -> (r: Option<Vec<(String, Vec<u8>)>>)
    ensures
        match r {
            Some(v) => zip_members_of(bytes@) == Some(v@.map_values(|m: (String, Vec<u8>)| (m.0@, m.1@))),
            None => zip_members_of(bytes@) is None,
        },
{
    let mut archive = zip::ZipArchive::new(std::io::Cursor::new(bytes)).ok()?;
    let mut members = Vec::new();
    for i in 0..archive.len() {
        let mut entry = archive.by_index(i).ok()?;
        let name = entry.name().ok()?.to_string();
        let mut data = Vec::new();
        std::io::Read::read_to_end(&mut entry, &mut data).ok()?;
        members.push((name, data));
    }
    Some(members)
}

/// Why a zip artifact could not be written or read.
#[derive(Debug, Clone, Copy, PartialEq, Eq)]
pub enum ZipError {
    /// Writing the archive failed.
    Write,
    /// The bytes are not a readable zip archive.
    Unreadable,
    /// No member is named like an index.
    MissingIndex,
    /// No member is named like a blob.
    MissingBlob,
}

/// The member names of the zip: the default json-bin member names.
pub open spec fn zip_member_names_spec() -> (Seq<char>, Seq<char>) {
    (DEFAULT_PREFIX@ + INDEX_SUFFIX@, BIN_NAME@)
}

/// The member names of the zip: the default json-bin member names.
pub fn zip_member_names() -> (r: (String, String))
    ensures
        (r.0@, r.1@) == zip_member_names_spec(),
{
    (concat(DEFAULT_PREFIX, INDEX_SUFFIX), BIN_NAME.to_owned())
}

/// The contents of the last member whose name ends like an index, and of the
/// last member whose name ends like a blob (and not like an index).
pub open spec fn pick_members(m: Seq<(Seq<char>, Seq<u8>)>) -> (Option<Seq<u8>>, Option<Seq<u8>>)
    decreases m.len(),
{
    if m.len() == 0 {
        (None, None)
    } else {
        let (idx, blob) = pick_members(m.drop_last());
        let (name, data) = m.last();
        if has_suffix(name, INDEX_SUFFIX@) {
            (Some(data), blob)
        } else if has_suffix(name, BIN_SUFFIX@) {
            (idx, Some(data))
        } else {
            (idx, blob)
        }
    }
}

/// Encode a corpus as a zip of the json-bin members, given the serialized
/// index (whose `bin` locator names the blob member) and the blob. Reading
/// the archive back with [`decode_zip`] gives the same index and blob.
/// The outcome is fixed by the index and blob: the archive, or `Write` when
/// the writer refuses them, which it does not when the two together hold at
/// most 2 GiB.
pub fn encode_zip(index_json: &[u8], blob: &[u8]) -> (res: Result<Vec<u8>, ZipError>)
    ensures
        index_json@.len() + blob@.len() <= 0x8000_0000 ==> res is Ok,
        match res {
            Ok(z) => {
                &&& zip_of(zip_member_names_spec().0, index_json@, zip_member_names_spec().1, blob@) == Some(z@)
                &&& zip_members_of(z@) matches Some(m) && pick_members(m) == (
                    Some(index_json@),
                    Some(blob@),
                )
            },
            Err(e) => e == ZipError::Write && zip_of(
                zip_member_names_spec().0,
                index_json@,
                zip_member_names_spec().1,
                blob@,
            ) is None,
        },
{
    let (index_name, bin_name) = zip_member_names();
    proof {
        reveal_strlit("trickydata");
        reveal_strlit("-index.json");
        reveal_strlit("trickydata.bin");
        assert(index_name@.len() == 21 && bin_name@.len() == 14);
    }
    match zip_archive(index_name.as_str(), index_json, bin_name.as_str(), blob) {
        None => Err(ZipError::Write),
        Some(z) => {
            proof {
                reveal_strlit("trickydata");
                reveal_strlit("-index.json");
                reveal_strlit("trickydata.bin");
                reveal_strlit(".bin");
                let m = seq![(index_name@, index_json@), (bin_name@, blob@)];
                assert(m.drop_last().drop_last() =~= Seq::<(Seq<char>, Seq<u8>)>::empty());
                assert(m.drop_last() =~= seq![(index_name@, index_json@)]);
                let iname = index_name@;
                assert(iname.skip(iname.len() - INDEX_SUFFIX@.len()) =~= INDEX_SUFFIX@);
                let bname = bin_name@;
                assert(bname.skip(bname.len() - BIN_SUFFIX@.len()) =~= BIN_SUFFIX@);
                assert(!has_suffix(bname, INDEX_SUFFIX@)) by {
                    assert(bname.skip(bname.len() - INDEX_SUFFIX@.len())[0] != INDEX_SUFFIX@[0]);
                }
                assert(has_suffix(iname, INDEX_SUFFIX@));
                assert(has_suffix(bname, BIN_SUFFIX@));
                assert(pick_members(m.drop_last().drop_last()) == (None::<Seq<u8>>, None::<Seq<u8>>));
                assert(m.drop_last().last() == (iname, index_json@));
                assert(pick_members(m.drop_last()) == (Some(index_json@), None::<Seq<u8>>));
                assert(m.last() == (bname, blob@));
                assert(pick_members(m) == (Some(index_json@), Some(blob@)));
            }
            Ok(z)
        },
    }
}

/// Decode a zip artifact into the serialized index and, if present, the
/// blob, matching members by suffix (the last match wins).
pub fn decode_zip(bytes: &[u8]) -> (res: Result<(Vec<u8>, Option<Vec<u8>>), ZipError>)
    ensures
        match zip_members_of(bytes@) {
            None => res matches Err(e) && e == ZipError::Unreadable,
            Some(m) => match pick_members(m) {
                (None, _) => res matches Err(e) && e == ZipError::MissingIndex,
                (Some(idx), blob) => res matches Ok((i, b)) && i@ == idx && match (b, blob) {
                    (Some(x), Some(y)) => x@ == y,
                    (None, None) => true,
                    _ => false,
                },
            },
        },
{
    let members = match zip_members(bytes) {
        Some(v) => v,
        None => return Err(ZipError::Unreadable),
    };
    let ghost mv = members@.map_values(|m: (String, Vec<u8>)| (m.0@, m.1@));
    let mut index: Option<Vec<u8>> = None;
    let mut blob: Option<Vec<u8>> = None;
    for member in it: members
        invariant
            it.seq().map_values(|m: (String, Vec<u8>)| (m.0@, m.1@)) == mv,
            ({
                let (pi, pb) = pick_members(mv.take(it.index()));
                &&& match (index, pi) {
                    (Some(x), Some(y)) => x@ == y,
                    (None, None) => true,
                    _ => false,
                }
                &&& match (blob, pb) {
                    (Some(x), Some(y)) => x@ == y,
                    (None, None) => true,
                    _ => false,
                }
            }),
    {
        let ghost i = it.index();
        assert(mv.take(i + 1).drop_last() =~= mv.take(i));
        assert(mv.take(i + 1).last() == (member.0@, member.1@));
        let (name, data) = member;
        if ends_with(name.as_str(), INDEX_SUFFIX) {
            index = Some(data);
        } else if ends_with(name.as_str(), BIN_SUFFIX) {
            blob = Some(data);
        }
    }
    assert(mv.take(mv.len() as int) == mv);
    match index {
        None => Err(ZipError::MissingIndex),
        Some(i) => Ok((i, blob)),
    }
}

/// The blob member a zip must hold, or `MissingBlob` when it has none
/// (checked once its index has been read).
pub fn zip_blob(blob: Option<Vec<u8>>) -> (r: Result<Vec<u8>, ZipError>)
    ensures
        match blob {
            Some(b) => r matches Ok(v) && v@ == b@,
            None => r matches Err(e) && e == ZipError::MissingBlob,
        },
{
    match blob {
        Some(b) => Ok(b),
        None => Err(ZipError::MissingBlob),
    }
}

} // verus!
