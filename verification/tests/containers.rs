use std::io::Write;
use trickydata_compiler::codec::{
    check_version, decode_trickydata, decode_zip, encode_trickydata, encode_zip, zip_blob, zip_member_names, Field,
    TrickydataError, ZipError,
};

const INDEX: &str = "{\n  \"version\": \"dev\",\n  \"inputs\": []\n}\n";

#[test]
fn containers_round_trip() {
    let blob = vec![0x00, 0x11, 0xff, 0x2a];
    let bytes = encode_trickydata("dev", INDEX.as_bytes(), &blob).unwrap();
    let frame = decode_trickydata(&bytes).unwrap();
    assert_eq!(frame.version, "dev");
    assert_eq!(frame.index_json, INDEX.as_bytes().to_vec());
    assert_eq!(frame.blob, blob);

    let zipped = encode_zip(INDEX.as_bytes(), &blob).unwrap();
    let (index, back) = decode_zip(&zipped).unwrap();
    assert_eq!(index, INDEX.as_bytes().to_vec());
    assert_eq!(back, Some(blob));
}

#[test]
fn trickydata_rejects_corruption() {
    let blob = vec![0x00, 0x11, 0xff, 0x2a];
    let mut bytes = encode_trickydata("dev", INDEX.as_bytes(), &blob).unwrap();
    let mid = bytes.len() / 2;
    bytes[mid] ^= 0xff;
    assert!(decode_trickydata(&bytes).is_err());
    assert!(decode_trickydata(b"not-a-trickydata-file").is_err());
}

#[test]
fn trickydata_layout_is_as_documented() {
    let bytes = encode_trickydata("v2", b"{}", &[7, 8]).unwrap();
    assert!(bytes.starts_with(b"trickydata:v2\0"));
    let len = u32::from_le_bytes(bytes[30..34].try_into().unwrap()) as usize;
    let gz = &bytes[34..34 + len];
    assert_eq!(&bytes[14..30], &md5::compute(gz).0[..]);
    assert_eq!(&bytes[34 + len..50 + len], &bytes[14..30]);
    assert_eq!(bytes[50 + len], 0);
    assert_eq!(&bytes[51 + len..], &[7, 8]);
}

#[test]
fn trickydata_errors_name_their_cause() {
    let good = encode_trickydata("v", b"{}", &[1]).unwrap();
    assert_eq!(decode_trickydata(b"trickydata:v").err(), Some(TrickydataError::MissingVersionTerminator));
    assert_eq!(decode_trickydata(b"trickydata:\xff\0").err(), Some(TrickydataError::VersionNotUtf8));
    assert_eq!(
        decode_trickydata(&good[..20]).err(),
        Some(TrickydataError::Truncated { field: Field::LeadingChecksum, needed: 16 })
    );
    assert_eq!(
        decode_trickydata(&good[..30]).err(),
        Some(TrickydataError::Truncated { field: Field::IndexLength, needed: 4 })
    );
    let mut flipped = good.clone();
    flipped[14] ^= 1;
    assert_eq!(decode_trickydata(&flipped).err(), Some(TrickydataError::ChecksumMismatch));
    let n = good.len();
    let mut trailing = good.clone();
    trailing[n - 3] ^= 1;
    assert_eq!(decode_trickydata(&trailing).err(), Some(TrickydataError::TrailingChecksumMismatch));
    let mut sep = good.clone();
    sep[n - 2] = 9;
    assert_eq!(decode_trickydata(&sep).err(), Some(TrickydataError::MissingBlobSeparator));
    assert_eq!(
        decode_trickydata(&good[..n - 2]).err(),
        Some(TrickydataError::Truncated { field: Field::BlobSeparator, needed: 1 })
    );
}

#[test]
fn header_and_index_versions_must_agree() {
    assert_eq!(check_version("v1", "v1"), Ok(()));
    assert_eq!(check_version("v1", "v2"), Err(TrickydataError::VersionMismatch));
}

#[test]
fn zip_members_are_named_like_json_bin() {
    let (index, bin) = zip_member_names();
    assert_eq!(index, "trickydata-index.json");
    assert_eq!(bin, "trickydata.bin");
    assert_eq!(decode_zip(b"not a zip").err(), Some(ZipError::Unreadable));
}

#[test]
fn index_is_stored_compressed() {
    let bytes = encode_trickydata("v", INDEX.as_bytes(), &[]).unwrap();
    let len = u32::from_le_bytes(bytes[29..33].try_into().unwrap()) as usize;
    let gz = &bytes[33..33 + len];
    // A gzip stream, not the JSON text itself.
    assert_eq!(&gz[..2], &[0x1f, 0x8b]);
    assert_ne!(gz, INDEX.as_bytes());
    let zipped = encode_zip(INDEX.as_bytes(), &[1, 2]).unwrap();
    assert_eq!(&zipped[..2], b"PK");
}

#[test]
fn an_index_that_is_not_gzip_is_refused() {
    let gz = b"not a gzip stream".to_vec();
    let digest = md5::compute(&gz).0;
    let mut bytes = b"trickydata:v\0".to_vec();
    bytes.extend_from_slice(&digest);
    bytes.extend_from_slice(&(gz.len() as u32).to_le_bytes());
    bytes.extend_from_slice(&gz);
    bytes.extend_from_slice(&digest);
    bytes.push(0);
    assert_eq!(decode_trickydata(&bytes).err(), Some(TrickydataError::Decompress));
    assert_eq!(decode_trickydata(b"trickydata").err(), Some(TrickydataError::MissingMagic));
}

#[test]
fn a_zip_without_an_index_member_is_refused() {
    let mut zw = zip::ZipWriter::new(std::io::Cursor::new(Vec::new()));
    zw.start_file("notes.txt", zip::write::SimpleFileOptions::default()).unwrap();
    zw.write_all(b"hello").unwrap();
    let bytes = zw.finish().unwrap().into_inner();
    assert_eq!(decode_zip(&bytes).err(), Some(ZipError::MissingIndex));
}

#[test]
fn a_zip_member_named_like_a_blob_is_the_blob() {
    let mut zw = zip::ZipWriter::new(std::io::Cursor::new(Vec::new()));
    let opts = zip::write::SimpleFileOptions::default();
    zw.start_file("x.bin", opts).unwrap();
    zw.write_all(&[9, 9]).unwrap();
    zw.start_file("x-index.json", opts).unwrap();
    zw.write_all(b"{}").unwrap();
    let bytes = zw.finish().unwrap().into_inner();
    assert_eq!(decode_zip(&bytes), Ok((b"{}".to_vec(), Some(vec![9, 9]))));
}

#[test]
fn equal_inputs_give_equal_artifacts() {
    let blob = vec![5u8; 1000];
    assert_eq!(encode_zip(INDEX.as_bytes(), &blob), encode_zip(INDEX.as_bytes(), &blob));
    assert_eq!(
        encode_trickydata("dev", INDEX.as_bytes(), &blob),
        encode_trickydata("dev", INDEX.as_bytes(), &blob)
    );
    assert!(encode_zip(&[], &[]).is_ok());
}

#[test]
fn zip_members_record_unix_as_their_system() {
    let zipped = encode_zip(INDEX.as_bytes(), &[1, 2, 3]).unwrap();
    let central: Vec<usize> = zipped.windows(4).enumerate().filter(|(_, w)| *w == b"PK\x01\x02").map(|(i, _)| i).collect();
    assert_eq!(central.len(), 2);
    for at in central {
        assert_eq!(zipped[at + 5], 3);
    }
}

#[test]
fn a_zip_blob_is_required() {
    assert_eq!(zip_blob(Some(vec![1])), Ok(vec![1]));
    assert_eq!(zip_blob(None), Err(ZipError::MissingBlob));
}
