use deflate_zip::deflate::deflate_data_with_77;
use deflate_zip::records::{
    cdrecord_creator, cdrecord_len, cdrecord_to_byte_array, eocdrecord_creator,
    eocdrecord_to_byte_array, lfrecord_creator, lfrecord_from_bytes, lfrecord_len,
    lfrecord_to_byte_array, read_2bytes, read_4bytes, ZipError,
};
use deflate_zip::zipfile::{unzip_data, zip_file_creator, zip_to_byte_array, UnzipError};
use deflate_zip::inflate::InflateError;

#[test]
fn test_unzip() {
    let name = b"zip-test.txt".to_vec();
    let zip = zip_file_creator(name.clone(), b"hello\n".to_vec(), 0, None);
    let bytes = zip_to_byte_array(zip);
    let record = lfrecord_from_bytes(&bytes).unwrap();
    assert_eq!(record.lf_sig, 0x04034b50);
    assert_eq!(record.comp_method, 0);
    assert_eq!(record.crc_32, 0xdeadbeef);
    assert_eq!(record.comp_fsize, 6);
    assert_eq!(record.uncomp_fsize, 6);
    assert_eq!(record.fname, name);
    assert_eq!(record.fdata, b"hello\n".to_vec());
    assert_eq!(read_4bytes(&bytes, 30 + 12 + 6), 0x02014b50);
    let eocd_at = bytes.len() - 22;
    assert_eq!(read_4bytes(&bytes, eocd_at), 0x06054b50);
    assert_eq!(read_4bytes(&bytes, eocd_at + 12), 46 + 12);
    assert_eq!(read_4bytes(&bytes, eocd_at + 16), 30 + 12 + 6);
    let (fname, content) = unzip_data(&bytes).unwrap();
    assert_eq!(fname, name);
    assert_eq!(content, b"hello\n".to_vec());
}

#[test]
fn zip_deflate_and_extract() {
    let original = b"to be or not to be, that is the question; to be or not to be".to_vec();
    let compressed = deflate_data_with_77(original.clone());
    let zip = zip_file_creator(b"q.txt".to_vec(), compressed.clone(), 8, Some(original.clone()));
    let bytes = zip_to_byte_array(zip);
    let record = lfrecord_from_bytes(&bytes).unwrap();
    assert_eq!(record.comp_method, 8);
    assert_eq!(record.comp_fsize as usize, compressed.len());
    assert_eq!(record.uncomp_fsize as usize, original.len());
    let (fname, content) = unzip_data(&bytes).unwrap();
    assert_eq!(fname, b"q.txt".to_vec());
    assert_eq!(content, original);
}

#[test]
fn local_file_record_layout() {
    let rec = lfrecord_creator(0, 2, 2, b"ab".to_vec(), b"xy".to_vec());
    assert_eq!(lfrecord_len(&rec), 34);
    let bytes = lfrecord_to_byte_array(rec);
    assert_eq!(
        bytes,
        vec![
            0x50, 0x4b, 0x03, 0x04, 20, 0, 0, 0, 0, 0, 0, 0, 0, 0, 0xef, 0xbe, 0xad, 0xde, 2, 0, 0,
            0, 2, 0, 0, 0, 2, 0, 0, 0, b'a', b'b', b'x', b'y',
        ]
    );
    assert_eq!(read_2bytes(&bytes, 26), 2);
}

#[test]
fn central_directory_record_layout() {
    let rec = cdrecord_creator(8, 0x01020304, 0x0a0b0c0d, b"n".to_vec());
    assert_eq!(cdrecord_len(&rec), 47);
    let bytes = cdrecord_to_byte_array(rec);
    assert_eq!(
        bytes,
        vec![
            0x50, 0x4b, 0x01, 0x02, 30, 65, 20, 0, 0, 0, 8, 0, 0, 0, 0, 0, 0xef, 0xbe, 0xad, 0xde,
            0x04, 0x03, 0x02, 0x01, 0x0d, 0x0c, 0x0b, 0x0a, 1, 0, 0, 0, 0, 0, 0, 0, 1, 0, 1, 0, 0,
            0, 0, 0, 0, 0, b'n',
        ]
    );
}

#[test]
fn end_of_central_directory_layout() {
    let bytes = eocdrecord_to_byte_array(eocdrecord_creator(47, 0x12345));
    assert_eq!(
        bytes,
        vec![0x50, 0x4b, 0x05, 0x06, 0, 0, 0, 0, 1, 0, 1, 0, 47, 0, 0, 0, 0x45, 0x23, 0x01, 0, 0, 0]
    );
}

#[test]
fn parse_errors() {
    assert!(matches!(lfrecord_from_bytes(&vec![0x50, 0x4b, 3, 4]), Err(ZipError::Truncated)));
    let mut bytes = lfrecord_to_byte_array(lfrecord_creator(0, 5, 5, b"f".to_vec(), b"12345".to_vec()));
    bytes[0] = 0;
    assert!(matches!(lfrecord_from_bytes(&bytes), Err(ZipError::BadSignature)));
    let mut short = lfrecord_to_byte_array(lfrecord_creator(0, 5, 5, b"f".to_vec(), b"12345".to_vec()));
    short.truncate(33);
    assert!(matches!(lfrecord_from_bytes(&short), Err(ZipError::Truncated)));
    assert!(matches!(unzip_data(&short), Err(UnzipError::Container(ZipError::Truncated))));
}

#[test]
fn unzip_reports_bad_bitstream() {
    let zip = zip_file_creator(b"bad".to_vec(), vec![7], 8, Some(b"x".to_vec()));
    let bytes = zip_to_byte_array(zip);
    assert!(matches!(unzip_data(&bytes), Err(UnzipError::Bitstream(InflateError::InvalidBlockType))));
}

#[test]
fn encrypted_entry_is_unsupported() {
    let mut bytes = lfrecord_to_byte_array(lfrecord_creator(0, 1, 1, b"f".to_vec(), b"z".to_vec()));
    bytes[6] = 1;
    assert!(matches!(lfrecord_from_bytes(&bytes), Err(ZipError::Unsupported)));
    assert!(matches!(unzip_data(&bytes), Err(UnzipError::Container(ZipError::Unsupported))));
}
