//! A single-entry ZIP archive: building its records and bytes, and extracting its file.

use vstd::prelude::*;
use crate::bitio::packs;
use crate::deflate::fixed_block_bits;
use crate::inflate::{InflateError, inflate_data, inflate_spec};
use crate::lz77::lz77_parse;
use crate::records::{
    CDRecord, EOCDRecord, LFRecord, LF_SIGNATURE, ZipError, cd_bytes, cd_made, cdrecord_creator,
    cdrecord_len, cdrecord_to_byte_array, eocd_bytes, eocd_made, eocdrecord_creator,
    eocdrecord_to_byte_array, lemma_lf_bytes_parse, lf_bytes, lf_data_end, lf_extra_end, lf_made,
    lf_name_end, lf_parse_error, lfrecord_creator, lfrecord_from_bytes, lfrecord_len,
    lfrecord_to_byte_array, read_string, u16_at,
};
use crate::roundtrip::lemma_lz77_round_trip;

verus! {

/// Compression method of a stored file.
pub const METHOD_STORED: u16 = 0;

/// Compression method of a DEFLATE-compressed file.
pub const METHOD_DEFLATE: u16 = 8;

/// The three records of a single-entry archive.
pub struct ZipFile {
    pub lfrecord: LFRecord,
    pub cdrecord: CDRecord,
    pub eocdrecord: EOCDRecord,
}

/// Why an archive could not be extracted.
#[derive(Clone, Copy, Debug, PartialEq, Eq)]
pub enum UnzipError {
    /// The local file record is malformed.
    Container(ZipError),
    /// The compressed file data is malformed.
    Bitstream(InflateError),
}

/// The bytes of an archive: the local file record with its data, the central directory
/// record, then the end of central directory record.
pub open spec fn zip_bytes(z: ZipFile) -> Seq<u8> {
    lf_bytes(z.lfrecord) + cd_bytes(z.cdrecord) + eocd_bytes(z.eocdrecord)
}

/// The records of an archive that holds `fdata` under the name `fname` with compression method
/// `comp_method`; for a DEFLATE entry, `ogdata` is the uncompressed data whose size is recorded as
/// the uncompressed size.
pub fn zip_file_creator(fname: Vec<u8>, fdata: Vec<u8>, comp_method: u16, ogdata: Option<Vec<u8>>) -> (r: ZipFile)
    requires
        fname@.len() <= 65535,
        30 + fname@.len() + fdata@.len() <= u32::MAX,
        ogdata matches Some(o) ==> o@.len() <= u32::MAX,
    ensures
        ({
            let ogsize = if comp_method == METHOD_DEFLATE && ogdata is Some {
                ogdata->0@.len()
            } else {
                fdata@.len()
            };
            &&& lf_made(r.lfrecord, comp_method, fdata@.len() as u32, ogsize as u32, fname@, fdata@)
            &&& cd_made(r.cdrecord, comp_method, fdata@.len() as u32, ogsize as u32, fname@)
            &&& eocd_made(
                r.eocdrecord,
                (46 + fname@.len()) as u32,
                (30 + fname@.len() + fdata@.len()) as u32,
            )
        }),
{
    let fsize = fdata.len() as u32;
    let ogsize: u32 = if comp_method == METHOD_DEFLATE && ogdata.is_some() {
        match ogdata {
            Some(o) => o.len() as u32,
            None => fsize,
        }
    } else {
        fsize
    };
    let name_copy = read_string(&fname, 0, fname.len());
    assert(name_copy@ =~= fname@);
    let lfrecord = lfrecord_creator(comp_method, fsize, ogsize, name_copy, fdata);
    let cdrecord = cdrecord_creator(comp_method, fsize, ogsize, fname);
    let eocdrecord = eocdrecord_creator(cdrecord_len(&cdrecord), lfrecord_len(&lfrecord));
    ZipFile { lfrecord, cdrecord, eocdrecord }
}

/// The bytes of an archive, record after record.
pub fn zip_to_byte_array(zip_file: ZipFile) -> (r: Vec<u8>)
    ensures
        r@ == zip_bytes(zip_file),
{
    let ghost z = zip_file;
    let ZipFile { lfrecord, cdrecord, eocdrecord } = zip_file;
    let mut bytes = lfrecord_to_byte_array(lfrecord);
    let mut cd = cdrecord_to_byte_array(cdrecord);
    let mut eocd = eocdrecord_to_byte_array(eocdrecord);
    bytes.append(&mut cd);
    bytes.append(&mut eocd);
    bytes
}

/// What extracting the archive at the start of `s` gives: the file name and the file data,
/// inflated when the compression method is DEFLATE.
pub open spec fn unzip_spec(s: Seq<u8>) -> Result<(Seq<u8>, Seq<u8>), UnzipError> {
    let name = s.subrange(30, lf_name_end(s));
    let fdata = s.subrange(lf_extra_end(s), lf_data_end(s));
    match lf_parse_error(s) {
        Some(e) => Err(UnzipError::Container(e)),
        None => if u16_at(s, 8) == METHOD_DEFLATE {
            match inflate_spec(fdata) {
                Ok(o) => Ok((name, o)),
                Err(e) => Err(UnzipError::Bitstream(e)),
            }
        } else {
            Ok((name, fdata))
        },
    }
}

/// Extracts the file of the archive at the start of `bytes`: its name, and its data,
/// inflated when the compression method is DEFLATE.
pub fn unzip_data(bytes: &Vec<u8>) -> (r: Result<(Vec<u8>, Vec<u8>), UnzipError>)
    ensures
        match unzip_spec(bytes@) {
            Ok((name, content)) => r matches Ok(v) && v.0@ == name && v.1@ == content,
            Err(e) => r == Err::<(Vec<u8>, Vec<u8>), UnzipError>(e),
        },
{
    let record = match lfrecord_from_bytes(bytes) {
        Err(e) => {
            return Err(UnzipError::Container(e));
        },
        Ok(rec) => rec,
    };
    let LFRecord { comp_method, fname, fdata, .. } = record;
    if comp_method == METHOD_DEFLATE {
        match inflate_data(fdata) {
            Err(e) => Err(UnzipError::Bitstream(e)),
            Ok(out) => Ok((fname, out)),
        }
    } else {
        Ok((fname, fdata))
    }
}

/// Storing a file in an archive and extracting the archive gives back the file's name and
/// data.
pub proof fn lemma_store_extract(fname: Seq<u8>, fdata: Seq<u8>, z: ZipFile)
    requires
        fname.len() <= 65535,
        30 + fname.len() + fdata.len() < u32::MAX,
        lf_made(z.lfrecord, METHOD_STORED, fdata.len() as u32, fdata.len() as u32, fname, fdata),
    ensures
        unzip_spec(zip_bytes(z)) == Ok::<(Seq<u8>, Seq<u8>), UnzipError>((fname, fdata)),
{
    lemma_zip_bytes_parse(z);
}

proof fn lemma_zip_bytes_parse(z: ZipFile)
    requires
        z.lfrecord.lf_sig == LF_SIGNATURE,
        z.lfrecord.fname_len == z.lfrecord.fname@.len(),
        z.lfrecord.exfield_len == 0,
        z.lfrecord.gen_flag == 0,
        z.lfrecord.comp_fsize != 0xffff_ffff,
        z.lfrecord.uncomp_fsize != 0xffff_ffff,
        z.lfrecord.fdata@.len() == (if z.lfrecord.comp_method == 0 {
            z.lfrecord.uncomp_fsize
        } else {
            z.lfrecord.comp_fsize
        }),
    ensures
        ({
            let s = zip_bytes(z);
            &&& lf_parse_error(s) is None
            &&& u16_at(s, 8) == z.lfrecord.comp_method
            &&& s.subrange(30, lf_name_end(s)) == z.lfrecord.fname@
            &&& s.subrange(lf_extra_end(s), lf_data_end(s)) == z.lfrecord.fdata@
        }),
{
    let rest = cd_bytes(z.cdrecord) + eocd_bytes(z.eocdrecord);
    lemma_lf_bytes_parse(z.lfrecord, rest);
    assert(zip_bytes(z) =~= lf_bytes(z.lfrecord) + rest);
}

/// Compressing a file with LZ77, storing it in an archive as a DEFLATE entry and extracting
/// the archive gives back the file's name and uncompressed data.
pub proof fn lemma_deflate_extract(fname: Seq<u8>, original: Seq<u8>, compressed: Seq<u8>, z: ZipFile)
    requires
        fname.len() <= 65535,
        30 + fname.len() + compressed.len() < u32::MAX,
        original.len() < u32::MAX,
        packs(compressed, fixed_block_bits(lz77_parse(original, 0))),
        lf_made(z.lfrecord, METHOD_DEFLATE, compressed.len() as u32, original.len() as u32, fname, compressed),
    ensures
        unzip_spec(zip_bytes(z)) == Ok::<(Seq<u8>, Seq<u8>), UnzipError>((fname, original)),
{
    let s = zip_bytes(z);
    lemma_zip_bytes_parse(z);
    let fd = s.subrange(lf_extra_end(s), lf_data_end(s));
    assert(fd == compressed);
    lemma_lz77_round_trip(original, compressed);
    assert(inflate_spec(fd) == Ok::<Seq<u8>, InflateError>(original));
}

} // verus!
