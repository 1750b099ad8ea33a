//! The three ZIP records (local file, central directory, end of central directory), their
//! little-endian byte layouts, and parsing of a local file record.

use vstd::prelude::*;

verus! {

/// Signature of a local file record.
pub const LF_SIGNATURE: u32 = 0x04034b50;

/// Signature of a central directory record.
pub const CD_SIGNATURE: u32 = 0x02014b50;

/// Signature of an end of central directory record.
pub const EOCD_SIGNATURE: u32 = 0x06054b50;

/// The CRC-32 field that this writer stores in place of a checksum.
pub const CRC_SENTINEL: u32 = 0xdeadbeef;

/// Size of a central directory record without its variable parts.
pub const CDRECORD_BASE_SIZE: u32 = 46;

/// Size of a local file record without its variable parts.
pub const LFRECORD_BASE_SIZE: u32 = 30;

/// A local file record and the file data after it.
pub struct LFRecord {
    pub lf_sig: u32,
    pub e_ver: u16,
    pub gen_flag: u16,
    pub comp_method: u16,
    pub last_mod_time: u16,
    pub last_mod_date: u16,
    pub crc_32: u32,
    pub comp_fsize: u32,
    pub uncomp_fsize: u32,
    pub fname_len: u16,
    pub exfield_len: u16,
    pub fname: Vec<u8>,
    pub exfield: Option<Vec<u8>>,
    pub fdata: Vec<u8>,
}

/// A central directory record.
pub struct CDRecord {
    pub cd_sig: u32,
    pub spec_ver: u8,
    pub made_by: u8,
    pub extract_ver: u16,
    pub gen_flag: u16,
    pub comp_method: u16,
    pub last_mod_time: u16,
    pub last_mod_date: u16,
    pub crc_32: u32,
    pub comp_fsize: u32,
    pub ncomp_fsize: u32,
    pub fname_len: u16,
    pub exfield_len: u16,
    pub f_comment_len: u16,
    pub disk_num_start: u16,
    pub int_file_attr: u16,
    pub ext_file_attr: u32,
    pub offset_local_head: u32,
    pub fname: Vec<u8>,
    pub extra_field: Option<Vec<u8>>,
    pub file_comment: Option<Vec<u8>>,
}

/// An end of central directory record.
pub struct EOCDRecord {
    pub eocd_signature: u32,
    pub disk_num: u16,
    pub start_disk_num: u16,
    pub tot_entries_on_disk: u16,
    pub tot_entries: u16,
    pub cdr_size: u32,
    pub cdr_offset: u32,
    pub file_comment_len: u16,
    pub file_comment: Option<Vec<u8>>,
}

/// Why a local file record could not be read.
#[derive(Clone, Copy, Debug, PartialEq, Eq)]
pub enum ZipError {
    /// The bytes end before the record does.
    Truncated,
    /// The record does not start with the local file signature.
    BadSignature,
    /// The entry is encrypted or needs ZIP64 sizes.
    Unsupported,
}

/// The two bytes of `x`, least significant first.
pub open spec fn le16(x: u16) -> Seq<u8> {
    seq![(x % 256) as u8, (x / 256) as u8]
}

/// The four bytes of `x`, least significant first.
pub open spec fn le32(x: u32) -> Seq<u8> {
    seq![(x % 256) as u8, ((x / 256) % 256) as u8, ((x / 65536) % 256) as u8, (x / 16777216) as u8]
}

/// The bytes of an optional field, present only when its length field is not zero.
pub open spec fn optional_bytes(len: u16, v: Option<Vec<u8>>) -> Seq<u8> {
    if len != 0 {
        match v {
            Some(b) => b@,
            None => Seq::empty(),
        }
    } else {
        Seq::empty()
    }
}

/// The 30 fixed bytes of a local file record.
pub open spec fn lf_header(r: LFRecord) -> Seq<u8> {
    le32(r.lf_sig) + le16(r.e_ver) + le16(r.gen_flag) + le16(r.comp_method) + le16(r.last_mod_time)
        + le16(r.last_mod_date) + le32(r.crc_32) + le32(r.comp_fsize) + le32(r.uncomp_fsize) + le16(
        r.fname_len,
    ) + le16(r.exfield_len)
}

/// The byte layout of a local file record followed by its data.
pub open spec fn lf_bytes(r: LFRecord) -> Seq<u8> {
    lf_header(r) + r.fname@ + optional_bytes(r.exfield_len, r.exfield) + r.fdata@
}

/// The byte layout of a central directory record.
pub open spec fn cd_bytes(r: CDRecord) -> Seq<u8> {
    le32(r.cd_sig) + seq![r.spec_ver, r.made_by] + le16(r.extract_ver) + le16(r.gen_flag) + le16(
        r.comp_method,
    ) + le16(r.last_mod_time) + le16(r.last_mod_date) + le32(r.crc_32) + le32(r.comp_fsize) + le32(
        r.ncomp_fsize,
    ) + le16(r.fname_len) + le16(r.exfield_len) + le16(r.f_comment_len) + le16(r.disk_num_start)
        + le16(r.int_file_attr) + le32(r.ext_file_attr) + le32(r.offset_local_head) + r.fname@
        + optional_bytes(r.exfield_len, r.extra_field) + optional_bytes(r.f_comment_len, r.file_comment)
}

/// The byte layout of an end of central directory record.
pub open spec fn eocd_bytes(r: EOCDRecord) -> Seq<u8> {
    le32(r.eocd_signature) + le16(r.disk_num) + le16(r.start_disk_num) + le16(r.tot_entries_on_disk)
        + le16(r.tot_entries) + le32(r.cdr_size) + le32(r.cdr_offset) + le16(r.file_comment_len)
        + optional_bytes(r.file_comment_len, r.file_comment)
}

fn push_le16(buf: &mut Vec<u8>, x: u16)
    ensures
        final(buf)@ == old(buf)@ + le16(x),
{
    buf.push((x % 256) as u8);
    buf.push((x / 256) as u8);
    assert(final(buf)@ =~= old(buf)@ + le16(x));
}

fn push_le32(buf: &mut Vec<u8>, x: u32)
    ensures
        final(buf)@ == old(buf)@ + le32(x),
{
    buf.push((x % 256) as u8);
    buf.push(((x / 256) % 256) as u8);
    buf.push(((x / 65536) % 256) as u8);
    buf.push((x / 16777216) as u8);
    assert(final(buf)@ =~= old(buf)@ + le32(x));
}

fn push_all(buf: &mut Vec<u8>, v: &Vec<u8>)
    ensures
        final(buf)@ == old(buf)@ + v@,
{
    let mut i: usize = 0;
    let ghost start = buf@;
    while i < v.len()
        invariant
            i <= v@.len(),
            buf@ == start + v@.take(i as int),
        decreases v@.len() - i,
    {
        buf.push(v[i]);
        assert(buf@ =~= start + v@.take(i + 1));
        i = i + 1;
    }
    assert(v@.take(i as int) =~= v@);
}

fn push_optional(buf: &mut Vec<u8>, len: u16, v: &Option<Vec<u8>>)
    ensures
        final(buf)@ == old(buf)@ + optional_bytes(len, *v),
{
    if len != 0 {
        match v {
            Some(b) => push_all(buf, b),
            None => {
                assert(buf@ =~= buf@ + Seq::<u8>::empty());
            },
        }
    } else {
        assert(buf@ =~= buf@ + Seq::<u8>::empty());
    }
}

/// `r` is the local file record that this writer makes for `fname` and `fdata`.
pub open spec fn lf_made(r: LFRecord, comp_method: u16, comp_fsize: u32, uncomp_fsize: u32, fname: Seq<u8>, fdata: Seq<u8>) -> bool {
    &&& r.lf_sig == LF_SIGNATURE
    &&& r.e_ver == 20
    &&& r.gen_flag == 0
    &&& r.comp_method == comp_method
    &&& r.last_mod_time == 0
    &&& r.last_mod_date == 0
    &&& r.crc_32 == CRC_SENTINEL
    &&& r.comp_fsize == comp_fsize
    &&& r.uncomp_fsize == uncomp_fsize
    &&& r.fname_len == fname.len()
    &&& r.exfield_len == 0
    &&& r.fname@ == fname
    &&& r.exfield is None
    &&& r.fdata@ == fdata
}

/// `r` is the central directory record that this writer makes for `fname`.
pub open spec fn cd_made(r: CDRecord, comp_method: u16, comp_fsize: u32, ncomp_fsize: u32, fname: Seq<u8>) -> bool {
    &&& r.cd_sig == CD_SIGNATURE
    &&& r.spec_ver == 30
    &&& r.made_by == 65
    &&& r.extract_ver == 20
    &&& r.gen_flag == 0
    &&& r.comp_method == comp_method
    &&& r.last_mod_time == 0
    &&& r.last_mod_date == 0
    &&& r.crc_32 == CRC_SENTINEL
    &&& r.comp_fsize == comp_fsize
    &&& r.ncomp_fsize == ncomp_fsize
    &&& r.fname_len == fname.len()
    &&& r.exfield_len == 0
    &&& r.f_comment_len == 0
    &&& r.disk_num_start == 0
    &&& r.int_file_attr == 1
    &&& r.ext_file_attr == 1
    &&& r.offset_local_head == 0
    &&& r.fname@ == fname
    &&& r.extra_field is None
    &&& r.file_comment is None
}

/// `r` is the end of central directory record of a single-entry archive.
pub open spec fn eocd_made(r: EOCDRecord, cdr_size: u32, cdr_offset: u32) -> bool {
    &&& r.eocd_signature == EOCD_SIGNATURE
    &&& r.disk_num == 0
    &&& r.start_disk_num == 0
    &&& r.tot_entries_on_disk == 1
    &&& r.tot_entries == 1
    &&& r.cdr_size == cdr_size
    &&& r.cdr_offset == cdr_offset
    &&& r.file_comment_len == 0
    &&& r.file_comment is None
}

/// A local file record for one file, with version 20, no flags, zero time and date and the
/// placeholder CRC.
pub fn lfrecord_creator(comp_method: u16, comp_fsize: u32, uncomp_fsize: u32, fname: Vec<u8>, fdata: Vec<u8>) -> (r: LFRecord)
    requires
        fname@.len() <= 65535,
    ensures
        lf_made(r, comp_method, comp_fsize, uncomp_fsize, fname@, fdata@),
{
    LFRecord {
        lf_sig: LF_SIGNATURE,
        e_ver: 20,
        gen_flag: 0,
        comp_method: comp_method,
        last_mod_time: 0,
        last_mod_date: 0,
        crc_32: CRC_SENTINEL,
        comp_fsize: comp_fsize,
        uncomp_fsize: uncomp_fsize,
        fname_len: fname.len() as u16,
        exfield_len: 0,
        fname: fname,
        exfield: None,
        fdata,
    }
}

/// A central directory record for one file at offset 0, made by version 30 on platform 65,
/// needing version 20, with the placeholder CRC and no extra field or comment.
pub fn cdrecord_creator(comp_method: u16, comp_fsize: u32, ncomp_fsize: u32, fname: Vec<u8>) -> (r: CDRecord)
    requires
        fname@.len() <= 65535,
    ensures
        cd_made(r, comp_method, comp_fsize, ncomp_fsize, fname@),
{
    CDRecord {
        cd_sig: CD_SIGNATURE,
        spec_ver: 30,
        made_by: 65,
        extract_ver: 20,
        gen_flag: 0,
        comp_method: comp_method,
        last_mod_time: 0,
        last_mod_date: 0,
        crc_32: CRC_SENTINEL,
        comp_fsize: comp_fsize,
        ncomp_fsize: ncomp_fsize,
        fname_len: fname.len() as u16,
        exfield_len: 0,
        f_comment_len: 0,
        disk_num_start: 0,
        int_file_attr: 1,
        ext_file_attr: 1,
        offset_local_head: 0,
        fname: fname,
        extra_field: None,
        file_comment: None,
    }
}

/// The end of central directory record of a single-entry archive.
pub fn eocdrecord_creator(cdr_size: u32, cdr_offset: u32) -> (r: EOCDRecord)
    ensures
        eocd_made(r, cdr_size, cdr_offset),
{
    EOCDRecord {
        eocd_signature: EOCD_SIGNATURE,
        disk_num: 0,
        start_disk_num: 0,
        tot_entries_on_disk: 1,
        tot_entries: 1,
        cdr_size: cdr_size,
        cdr_offset: cdr_offset,
        file_comment_len: 0,
        file_comment: None,
    }
}

/// Size of a central directory record with its file name.
pub fn cdrecord_len(cdrecord: &CDRecord) -> (r: u32)
    requires
        cdrecord.fname@.len() <= 65535,
    ensures
        r == 46 + cdrecord.fname@.len(),
{
    CDRECORD_BASE_SIZE + (cdrecord.fname.len() as u32)
}

/// Size of a local file record with its file name and data.
pub fn lfrecord_len(lfrecord: &LFRecord) -> (r: u32)
    requires
        30 + lfrecord.fname@.len() + lfrecord.fdata@.len() <= u32::MAX,
    ensures
        r == 30 + lfrecord.fname@.len() + lfrecord.fdata@.len(),
{
    LFRECORD_BASE_SIZE + (lfrecord.fname.len() as u32) + (lfrecord.fdata.len() as u32)
}

/// The bytes of a local file record followed by its data.
pub fn lfrecord_to_byte_array(lfrecord: LFRecord) -> (r: Vec<u8>)
    ensures
        r@ == lf_bytes(lfrecord),
{
    let mut array: Vec<u8> = Vec::new();
    push_le32(&mut array, lfrecord.lf_sig);
    push_le16(&mut array, lfrecord.e_ver);
    push_le16(&mut array, lfrecord.gen_flag);
    push_le16(&mut array, lfrecord.comp_method);
    push_le16(&mut array, lfrecord.last_mod_time);
    push_le16(&mut array, lfrecord.last_mod_date);
    push_le32(&mut array, lfrecord.crc_32);
    push_le32(&mut array, lfrecord.comp_fsize);
    push_le32(&mut array, lfrecord.uncomp_fsize);
    push_le16(&mut array, lfrecord.fname_len);
    push_le16(&mut array, lfrecord.exfield_len);
    push_all(&mut array, &lfrecord.fname);
    push_optional(&mut array, lfrecord.exfield_len, &lfrecord.exfield);
    push_all(&mut array, &lfrecord.fdata);
    assert(array@ =~= lf_bytes(lfrecord));
    array
}

/// The bytes of a central directory record.
pub fn cdrecord_to_byte_array(cdrecord: CDRecord) -> (r: Vec<u8>)
    ensures
        r@ == cd_bytes(cdrecord),
{
    let mut array: Vec<u8> = Vec::new();
    push_le32(&mut array, cdrecord.cd_sig);
    array.push(cdrecord.spec_ver);
    array.push(cdrecord.made_by);
    push_le16(&mut array, cdrecord.extract_ver);
    push_le16(&mut array, cdrecord.gen_flag);
    push_le16(&mut array, cdrecord.comp_method);
    push_le16(&mut array, cdrecord.last_mod_time);
    push_le16(&mut array, cdrecord.last_mod_date);
    push_le32(&mut array, cdrecord.crc_32);
    push_le32(&mut array, cdrecord.comp_fsize);
    push_le32(&mut array, cdrecord.ncomp_fsize);
    push_le16(&mut array, cdrecord.fname_len);
    push_le16(&mut array, cdrecord.exfield_len);
    push_le16(&mut array, cdrecord.f_comment_len);
    push_le16(&mut array, cdrecord.disk_num_start);
    push_le16(&mut array, cdrecord.int_file_attr);
    push_le32(&mut array, cdrecord.ext_file_attr);
    push_le32(&mut array, cdrecord.offset_local_head);
    push_all(&mut array, &cdrecord.fname);
    push_optional(&mut array, cdrecord.exfield_len, &cdrecord.extra_field);
    push_optional(&mut array, cdrecord.f_comment_len, &cdrecord.file_comment);
    assert(array@ =~= cd_bytes(cdrecord));
    array
}

/// The bytes of an end of central directory record.
pub fn eocdrecord_to_byte_array(eocdrecord: EOCDRecord) -> (r: Vec<u8>)
    ensures
        r@ == eocd_bytes(eocdrecord),
{
    let mut array: Vec<u8> = Vec::new();
    push_le32(&mut array, eocdrecord.eocd_signature);
    push_le16(&mut array, eocdrecord.disk_num);
    push_le16(&mut array, eocdrecord.start_disk_num);
    push_le16(&mut array, eocdrecord.tot_entries_on_disk);
    push_le16(&mut array, eocdrecord.tot_entries);
    push_le32(&mut array, eocdrecord.cdr_size);
    push_le32(&mut array, eocdrecord.cdr_offset);
    push_le16(&mut array, eocdrecord.file_comment_len);
    push_optional(&mut array, eocdrecord.file_comment_len, &eocdrecord.file_comment);
    assert(array@ =~= eocd_bytes(eocdrecord));
    array
}

/// The little-endian 16-bit number at offset `i`.
pub open spec fn u16_at(s: Seq<u8>, i: int) -> u16 {
    (s[i] as nat + 256 * (s[i + 1] as nat)) as u16
}

/// The little-endian 32-bit number at offset `i`.
pub open spec fn u32_at(s: Seq<u8>, i: int) -> u32 {
    (s[i] as nat + 256 * (s[i + 1] as nat) + 65536 * (s[i + 2] as nat) + 16777216 * (s[i
        + 3] as nat)) as u32
}

/// Length of the file data of the local file record at the start of `s`: the uncompressed
/// size for a stored file, else the compressed size.
pub open spec fn lf_data_len(s: Seq<u8>) -> nat {
    if u16_at(s, 8) == 0 {
        u32_at(s, 22) as nat
    } else {
        u32_at(s, 18) as nat
    }
}

/// Where the file name, the extra field and the file data of the record at the start of `s`
/// end.
pub open spec fn lf_name_end(s: Seq<u8>) -> int {
    30 + u16_at(s, 26)
}

pub open spec fn lf_extra_end(s: Seq<u8>) -> int {
    lf_name_end(s) + u16_at(s, 28)
}

pub open spec fn lf_data_end(s: Seq<u8>) -> int {
    lf_extra_end(s) + lf_data_len(s)
}

/// Why the bytes hold no complete local file record at their start, if they do not.
pub open spec fn lf_parse_error(s: Seq<u8>) -> Option<ZipError> {
    if s.len() < 30 {
        Some(ZipError::Truncated)
    } else if u32_at(s, 0) != LF_SIGNATURE {
        Some(ZipError::BadSignature)
    } else if u16_at(s, 6) % 2 == 1 || u32_at(s, 18) == 0xffff_ffff || u32_at(s, 22) == 0xffff_ffff {
        Some(ZipError::Unsupported)
    } else if lf_data_end(s) > s.len() {
        Some(ZipError::Truncated)
    } else {
        None
    }
}

/// The little-endian 16-bit number at offset `at`.
pub fn read_2bytes(bytes: &Vec<u8>, at: usize) -> (r: u16)
    requires
        at + 2 <= bytes@.len(),
    ensures
        r == u16_at(bytes@, at as int),
{
    let n = bytes.len();
    assert(at + 1 < n);
    bytes[at] as u16 + 256 * (bytes[at + 1] as u16)
}

/// The little-endian 32-bit number at offset `at`.
pub fn read_4bytes(bytes: &Vec<u8>, at: usize) -> (r: u32)
    requires
        at + 4 <= bytes@.len(),
    ensures
        r == u32_at(bytes@, at as int),
{
    let n = bytes.len();
    assert(at + 3 < n);
    bytes[at] as u32 + 256 * (bytes[at + 1] as u32) + 65536 * (bytes[at + 2] as u32) + 16777216 * (
    bytes[at + 3] as u32)
}

/// The bytes `lo..hi` of `v`.
pub fn read_string(v: &Vec<u8>, lo: usize, hi: usize) -> (r: Vec<u8>)
    requires
        lo <= hi <= v@.len(),
    ensures
        r@ == v@.subrange(lo as int, hi as int),
{
    let mut r: Vec<u8> = Vec::new();
    let mut i: usize = lo;
    while i < hi
        invariant
            lo <= i <= hi,
            hi <= v@.len(),
            r@ == v@.subrange(lo as int, i as int),
        decreases hi - i,
    {
        r.push(v[i]);
        assert(r@ =~= v@.subrange(lo as int, i + 1));
        i = i + 1;
    }
    r
}

/// Reads the local file record at the start of `bytes`, with its file name, extra field and
/// file data.
pub fn lfrecord_from_bytes(bytes: &Vec<u8>) -> (r: Result<LFRecord, ZipError>)
    ensures
        lf_parse_error(bytes@) matches Some(e) ==> r == Err::<LFRecord, ZipError>(e),
        lf_parse_error(bytes@) is None ==> r is Ok,
        r matches Ok(rec) ==> {
            let s = bytes@;
            &&& s.len() >= 30
            &&& lf_data_end(s) <= s.len()
            &&& rec.lf_sig == u32_at(s, 0) == LF_SIGNATURE
            &&& rec.e_ver == u16_at(s, 4)
            &&& rec.gen_flag == u16_at(s, 6)
            &&& rec.comp_method == u16_at(s, 8)
            &&& rec.last_mod_time == u16_at(s, 10)
            &&& rec.last_mod_date == u16_at(s, 12)
            &&& rec.crc_32 == u32_at(s, 14)
            &&& rec.comp_fsize == u32_at(s, 18)
            &&& rec.uncomp_fsize == u32_at(s, 22)
            &&& rec.fname_len == u16_at(s, 26)
            &&& rec.exfield_len == u16_at(s, 28)
            &&& rec.fname@ == s.subrange(30, lf_name_end(s))
            &&& rec.exfield matches Some(e) && e@ == s.subrange(lf_name_end(s), lf_extra_end(s))
            &&& rec.fdata@ == s.subrange(lf_extra_end(s), lf_data_end(s))
        },
{
    let n = bytes.len();
    if n < 30 {
        return Err(ZipError::Truncated);
    }
    let lf_sig = read_4bytes(bytes, 0);
    if lf_sig != LF_SIGNATURE {
        return Err(ZipError::BadSignature);
    }
    let e_ver = read_2bytes(bytes, 4);
    let gen_flag = read_2bytes(bytes, 6);
    let comp_method = read_2bytes(bytes, 8);
    let last_mod_time = read_2bytes(bytes, 10);
    let last_mod_date = read_2bytes(bytes, 12);
    let crc_32 = read_4bytes(bytes, 14);
    let comp_fsize = read_4bytes(bytes, 18);
    let uncomp_fsize = read_4bytes(bytes, 22);
    if gen_flag % 2 == 1 || comp_fsize == 0xffff_ffff || uncomp_fsize == 0xffff_ffff {
        return Err(ZipError::Unsupported);
    }
    let fname_len = read_2bytes(bytes, 26);
    let exfield_len = read_2bytes(bytes, 28);
    let data_len: usize = if comp_method == 0 { uncomp_fsize as usize } else { comp_fsize as usize };
    let name_end: usize = 30 + fname_len as usize;
    if n < name_end {
        return Err(ZipError::Truncated);
    }
    let extra_end: usize = name_end + exfield_len as usize;
    if n < extra_end {
        return Err(ZipError::Truncated);
    }
    if n - extra_end < data_len {
        return Err(ZipError::Truncated);
    }
    let data_end: usize = extra_end + data_len;
    let fname = read_string(bytes, 30, name_end);
    let exfield = read_string(bytes, name_end, extra_end);
    let fdata = read_string(bytes, extra_end, data_end);
    Ok(LFRecord {
        lf_sig,
        e_ver,
        gen_flag,
        comp_method,
        last_mod_time,
        last_mod_date,
        crc_32,
        comp_fsize,
        uncomp_fsize,
        fname_len,
        exfield_len,
        fname,
        exfield: Some(exfield),
        fdata,
    })
}

proof fn lemma_u16_at(s: Seq<u8>, i: int, x: u16)
    requires
        0 <= i,
        i + 2 <= s.len(),
        s[i] == le16(x)[0],
        s[i + 1] == le16(x)[1],
    ensures
        u16_at(s, i) == x,
{
}

proof fn lemma_u32_at(s: Seq<u8>, i: int, x: u32)
    requires
        0 <= i,
        i + 4 <= s.len(),
        s[i] == le32(x)[0],
        s[i + 1] == le32(x)[1],
        s[i + 2] == le32(x)[2],
        s[i + 3] == le32(x)[3],
    ensures
        u32_at(s, i) == x,
{
    let b0 = x % 256;
    let b1 = (x / 256) % 256;
    let b2 = (x / 65536) % 256;
    let b3 = x / 16777216;
    assert(b0 + 256 * b1 + 65536 * b2 + 16777216 * b3 == x);
}

/// Reading back the bytes of an unencrypted local file record without an extra field or ZIP64
/// sizes gives back its fields, its file name and its file data.
pub proof fn lemma_lf_bytes_parse(r: LFRecord, rest: Seq<u8>)
    requires
        r.lf_sig == LF_SIGNATURE,
        r.fname_len == r.fname@.len(),
        r.exfield_len == 0,
        r.fdata@.len() == (if r.comp_method == 0 { r.uncomp_fsize } else { r.comp_fsize }),
        r.gen_flag % 2 == 0,
        r.comp_fsize != 0xffff_ffff,
        r.uncomp_fsize != 0xffff_ffff,
    ensures
        ({
            let s = lf_bytes(r) + rest;
            &&& lf_parse_error(s) is None
            &&& u16_at(s, 8) == r.comp_method
            &&& s.subrange(30, lf_name_end(s)) == r.fname@
            &&& lf_extra_end(s) == lf_name_end(s)
            &&& s.subrange(lf_extra_end(s), lf_data_end(s)) == r.fdata@
        }),
{
    let s = lf_bytes(r) + rest;
    let h = lf_header(r);
    assert(h.len() == 30);
    assert forall|k: int| 0 <= k < 30 implies s[k] == h[k] by {}
    lemma_u32_at(s, 0, r.lf_sig);
    lemma_u16_at(s, 6, r.gen_flag);
    lemma_u16_at(s, 8, r.comp_method);
    lemma_u32_at(s, 18, r.comp_fsize);
    lemma_u32_at(s, 22, r.uncomp_fsize);
    lemma_u16_at(s, 26, r.fname_len);
    lemma_u16_at(s, 28, r.exfield_len);
    let n: int = r.fname@.len() as int;
    assert(optional_bytes(r.exfield_len, r.exfield) == Seq::<u8>::empty());
    assert(s.subrange(30, 30 + n) =~= r.fname@);
    assert(s.subrange(30 + n, 30 + n + r.fdata@.len() as int) =~= r.fdata@);
}

} // verus!
