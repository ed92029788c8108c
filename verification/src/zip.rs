//! Reading zip archives held in memory: the central directory, the entries'
//! metadata, and their stored or DEFLATE-compressed contents.

use vstd::prelude::*;
use crate::crc32::{crc32, crc_update, lemma_crc_update_append, Crc32};
use crate::error::ArchiveError;
use crate::inflate::Inflate;
use crate::inflate_spec::inflate_spec;
use crate::text::{cp437_decode, decode_cp437, decode_utf8, utf8_lossy};
use vstd::string::StrSliceExecFns;
use crate::zip_spec::{
    archive_entries, cd_comment_len, cd_compression, cd_entries, cd_extra_len, cd_flags, cd_header,
    cd_local_offset, cd_name, cd_name_len, days_before_month, days_before_year, decode_name,
    dos_datetime_secs, entry_data_offset, eocd_directory_offset, eocd_entry_count, eocd_offset,
    eocd_ok, eocd_search, extra_fields, is_dir_name, is_leap_year, is_utf8_flag, le16, le32,
    local_header, EOCD_SIGNATURE, FILE_HEADER_SIGNATURE, LOCAL_FILE_HEADER_SIGNATURE,
};

verus! {

/// A reader over the bytes of an archive that keeps track of its offset.
#[derive(Debug)]
pub struct ByteReader {
    data: Vec<u8>,
    offset: usize,
}

impl ByteReader {
    #[verifier::type_invariant]
    spec fn inv(self) -> bool {
        self.offset <= self.data.len()
    }

    /// The bytes being read.
    pub closed spec fn bytes(&self) -> Seq<u8> {
        self.data@
    }

    /// The offset of the next byte to read.
    pub closed spec fn pos(&self) -> int {
        self.offset as int
    }

    /// Creates a new `ByteReader` at the start of the given bytes.
    pub fn new(data: Vec<u8>) -> (r: Self)
        ensures
            r.bytes() == data@,
            r.pos() == 0,
    {
        ByteReader { data, offset: 0 }
    }

    /// Sets the current offset for this reader.
    ///
    /// # Errors
    ///
    /// `ArchiveError::UnexpectedEof` if the offset lies past the end; the
    /// offset is then left as it was.
    pub fn set_offset(&mut self, offset: usize) -> (r: Result<(), ArchiveError>)
        ensures
            final(self).bytes() == old(self).bytes(),
            offset <= old(self).bytes().len() ==> r is Ok && final(self).pos() == offset,
            offset > old(self).bytes().len() ==> r == Err::<(), ArchiveError>(
                ArchiveError::UnexpectedEof,
            ) && final(self).pos() == old(self).pos(),
    {
        if offset > self.data.len() {
            return Err(ArchiveError::UnexpectedEof);
        }
        self.offset = offset;
        Ok(())
    }

    /// Returns the current offset of this reader.
    pub fn offset(&self) -> (r: usize)
        ensures
            r == self.pos(),
    {
        self.offset
    }

    /// Returns the total length of this reader.
    pub fn total_len(&self) -> (r: usize)
        ensures
            r == self.bytes().len(),
    {
        self.data.len()
    }

    /// Returns the remaining length of this reader.
    pub fn rem_len(&self) -> (r: usize)
        ensures
            r == self.bytes().len() - self.pos(),
    {
        proof {
            use_type_invariant(self);
        }
        self.data.len() - self.offset
    }

    /// Reads in a little-endian 2-byte unsigned integer.
    ///
    /// # Errors
    ///
    /// `ArchiveError::UnexpectedEof` if fewer than 2 bytes are left.
    pub fn read_le_u16(&mut self) -> (r: Result<u16, ArchiveError>)
        ensures
            final(self).bytes() == old(self).bytes(),
            old(self).pos() + 2 <= old(self).bytes().len() ==> (r matches Ok(v) && v == le16(
                old(self).bytes(),
                old(self).pos(),
            ) && final(self).pos() == old(self).pos() + 2),
            old(self).pos() + 2 > old(self).bytes().len() ==> r == Err::<u16, ArchiveError>(
                ArchiveError::UnexpectedEof,
            ) && final(self).pos() == old(self).pos(),
    {
        proof {
            use_type_invariant(&*self);
        }
        if self.data.len() - self.offset < 2 {
            return Err(ArchiveError::UnexpectedEof);
        }
        let lo = self.data[self.offset] as u16;
        let hi = self.data[self.offset + 1] as u16;
        self.offset = self.offset + 2;
        Ok(lo + 256 * hi)
    }

    /// Reads in a little-endian 4-byte unsigned integer.
    ///
    /// # Errors
    ///
    /// `ArchiveError::UnexpectedEof` if fewer than 4 bytes are left.
    pub fn read_le_u32(&mut self) -> (r: Result<u32, ArchiveError>)
        ensures
            final(self).bytes() == old(self).bytes(),
            old(self).pos() + 4 <= old(self).bytes().len() ==> (r matches Ok(v) && v == le32(
                old(self).bytes(),
                old(self).pos(),
            ) && final(self).pos() == old(self).pos() + 4),
            old(self).pos() + 4 > old(self).bytes().len() ==> r == Err::<u32, ArchiveError>(
                ArchiveError::UnexpectedEof,
            ) && final(self).pos() == old(self).pos(),
    {
        proof {
            use_type_invariant(&*self);
        }
        if self.data.len() - self.offset < 4 {
            return Err(ArchiveError::UnexpectedEof);
        }
        let lo = self.read_le_u16()?;
        let hi = self.read_le_u16()?;
        Ok(lo as u32 + 65536 * hi as u32)
    }

    /// Reads in an exact number of bytes into a `Vec`.
    ///
    /// # Errors
    ///
    /// `ArchiveError::UnexpectedEof` if fewer than `len` bytes are left.
    pub fn read_to_vec(&mut self, len: usize) -> (r: Result<Vec<u8>, ArchiveError>)
        ensures
            final(self).bytes() == old(self).bytes(),
            old(self).pos() + len <= old(self).bytes().len() ==> (r matches Ok(v) && v@
                == old(self).bytes().subrange(old(self).pos(), old(self).pos() + len)
                && final(self).pos() == old(self).pos() + len),
            old(self).pos() + len > old(self).bytes().len() ==> r == Err::<Vec<u8>, ArchiveError>(
                ArchiveError::UnexpectedEof,
            ) && final(self).pos() == old(self).pos(),
    {
        proof {
            use_type_invariant(&*self);
        }
        if self.data.len() - self.offset < len {
            return Err(ArchiveError::UnexpectedEof);
        }
        let mut v: Vec<u8> = Vec::new();
        let start = self.offset;
        for i in 0..len
            invariant
                start + len <= self.data.len(),
                v@ == self.data@.subrange(start as int, start + i),
        {
            v.push(self.data[start + i]);
            assert(v@ =~= self.data@.subrange(start as int, start + i + 1));
        }
        self.offset = start + len;
        Ok(v)
    }
}

/// The kinds of signature a zip structure can have.
#[derive(Debug, Clone, Copy, PartialEq, Eq, Structural)]
pub enum Signature {
    /// No signature.
    Absent,
    /// Required signature.
    Required(u32),
    /// A signature that may be present.
    Optional(u32),
}

/// Reading the signature of a structure with `fix_len` fixed bytes after its
/// signature at `off`: the number of signature bytes, or why it cannot be read.
pub open spec fn signature_read(data: Seq<u8>, off: int, sig: Signature, fix_len: int) -> Result<
    int,
    ArchiveError,
> {
    if data.len() - off < fix_len {
        Err(ArchiveError::UnexpectedEof)
    } else {
        match sig {
            Signature::Absent => Ok(0),
            Signature::Required(s) => if data.len() - off < fix_len + 4 {
                Err(ArchiveError::UnexpectedEof)
            } else if le32(data, off) != s {
                Err(ArchiveError::WrongSignature)
            } else {
                Ok(4)
            },
            Signature::Optional(s) => if data.len() - off >= fix_len + 4 && le32(data, off) == s {
                Ok(4)
            } else {
                Ok(0)
            },
        }
    }
}

/// Checks that the fixed bytes of a structure fit and reads its signature,
/// the common start of parsing every zip structure. Returns the number of
/// signature bytes read.
pub fn parse_signature(r: &mut ByteReader, signature: Signature, fix_len: usize) -> (res: Result<usize, ArchiveError>)
    ensures
        final(r).bytes() == old(r).bytes(),
        res matches Ok(n) ==> final(r).pos() == old(r).pos() + n,
        match signature_read(old(r).bytes(), old(r).pos(), signature, fix_len as int) {
            Ok(n) => res == Ok::<usize, ArchiveError>(n as usize),
            Err(e) => res == Err::<usize, ArchiveError>(e),
        },
{
    // Check if the fixed length is in range
    if r.rem_len() < fix_len {
        return Err(ArchiveError::UnexpectedEof);
    }
    match signature {
        Signature::Absent => Ok(0),
        Signature::Required(sig) => {
            // Check if the signature and the fixed length are in range
            if r.rem_len() - fix_len < 4 {
                return Err(ArchiveError::UnexpectedEof);
            }
            if r.read_le_u32()? != sig {
                return Err(ArchiveError::WrongSignature);
            }
            Ok(4)
        },
        Signature::Optional(sig) => {
            if r.rem_len() - fix_len >= 4 {
                let offset = r.offset();
                if r.read_le_u32()? == sig {
                    return Ok(4);
                }
                // No match, reset
                r.set_offset(offset)?;
            }
            Ok(0)
        },
    }
}

/// Extensible data fields. APPNOTE 4.5.1.
#[derive(Debug)]
pub struct ExtensibleDataField {
    pub id: u16,
    pub data: Vec<u8>,
}

impl View for ExtensibleDataField {
    type V = (u16, Seq<u8>);

    open spec fn view(&self) -> (u16, Seq<u8>) {
        (self.id, self.data@)
    }
}

impl ExtensibleDataField {
    /// The number of fixed bytes.
    pub const FIX_LEN: usize = 4;

    /// Parses a field at the reader's offset, whose fixed bytes are known to
    /// fit. On success returns it with the number of its variable bytes.
    fn parse_data(r: &mut ByteReader) -> (res: Result<(Self, usize), ArchiveError>)
        requires
            old(r).pos() + 4 <= old(r).bytes().len(),
        ensures
            final(r).bytes() == old(r).bytes(),
            ({
                let data = old(r).bytes();
                let p = old(r).pos();
                let dl = le16(data, p + 2);
                &&& p + 4 + dl <= data.len() ==> (res matches Ok((f, n)) && f@ == (
                    le16(data, p) as u16,
                    data.subrange(p + 4, p + 4 + dl),
                ) && n == dl && final(r).pos() == p + 4 + dl)
                &&& p + 4 + dl > data.len() ==> res == Err::<(Self, usize), ArchiveError>(
                    ArchiveError::UnexpectedEof,
                )
            }),
    {
        let id = r.read_le_u16()?;
        let data_len = r.read_le_u16()? as usize;
        // Check if enough for the variable-sized data
        if r.rem_len() < data_len {
            return Err(ArchiveError::UnexpectedEof);
        }
        let data = r.read_to_vec(data_len)?;
        Ok((ExtensibleDataField { id, data }, data_len))
    }

    /// Parses a field at the reader's offset. On success returns it with the
    /// number of bytes it takes.
    fn parse_noreset(r: &mut ByteReader) -> (res: Result<(Self, usize), ArchiveError>)
        ensures
            final(r).bytes() == old(r).bytes(),
            ({
                let data = old(r).bytes();
                let p = old(r).pos();
                let dl = le16(data, p + 2);
                &&& (p + 4 <= data.len() && p + 4 + dl <= data.len()) ==> (res matches Ok((f, n))
                    && f@ == (le16(data, p) as u16, data.subrange(p + 4, p + 4 + dl)) && n == 4 + dl
                    && final(r).pos() == p + n)
                &&& !(p + 4 <= data.len() && p + 4 + dl <= data.len()) ==> res is Err
            }),
    {
        proof {
            use_type_invariant(&*r);
        }
        let _ = parse_signature(r, Signature::Absent, Self::FIX_LEN)?;
        let (result, consumed) = Self::parse_data(r)?;
        Ok((result, Self::FIX_LEN + consumed))
    }

    /// Parses fields as long as that succeeds and they end within `len`
    /// bytes. Returns them with `len`; the reader ends up `len` bytes further,
    /// even if the fields do not fill them exactly.
    ///
    /// # Errors
    ///
    /// `ArchiveError::UnexpectedEof` if fewer than `len` bytes are left.
    fn parse_vec(r: &mut ByteReader, len: usize) -> (res: Result<(Vec<Self>, usize), ArchiveError>)
        ensures
            final(r).bytes() == old(r).bytes(),
            old(r).pos() + len <= old(r).bytes().len() ==> (res matches Ok((v, n)) && n == len
                && final(r).pos() == old(r).pos() + len && v@.map_values(|f: ExtensibleDataField| f@)
                == extra_fields(old(r).bytes(), old(r).pos(), old(r).pos() + len)),
            old(r).pos() + len > old(r).bytes().len() ==> res == Err::<(Vec<Self>, usize), ArchiveError>(
                ArchiveError::UnexpectedEof,
            ),
    {
        proof {
            use_type_invariant(&*r);
        }
        let ghost data = r.bytes();
        let init_offset = r.offset();
        if len > r.total_len() - init_offset {
            return Err(ArchiveError::UnexpectedEof);
        }
        let ghost end = init_offset + len;
        let mut result: Vec<Self> = Vec::new();
        let mut consumed: usize = 0;
        while consumed < len
            invariant_except_break
                r.bytes() == data,
                end == init_offset + len,
                consumed <= len,
                init_offset + len <= data.len(),
                r.pos() == init_offset + consumed,
                result@.map_values(|f: ExtensibleDataField| f@) + extra_fields(
                    data,
                    init_offset + consumed,
                    end,
                ) == extra_fields(data, init_offset as int, end),
            ensures
                r.bytes() == data,
                end == init_offset + len,
                init_offset + len <= data.len(),
                result@.map_values(|f: ExtensibleDataField| f@) == extra_fields(
                    data,
                    init_offset as int,
                    end,
                ),
            decreases len - consumed,
        {
            let ghost p = init_offset + consumed;
            let ghost before = result@.map_values(|f: ExtensibleDataField| f@);
            match Self::parse_noreset(r) {
                Ok((e, ec)) => {
                    if ec > len - consumed {
                        assert(extra_fields(data, p, end) =~= Seq::empty());
                        assert(before + Seq::empty() =~= before);
                        break;
                    }
                    consumed = consumed + ec;
                    let ghost item = e@;
                    result.push(e);
                    assert(result@.map_values(|f: ExtensibleDataField| f@) =~= before.push(item));
                    assert(extra_fields(data, p, end) =~= seq![item] + extra_fields(data, p + ec, end));
                    assert(before.push(item) + extra_fields(data, p + ec, end) =~= before + (seq![item] + extra_fields(data, p + ec, end)));
                },
                Err(_) => {
                    assert(extra_fields(data, p, end) =~= Seq::empty());
                    assert(before + Seq::empty() =~= before);
                    break;
                },
            }
        }
        proof {
            if consumed >= len {
                let v = result@.map_values(|f: ExtensibleDataField| f@);
                assert(extra_fields(data, init_offset + consumed, end) =~= Seq::empty());
                assert(v + Seq::empty() =~= v);
            }
        }
        // Set to the exact amount
        r.set_offset(init_offset + len)?;
        Ok((result, len))
    }
}

/// Decodes a name or comment: UTF-8 if bit 11 of the flags is set, code page
/// 437 otherwise.
fn decode_string(flags: u16, bs: &[u8]) -> (r: String)
    ensures
        r@ == decode_name(flags as int, bs@),
{
    let is_utf8 = (flags & 2048) != 0;
    assert(((flags & 2048) != 0) == ((flags / 2048) % 2 == 1)) by (bit_vector);
    if is_utf8 {
        decode_utf8(bs)
    } else {
        decode_cp437(bs)
    }
}

/// The primary structure located for an archive. APPNOTE 4.3.16.
#[derive(Debug)]
struct EndOfCentralDirectoryRecord {
    disk_number: u16,
    central_dir_start_disk: u16,
    entries_on_this_disk: u16,
    entries_in_central_dir: u16,
    central_dir_size: u32,
    central_dir_offset: u32,
    comment: Vec<u8>,
}

/// The record holds the fields of the end of central directory record at
/// `o`.
spec fn eocd_matches(rec: EndOfCentralDirectoryRecord, data: Seq<u8>, o: int) -> bool {
    &&& rec.disk_number == le16(data, o + 4)
    &&& rec.central_dir_start_disk == le16(data, o + 6)
    &&& rec.entries_on_this_disk == le16(data, o + 8)
    &&& rec.entries_in_central_dir == le16(data, o + 10)
    &&& rec.central_dir_size == le32(data, o + 12)
    &&& rec.central_dir_offset == le32(data, o + 16)
    &&& rec.comment@ == data.subrange(o + 22, o + 22 + le16(data, o + 20))
}

impl EndOfCentralDirectoryRecord {
    /// The number of fixed bytes after the signature.
    const FIX_LEN: usize = 18;

    /// Parses the fields after the signature, whose fixed bytes are known to
    /// fit. On success returns the record with the length of its comment.
    fn parse_data(r: &mut ByteReader) -> (res: Result<(Self, usize), ArchiveError>)
        requires
            4 <= old(r).pos(),
            old(r).pos() + 18 <= old(r).bytes().len(),
        ensures
            final(r).bytes() == old(r).bytes(),
            ({
                let data = old(r).bytes();
                let o = old(r).pos() - 4;
                let cl = le16(data, o + 20);
                &&& o + 22 + cl <= data.len() ==> (res matches Ok((rec, n)) && eocd_matches(
                    rec,
                    data,
                    o,
                ) && n == cl && final(r).pos() == o + 22 + cl)
                &&& o + 22 + cl > data.len() ==> res is Err
            }),
    {
        let disk_number = r.read_le_u16()?;
        let central_dir_start_disk = r.read_le_u16()?;
        let entries_on_this_disk = r.read_le_u16()?;
        let entries_in_central_dir = r.read_le_u16()?;
        let central_dir_size = r.read_le_u32()?;
        let central_dir_offset = r.read_le_u32()?;
        let comment_len = r.read_le_u16()? as usize;
        // Now the variable-sized comment
        if r.rem_len() < comment_len {
            return Err(ArchiveError::UnexpectedEof);
        }
        let comment = r.read_to_vec(comment_len)?;
        let result = EndOfCentralDirectoryRecord {
            disk_number,
            central_dir_start_disk,
            entries_on_this_disk,
            entries_in_central_dir,
            central_dir_size,
            central_dir_offset,
            comment,
        };
        Ok((result, comment_len))
    }

    /// Parses the record at the reader's offset. On success returns it with
    /// the number of bytes it takes.
    fn parse_noreset(r: &mut ByteReader) -> (res: Result<(Self, usize), ArchiveError>)
        ensures
            final(r).bytes() == old(r).bytes(),
            eocd_ok(old(r).bytes(), old(r).pos()) ==> (res matches Ok((rec, n)) && eocd_matches(
                rec,
                old(r).bytes(),
                old(r).pos(),
            )),
            eocd_ok(old(r).bytes(), old(r).pos()) ==> final(r).pos() == old(r).pos() + 22 + le16(
                old(r).bytes(),
                old(r).pos() + 20,
            ),
            !eocd_ok(old(r).bytes(), old(r).pos()) ==> res is Err,
    {
        let sig_len = parse_signature(r, Signature::Required(EOCD_SIGNATURE), Self::FIX_LEN)?;
        let (result, consumed) = Self::parse_data(r)?;
        Ok((result, Self::FIX_LEN + consumed + sig_len))
    }

    /// Finds the end of central directory record, searching backwards from
    /// the end. On success returns it with its starting offset.
    ///
    /// # Errors
    ///
    /// `ArchiveError::EndOfCentralDirectoryNotFound` if no offset holds one.
    fn find(r: &mut ByteReader) -> (res: Result<(Self, usize), ArchiveError>)
        ensures
            final(r).bytes() == old(r).bytes(),
            match eocd_offset(old(r).bytes()) {
                Some(o) => res matches Ok((rec, off)) && off == o && eocd_matches(rec, old(r).bytes(), o)
                    && final(r).pos() == o + 22 + le16(old(r).bytes(), o + 20),
                None => res == Err::<(Self, usize), ArchiveError>(ArchiveError::EndOfCentralDirectoryNotFound),
            },
    {
        let ghost data = r.bytes();
        let total = r.total_len();
        if total < Self::FIX_LEN {
            return Err(ArchiveError::EndOfCentralDirectoryNotFound);
        }
        // Go backwards
        let mut offset = total - Self::FIX_LEN;
        loop
            invariant
                r.bytes() == data,
                data == old(r).bytes(),
                total == data.len(),
                offset <= total,
                eocd_search(data, offset as int) == eocd_offset(data),
            decreases offset,
        {
            r.set_offset(offset)?;
            if let Ok((rec, _)) = Self::parse_noreset(r) {
                return Ok((rec, offset));
            }
            if offset == 0 {
                assert(eocd_search(data, -1) is None);
                return Err(ArchiveError::EndOfCentralDirectoryNotFound);
            }
            offset = offset - 1;
        }
    }
}

/// The entry in the central directory that describes a file of the archive.
/// APPNOTE 4.3.12.
#[derive(Debug)]
struct FileHeader {
    version_made: u16,
    version_needed: u16,
    flags: u16,
    compression: u16,
    mod_time: u16,
    mod_date: u16,
    crc32: u32,
    compressed_size: usize,
    uncompressed_size: usize,
    disk_number: u16,
    internal_file_attribs: u16,
    external_file_attribs: u32,
    local_header_offset: u32,
    file_name: String,
    extra: Vec<ExtensibleDataField>,
    file_comment: String,
}

/// The header holds the fields of the central directory file header at `c`.
#[verifier::opaque]
spec fn header_matches(h: FileHeader, data: Seq<u8>, c: int) -> bool {
    let n = cd_name_len(data, c);
    let e = cd_extra_len(data, c);
    let k = cd_comment_len(data, c);
    &&& h.version_made == le16(data, c + 4)
    &&& h.version_needed == le16(data, c + 6)
    &&& h.flags == cd_flags(data, c)
    &&& h.compression == cd_compression(data, c)
    &&& h.mod_time == le16(data, c + 12)
    &&& h.mod_date == le16(data, c + 14)
    &&& h.crc32 == le32(data, c + 16)
    &&& h.compressed_size == le32(data, c + 20)
    &&& h.uncompressed_size == le32(data, c + 24)
    &&& h.disk_number == le16(data, c + 34)
    &&& h.internal_file_attribs == le16(data, c + 36)
    &&& h.external_file_attribs == le32(data, c + 38)
    &&& h.local_header_offset == cd_local_offset(data, c)
    &&& h.file_name@ == cd_name(data, c)
    &&& h.extra@.map_values(|f: ExtensibleDataField| f@) == extra_fields(
        data,
        c + 46 + n,
        c + 46 + n + e,
    )
    &&& h.file_comment@ == decode_name(
        cd_flags(data, c),
        data.subrange(c + 46 + n + e, c + 46 + n + e + k),
    )
}

impl FileHeader {
    /// The number of fixed bytes after the signature.
    const FIX_LEN: usize = 42;

    /// Parses the fields after the signature, whose fixed bytes are known to
    /// fit. On success returns the header with the number of its variable
    /// bytes.
    fn parse_data(r: &mut ByteReader) -> (res: Result<(Self, usize), ArchiveError>)
        requires
            4 <= old(r).pos(),
            old(r).pos() + 42 <= old(r).bytes().len(),
        ensures
            final(r).bytes() == old(r).bytes(),
            ({
                let data = old(r).bytes();
                let c = old(r).pos() - 4;
                let var = cd_name_len(data, c) + cd_extra_len(data, c) + cd_comment_len(data, c);
                &&& c + 46 + var <= data.len() ==> (res matches Ok((h, n)) && header_matches(h, data, c)
                    && n == var && final(r).pos() == c + 46 + var)
                &&& c + 46 + var > data.len() ==> res == Err::<(Self, usize), ArchiveError>(
                    ArchiveError::UnexpectedEof,
                )
            }),
    {
        reveal(header_matches);
        let ghost data = r.bytes();
        let version_made = r.read_le_u16()?;
        let version_needed = r.read_le_u16()?;
        let flags = r.read_le_u16()?;
        let compression = r.read_le_u16()?;
        let mod_time = r.read_le_u16()?;
        let mod_date = r.read_le_u16()?;
        let crc32 = r.read_le_u32()?;
        let compressed_size = r.read_le_u32()? as usize;
        let uncompressed_size = r.read_le_u32()? as usize;
        let file_name_len = r.read_le_u16()? as usize;
        let extra_len = r.read_le_u16()? as usize;
        let file_comment_len = r.read_le_u16()? as usize;
        let disk_number = r.read_le_u16()?;
        let internal_file_attribs = r.read_le_u16()?;
        let external_file_attribs = r.read_le_u32()?;
        let local_header_offset = r.read_le_u32()?;
        // Check for space for the variable-length fields
        if r.rem_len() < file_name_len + extra_len + file_comment_len {
            return Err(ArchiveError::UnexpectedEof);
        }
        // Extract
        let name_bytes = r.read_to_vec(file_name_len)?;
        let file_name = decode_string(flags, name_bytes.as_slice());
        let (extra, _ec) = ExtensibleDataField::parse_vec(r, extra_len)?;
        let comment_bytes = r.read_to_vec(file_comment_len)?;
        let file_comment = decode_string(flags, comment_bytes.as_slice());
        let result = FileHeader {
            version_made,
            version_needed,
            flags,
            compression,
            mod_time,
            mod_date,
            crc32,
            compressed_size,
            uncompressed_size,
            disk_number,
            internal_file_attribs,
            external_file_attribs,
            local_header_offset,
            file_name,
            extra,
            file_comment,
        };
        Ok((result, file_name_len + extra_len + file_comment_len))
    }

    /// Parses the file header at the reader's offset. On success returns it
    /// with the number of bytes it takes.
    fn parse_noreset(r: &mut ByteReader) -> (res: Result<(Self, usize), ArchiveError>)
        ensures
            final(r).bytes() == old(r).bytes(),
            match cd_header(old(r).bytes(), old(r).pos()) {
                Ok(len) => res matches Ok((h, n)) && header_matches(h, old(r).bytes(), old(r).pos())
                    && n == len && final(r).pos() == old(r).pos() + len,
                Err(e) => res == Err::<(Self, usize), ArchiveError>(e),
            },
    {
        let sig_len = parse_signature(r, Signature::Required(FILE_HEADER_SIGNATURE), Self::FIX_LEN)?;
        let (result, consumed) = Self::parse_data(r)?;
        Ok((result, Self::FIX_LEN + consumed + sig_len))
    }

    /// Returns `true` if the given general purpose flag is set.
    fn is_flag(&self, index: u16) -> (r: bool)
        requires
            index < 16,
        ensures
            r == ((self.flags as int / vstd::arithmetic::power2::pow2(index as nat) as int) % 2 == 1),
    {
        let flags = self.flags;
        proof {
            vstd::bits::lemma_u16_shr_is_div(flags, index);
        }
        assert(((flags >> index) & 1u16) == ((flags >> index) % 2)) by (bit_vector);
        ((flags >> index) & 1) == 1
    }

    /// Returns `true` if this header represents a directory: its name ends
    /// with a slash or a backslash.
    fn is_dir(&self) -> (r: bool)
        ensures
            r == is_dir_name(self.file_name@),
    {
        let name = self.file_name.as_str();
        let n = name.unicode_len();
        if n == 0 {
            return false;
        }
        let lastc = name.get_char(n - 1);
        lastc == '/' || lastc == '\\'
    }

    /// Returns `true` if this header represents a file.
    fn is_file(&self) -> (r: bool)
        ensures
            r == !is_dir_name(self.file_name@),
    {
        !self.is_dir()
    }
}

/// The local copy of a directory entry above the entry's data. APPNOTE
/// 4.3.7.
#[derive(Debug)]
struct LocalFileHeader {
    version_needed: u16,
    flags: u16,
    compression: u16,
    mod_time: u16,
    mod_date: u16,
    crc32: u32,
    compressed_size: usize,
    uncompressed_size: usize,
    file_name: String,
    extra: Vec<ExtensibleDataField>,
}

impl LocalFileHeader {
    /// The number of fixed bytes after the signature.
    const FIX_LEN: usize = 26;

    /// Parses the fields after the signature, whose fixed bytes are known to
    /// fit. On success returns the header with the number of its variable
    /// bytes.
    fn parse_data(r: &mut ByteReader) -> (res: Result<(Self, usize), ArchiveError>)
        requires
            4 <= old(r).pos(),
            old(r).pos() + 26 <= old(r).bytes().len(),
        ensures
            final(r).bytes() == old(r).bytes(),
            ({
                let data = old(r).bytes();
                let l = old(r).pos() - 4;
                let var = le16(data, l + 26) + le16(data, l + 28);
                &&& l + 30 + var <= data.len() ==> (res matches Ok((h, n)) && n == var
                    && final(r).pos() == l + 30 + var)
                &&& l + 30 + var > data.len() ==> res == Err::<(Self, usize), ArchiveError>(
                    ArchiveError::UnexpectedEof,
                )
            }),
    {
        let version_needed = r.read_le_u16()?;
        let flags = r.read_le_u16()?;
        let compression = r.read_le_u16()?;
        let mod_time = r.read_le_u16()?;
        let mod_date = r.read_le_u16()?;
        let crc32 = r.read_le_u32()?;
        let compressed_size = r.read_le_u32()? as usize;
        let uncompressed_size = r.read_le_u32()? as usize;
        let file_name_len = r.read_le_u16()? as usize;
        let extra_len = r.read_le_u16()? as usize;
        // Check if enough for the variable-length fields
        if r.rem_len() < file_name_len + extra_len {
            return Err(ArchiveError::UnexpectedEof);
        }
        // Enough, read
        let name_bytes = r.read_to_vec(file_name_len)?;
        let file_name = decode_string(flags, name_bytes.as_slice());
        let (extra, _ec) = ExtensibleDataField::parse_vec(r, extra_len)?;
        let result = LocalFileHeader {
            version_needed,
            flags,
            compression,
            mod_time,
            mod_date,
            crc32,
            compressed_size,
            uncompressed_size,
            file_name,
            extra,
        };
        Ok((result, file_name_len + extra_len))
    }

    /// Parses the local file header at the reader's offset. On success returns
    /// it with the number of bytes it takes.
    fn parse_noreset(r: &mut ByteReader) -> (res: Result<(Self, usize), ArchiveError>)
        ensures
            final(r).bytes() == old(r).bytes(),
            match local_header(old(r).bytes(), old(r).pos()) {
                Ok(len) => res matches Ok((h, n)) && n == len && final(r).pos() == old(r).pos() + len,
                Err(e) => res == Err::<(Self, usize), ArchiveError>(e),
            },
    {
        let sig_len = parse_signature(r, Signature::Required(LOCAL_FILE_HEADER_SIGNATURE), Self::FIX_LEN)?;
        let (result, consumed) = Self::parse_data(r)?;
        Ok((result, Self::FIX_LEN + consumed + sig_len))
    }
}

/// The supported compression methods.
#[derive(Debug, Clone, Copy, PartialEq, Eq, Structural)]
pub enum Compression {
    /// The data is stored as it is (method 0).
    NoCompression,
    /// The data is DEFLATE-compressed (method 8).
    Deflate,
}

impl Compression {
    /// The compression method of the given method number.
    ///
    /// # Errors
    ///
    /// `ArchiveError::UnsupportedCompression` for numbers other than 0 and 8.
    pub fn try_from(n: u16) -> (r: Result<Self, ArchiveError>)
        ensures
            n == 0 ==> r == Ok::<Self, ArchiveError>(Compression::NoCompression),
            n == 8 ==> r == Ok::<Self, ArchiveError>(Compression::Deflate),
            n != 0 && n != 8 ==> r == Err::<Self, ArchiveError>(ArchiveError::UnsupportedCompression),
    {
        match n {
            0 => Ok(Compression::NoCompression),
            8 => Ok(Compression::Deflate),
            _ => Err(ArchiveError::UnsupportedCompression),
        }
    }
}

/// Parses a zip archive's central directory into `FileHeader` records.
fn parse_central_directory(r: &mut ByteReader) -> (res: Result<Vec<FileHeader>, ArchiveError>)
    ensures
        final(r).bytes() == old(r).bytes(),
        match archive_entries(old(r).bytes()) {
            Ok(offs) => res matches Ok(v) && v@.len() == offs.len() && forall|i: int|
                0 <= i < offs.len() ==> header_matches(#[trigger] v@[i], old(r).bytes(), offs[i]),
            Err(e) => res == Err::<Vec<FileHeader>, ArchiveError>(e),
        },
{
    reveal(archive_entries);
    let ghost data = r.bytes();
    // First find the end of the central directory
    let (end_of_directory, _eod_start) = EndOfCentralDirectoryRecord::find(r)?;
    // Parse the central directory entries
    r.set_offset(end_of_directory.central_dir_offset as usize)?;
    let count = end_of_directory.entries_in_central_dir;
    let ghost total = archive_entries(data);
    let mut entries: Vec<FileHeader> = Vec::new();
    let ghost mut offs: Seq<int> = Seq::empty();
    let mut i: u16 = 0;
    proof {
        if let Ok(rest) = cd_entries(data, r.pos(), count as nat) {
            assert(offs + rest =~= rest);
        }
    }
    while i < count
        invariant
            r.bytes() == data,
            data == old(r).bytes(),
            total == archive_entries(data),
            i <= count,
            entries@.len() == i,
            offs.len() == i,
            forall|k: int| 0 <= k < i ==> header_matches(#[trigger] entries@[k], data, offs[k]),
            total == match cd_entries(data, r.pos(), (count - i) as nat) {
                Ok(rest) => Ok(offs + rest),
                Err(e) => Err::<Seq<int>, ArchiveError>(e),
            },
        decreases count - i,
    {
        let ghost c = r.pos();
        let (header, _) = match FileHeader::parse_noreset(r) {
            Ok(v) => v,
            Err(e) => {
                assert(cd_header(data, c) is Err);
                assert(cd_entries(data, c, (count - i) as nat) == Err::<Seq<int>, ArchiveError>(e));
                return Err(e);
            },
        };
        entries.push(header);
        proof {
            let rest_count = (count - i - 1) as nat;
            assert((count - i) as nat == rest_count + 1);
            if let Ok(rest) = cd_entries(data, r.pos(), rest_count) {
                assert(offs + (seq![c] + rest) =~= offs.push(c) + rest);
            }
            offs = offs.push(c);
        }
        i = i + 1;
    }
    proof {
        assert(offs + Seq::<int>::empty() =~= offs);
    }
    Ok(entries)
}

/// Translates an MS-DOS date and time into seconds since the UNIX epoch.
pub fn decode_ms_dos_datetime(date: u16, time: u16) -> (r: u64)
    ensures
        r == dos_datetime_secs(date, time),
{
    let cumulative: [u64; 12] = [0, 31, 59, 90, 120, 151, 181, 212, 243, 273, 304, 334];
    assert(cumulative@ == seq![0int, 31, 59, 90, 120, 151, 181, 212, 243, 273, 304, 334].map_values(|v: int| v as u64));
    let year = 1980 + (date / 512) as u64;
    let month = ((date / 32) % 16) as u64;
    let day = (date % 32) as u64;
    let m = if month < 1 {
        1
    } else if month > 12 {
        12
    } else {
        month
    };
    let d = if day == 0 {
        0
    } else {
        day - 1
    };
    let is_leap = (year % 4 == 0 && year % 100 != 0) || year % 400 == 0;
    let leap_day: u64 = if m > 2 && is_leap {
        1
    } else {
        0
    };
    let days_before_year = 365 * (year - 1970) + ((year - 1) / 4 - (year - 1) / 100 + (year - 1) / 400) - 477;
    let days = days_before_year + cumulative[(m - 1) as usize] + leap_day + d;
    let hours = (time / 2048) as u64;
    let minutes = ((time / 32) % 64) as u64;
    let seconds = (time % 32) as u64 * 2;
    days * 86400 + hours * 3600 + minutes * 60 + seconds
}

/// A zipped archive held in memory, with its central directory parsed.
pub struct ZipArchive {
    reader: ByteReader,
    entries: Vec<FileHeader>,
    offsets: Ghost<Seq<int>>,
}

impl ZipArchive {
    /// The bytes of the archive.
    pub closed spec fn bytes(&self) -> Seq<u8> {
        self.reader.bytes()
    }

    /// The offsets of the central directory file headers of the entries.
    pub closed spec fn entry_offsets(&self) -> Seq<int> {
        self.offsets@
    }

    /// Well-formedness: the entries are the parsed central directory.
    pub closed spec fn wf(&self) -> bool {
        &&& 8 * self.reader.bytes().len() + 64 <= usize::MAX
        &&& archive_entries(self.reader.bytes()) == Ok::<Seq<int>, ArchiveError>(self.offsets@)
        &&& self.entries@.len() == self.offsets@.len()
        &&& forall|i: int|
            0 <= i < self.offsets@.len() ==> header_matches(
                #[trigger] self.entries@[i],
                self.reader.bytes(),
                self.offsets@[i],
            )
    }

    /// Parses a `ZipArchive`'s central directory from the given bytes.
    ///
    /// # Errors
    ///
    /// Why the end of central directory record or one of the central
    /// directory's file headers cannot be read.
    pub fn parse(data: Vec<u8>) -> (r: Result<Self, ArchiveError>)
        requires
            8 * data@.len() + 64 <= usize::MAX,
        ensures
            match archive_entries(data@) {
                Ok(offs) => r matches Ok(a) && a.wf() && a.bytes() == data@ && a.entry_offsets()
                    == offs,
                Err(e) => r == Err::<Self, ArchiveError>(e),
            },
    {
        let ghost bytes = data@;
        let mut reader = ByteReader::new(data);
        let entries = parse_central_directory(&mut reader)?;
        let ghost offs = archive_entries(bytes)->Ok_0;
        Ok(ZipArchive { reader, entries, offsets: Ghost(offs) })
    }

    /// Returns the number of `ZipFile` entries this archive holds.
    pub fn entry_count(&self) -> (n: usize)
        requires
            self.wf(),
        ensures
            n == self.entry_offsets().len(),
    {
        self.entries.len()
    }

    /// Returns the `ZipFile` descriptor for the given entry index.
    ///
    /// # Errors
    ///
    /// Why the entry's local file header cannot be read, or
    /// `ArchiveError::UnsupportedCompression` if its compression method is
    /// neither storing nor DEFLATE.
    pub fn entry_at_index(&mut self, index: usize) -> (r: Result<ZipFile, ArchiveError>)
        requires
            old(self).wf(),
            index < old(self).entry_offsets().len(),
        ensures
            final(self).wf(),
            final(self).bytes() == old(self).bytes(),
            final(self).entry_offsets() == old(self).entry_offsets(),
            ({
                let data = old(self).bytes();
                let c = old(self).entry_offsets()[index as int];
                match entry_data_offset(data, c) {
                    Err(e) => r == Err::<ZipFile, ArchiveError>(e),
                    Ok(d) => r matches Ok(f) && f.describes(data, c, d),
                }
            }),
    {
        let ghost offs = self.offsets@;
        let ghost data = self.reader.bytes();
        let r = ZipFile::new(&mut self.reader, &self.entries[index], Ghost(self.offsets@[index as int]));
        assert(forall|i: int| 0 <= i < offs.len() ==> header_matches(#[trigger] self.entries@[i], data, offs[i]));
        r
    }
}

/// A single file or directory inside a `ZipArchive`.
#[derive(Debug)]
pub struct ZipFile {
    name: String,
    is_encrypted: bool,
    is_file: bool,
    last_modified: u64,
    compression: Compression,
    data_offset: usize,
    compressed_size: usize,
    uncompressed_size: usize,
    crc32: u32,
    data: Vec<u8>,
}

impl ZipFile {
    #[verifier::type_invariant]
    spec fn inv(self) -> bool {
        8 * self.data@.len() + 64 <= usize::MAX
    }

    /// The name, without the trailing slash or backslash of a directory.
    pub closed spec fn name_chars(&self) -> Seq<char> {
        self.name@
    }

    /// Whether the entry is encrypted.
    pub closed spec fn encrypted(&self) -> bool {
        self.is_encrypted
    }

    /// Whether the entry is a file rather than a directory.
    pub closed spec fn file_entry(&self) -> bool {
        self.is_file
    }

    /// The modification time in seconds since the UNIX epoch.
    pub closed spec fn modified(&self) -> u64 {
        self.last_modified
    }

    /// The compression method.
    pub closed spec fn method(&self) -> Compression {
        self.compression
    }

    /// The compressed size that the central directory states.
    pub closed spec fn compressed_len(&self) -> usize {
        self.compressed_size
    }

    /// The uncompressed size that the central directory states.
    pub closed spec fn uncompressed_len(&self) -> usize {
        self.uncompressed_size
    }

    /// The CRC-32 that the central directory states.
    pub closed spec fn stored_crc(&self) -> u32 {
        self.crc32
    }

    /// The entry's compressed data: its stated size from the data offset on,
    /// or as much of it as the archive holds.
    pub closed spec fn compressed(&self) -> Seq<u8> {
        self.data@
    }

    /// The bytes that the entry decompresses to, and whether its data is
    /// complete and well-formed or why not.
    pub open spec fn content(&self) -> (Seq<u8>, Result<(), ArchiveError>) {
        match self.method() {
            Compression::NoCompression => (self.compressed(), Ok(())),
            Compression::Deflate => inflate_spec(self.compressed()),
        }
    }

    /// The entry is the one whose file header lies at `c` in the archive
    /// `data`, with its data starting at `d`.
    pub open spec fn describes(&self, data: Seq<u8>, c: int, d: int) -> bool {
        let full_name = cd_name(data, c);
        let size = le32(data, c + 20);
        &&& self.name_chars() == if is_dir_name(full_name) {
            full_name.drop_last()
        } else {
            full_name
        }
        &&& self.encrypted() == (cd_flags(data, c) % 2 == 1)
        &&& self.file_entry() == !is_dir_name(full_name)
        &&& self.modified() == dos_datetime_secs(le16(data, c + 14) as u16, le16(data, c + 12) as u16)
        &&& self.method() == if cd_compression(data, c) == 8 {
            Compression::Deflate
        } else {
            Compression::NoCompression
        }
        &&& self.compressed_len() == size
        &&& self.uncompressed_len() == le32(data, c + 24)
        &&& self.stored_crc() == le32(data, c + 16)
        &&& self.compressed() == data.subrange(
            d,
            if d + size <= data.len() {
                d + size
            } else {
                data.len() as int
            },
        )
        &&& 8 * self.compressed().len() + 64 <= usize::MAX
    }

    /// Creates the `ZipFile` from the archive's reader and the entry's
    /// `FileHeader`, which lies at `c`.
    fn new(reader: &mut ByteReader, header: &FileHeader, c: Ghost<int>) -> (r: Result<Self, ArchiveError>)
        requires
            header_matches(*header, old(reader).bytes(), c@),
            8 * old(reader).bytes().len() + 64 <= usize::MAX,
        ensures
            final(reader).bytes() == old(reader).bytes(),
            match entry_data_offset(old(reader).bytes(), c@) {
                Err(e) => r == Err::<ZipFile, ArchiveError>(e),
                Ok(d) => r matches Ok(f) && f.describes(old(reader).bytes(), c@, d),
            },
    {
        reveal(header_matches);
        let ghost data = reader.bytes();
        // File name
        let name = if header.is_dir() {
            // Remove the trailing slash
            let full = header.file_name.as_str();
            let n = full.unicode_len();
            full.substring_char(0, n - 1).to_owned()
        } else {
            header.file_name.clone()
        };
        // Data offset
        reader.set_offset(header.local_header_offset as usize)?;
        let _local_header = LocalFileHeader::parse_noreset(reader)?;
        let data_offset = reader.offset();
        let compression = Compression::try_from(header.compression)?;
        // The compressed data, as far as the archive holds it
        let end = if header.compressed_size <= reader.rem_len() {
            data_offset + header.compressed_size
        } else {
            reader.total_len()
        };
        let bytes = vstd::slice::slice_subrange(reader.data.as_slice(), data_offset, end);
        let file_data = vstd::slice::slice_to_vec(bytes);
        let is_encrypted = header.is_flag(0);
        proof {
            vstd::arithmetic::power2::lemma2_to64();
        }
        // Done
        Ok(ZipFile {
            name,
            is_encrypted,
            is_file: header.is_file(),
            last_modified: decode_ms_dos_datetime(header.mod_date, header.mod_time),
            compression,
            data_offset,
            compressed_size: header.compressed_size,
            uncompressed_size: header.uncompressed_size,
            crc32: header.crc32,
            data: file_data,
        })
    }

    /// Returns the full path and name of this file or directory.
    pub fn name(&self) -> (r: &str)
        ensures
            r@ == self.name_chars(),
    {
        self.name.as_str()
    }

    /// Returns `true` if this entry is a file.
    pub fn is_file(&self) -> (r: bool)
        ensures
            r == self.file_entry(),
    {
        self.is_file
    }

    /// Returns `true` if this entry is a directory.
    pub fn is_dir(&self) -> (r: bool)
        ensures
            r == !self.file_entry(),
    {
        !self.is_file
    }

    /// Returns the stored modification time, in seconds since the UNIX epoch.
    pub fn modification_time(&self) -> (r: u64)
        ensures
            r == self.modified(),
    {
        self.last_modified
    }

    /// Returns the byte-size of the file this represents, when compressed.
    pub fn compressed_size(&self) -> (r: usize)
        ensures
            r == self.compressed_len(),
    {
        self.compressed_size
    }

    /// Returns the decompressor for this entry's data.
    ///
    /// # Errors
    ///
    /// `ArchiveError::EncryptionNotSupported` if the entry is encrypted.
    pub fn decompressor(&self) -> (r: Result<ZipFileDecompressor, ArchiveError>)
        ensures
            self.encrypted() ==> r == Err::<ZipFileDecompressor, ArchiveError>(
                ArchiveError::EncryptionNotSupported,
            ),
            !self.encrypted() ==> (r matches Ok(d) && d.wf() && d.content() == self.content()
                && d.produced() == Seq::<u8>::empty()),
    {
        proof {
            use_type_invariant(self);
        }
        if self.is_encrypted {
            return Err(ArchiveError::EncryptionNotSupported);
        }
        match self.compression {
            Compression::NoCompression => Ok(
                ZipFileDecompressor::NoCompression(StoredReader::new(self.data.clone())),
            ),
            Compression::Deflate => Ok(
                ZipFileDecompressor::Deflate(Inflate::new(self.data.as_slice())),
            ),
        }
    }

    /// Checks integrity with the stored CRC-32: decompresses the entry and
    /// returns `true` if the CRC-32 of its content is the stored one.
    ///
    /// # Errors
    ///
    /// `ArchiveError::EncryptionNotSupported` if the entry is encrypted, or
    /// why its data cannot be decompressed.
    pub fn check_crc32(&self) -> (r: Result<bool, ArchiveError>)
        ensures
            self.encrypted() ==> r == Err::<bool, ArchiveError>(ArchiveError::EncryptionNotSupported),
            !self.encrypted() ==> match self.content() {
                (bytes, Ok(())) => r == Ok::<bool, ArchiveError>(crc32(bytes) == self.stored_crc()),
                (_, Err(e)) => r == Err::<bool, ArchiveError>(e),
            },
    {
        let mut dec = self.decompressor()?;
        let ghost full = self.content().0;
        let mut buffer: Vec<u8> = vec![0u8; 32];
        let mut crc = Crc32::new();
        loop
            invariant
                !self.encrypted(),
                dec.wf(),
                dec.content() == self.content(),
                full == self.content().0,
                buffer@.len() == 32,
                crc.register() == crc_update(0xffffffff, dec.produced()),
                dec.produced().len() <= full.len(),
            ensures
                crc.register() == crc_update(0xffffffff, full),
                self.content().1 is Ok,
            decreases full.len() - dec.produced().len(),
        {
            let ghost before = dec.produced();
            let n = dec.read(buffer.as_mut_slice())?;
            if n == 0 {
                assert(dec.produced() =~= full);
                break;
            }
            let piece = vstd::slice::slice_subrange(buffer.as_slice(), 0, n);
            crc.push_slice(piece);
            proof {
                lemma_crc_update_append(0xffffffff, before, piece@);
                assert(dec.produced() =~= before + piece@);
            }
        }
        Ok(crc.finalize() == self.crc32)
    }

    /// Returns the byte-size of the file this represents, when uncompressed.
    /// This can be used to pre-allocate a buffer for decompression.
    pub fn uncompressed_size(&self) -> (r: usize)
        ensures
            r == self.uncompressed_len(),
    {
        self.uncompressed_size
    }
}

/// A reader over the data of a stored entry.
pub struct StoredReader {
    data: Vec<u8>,
    pos: usize,
}

impl StoredReader {
    /// The stored bytes.
    pub closed spec fn data(&self) -> Seq<u8> {
        self.data@
    }

    /// The bytes read so far.
    pub closed spec fn produced(&self) -> Seq<u8> {
        self.data@.subrange(0, self.pos as int)
    }

    /// Well-formedness: the position lies within the data.
    pub closed spec fn wf(&self) -> bool {
        self.pos <= self.data@.len()
    }

    /// Creates a reader at the start of the given bytes.
    pub fn new(data: Vec<u8>) -> (r: Self)
        ensures
            r.wf(),
            r.data() == data@,
            r.produced() == Seq::<u8>::empty(),
    {
        let r = StoredReader { data, pos: 0 };
        assert(r.produced() =~= Seq::<u8>::empty());
        r
    }

    /// Copies the next bytes into the buffer, as many as fit or are left, and
    /// returns their number.
    pub fn read(&mut self, buf: &mut [u8]) -> (n: usize)
        requires
            old(self).wf(),
        ensures
            final(self).wf(),
            final(self).data() == old(self).data(),
            final(buf)@.len() == old(buf)@.len(),
            ({
                let full = old(self).data();
                let p = old(self).produced().len();
                let len = old(buf)@.len();
                &&& old(self).produced() == full.subrange(0, p as int)
                &&& n == if p + len <= full.len() {
                    len as int
                } else {
                    full.len() - p
                }
                &&& final(buf)@.subrange(0, n as int) == full.subrange(p as int, p + n)
                &&& final(buf)@.subrange(n as int, len as int) == old(buf)@.subrange(n as int, len as int)
                &&& final(self).produced() == full.subrange(0, p + n)
            }),
    {
        let rem = self.data.len() - self.pos;
        let n = if buf.len() <= rem {
            buf.len()
        } else {
            rem
        };
        let start = self.pos;
        let ghost buf0 = buf@;
        for i in 0..n
            invariant
                start + n <= self.data@.len(),
                start + n <= self.data.len(),
                n <= buf@.len(),
                buf@.len() == buf0.len(),
                forall|k: int| 0 <= k < i ==> buf@[k] == self.data@[start + k],
                forall|k: int| i <= k < buf0.len() ==> buf@[k] == buf0[k],
        {
            buf[i] = self.data[start + i];
        }
        self.pos = start + n;
        assert(buf@.subrange(0, n as int) =~= self.data@.subrange(start as int, start + n));
        assert(buf@.subrange(n as int, buf0.len() as int) =~= buf0.subrange(n as int, buf0.len() as int));
        n
    }
}

/// The decompressor of a zip entry's data.
pub enum ZipFileDecompressor {
    NoCompression(StoredReader),
    Deflate(Inflate),
}

impl ZipFileDecompressor {
    /// What the data decompresses to, and whether it is complete and
    /// well-formed or why not.
    pub open spec fn content(&self) -> (Seq<u8>, Result<(), ArchiveError>) {
        match self {
            ZipFileDecompressor::NoCompression(r) => (r.data(), Ok(())),
            ZipFileDecompressor::Deflate(r) => inflate_spec(r.data()),
        }
    }

    /// The bytes decompressed so far.
    pub open spec fn produced(&self) -> Seq<u8> {
        match self {
            ZipFileDecompressor::NoCompression(r) => r.produced(),
            ZipFileDecompressor::Deflate(r) => r.produced(),
        }
    }

    /// Well-formedness of the underlying reader.
    pub open spec fn wf(&self) -> bool {
        match self {
            ZipFileDecompressor::NoCompression(r) => r.wf(),
            ZipFileDecompressor::Deflate(r) => r.wf(),
        }
    }

    /// Decompresses into the given buffer: fills it, or as much of it as the
    /// data has left, and returns the number of bytes written.
    ///
    /// # Errors
    ///
    /// If the data is malformed or truncated before the buffer is full, the
    /// error that the decompression ran into.
    pub fn read(&mut self, buf: &mut [u8]) -> (r: Result<usize, ArchiveError>)
        requires
            old(self).wf(),
        ensures
            final(self).wf(),
            final(self).content() == old(self).content(),
            final(buf)@.len() == old(buf)@.len(),
            ({
                let full = old(self).content().0;
                let res = old(self).content().1;
                let p = old(self).produced().len();
                let len = old(buf)@.len();
                &&& old(self).produced() == full.subrange(0, p as int)
                &&& (r is Err <==> (res is Err && p + len > full.len()))
                &&& r matches Ok(n) ==> {
                    &&& n == if p + len <= full.len() {
                        len as int
                    } else {
                        full.len() - p
                    }
                    &&& final(buf)@.subrange(0, n as int) == full.subrange(p as int, p + n)
                    &&& final(buf)@.subrange(n as int, len as int) == old(buf)@.subrange(
                        n as int,
                        len as int,
                    )
                    &&& final(self).produced() == full.subrange(0, p + n)
                }
                &&& r matches Err(e) ==> res == Err::<(), ArchiveError>(e) && final(self).produced()
                    == full
            }),
    {
        match self {
            ZipFileDecompressor::NoCompression(r) => Ok(r.read(buf)),
            ZipFileDecompressor::Deflate(r) => r.read(buf),
        }
    }
}

} // verus!
