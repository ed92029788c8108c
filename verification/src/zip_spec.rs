//! The layout of a zip archive (APPNOTE 4.3): where its records lie and what
//! their fields hold, stated over the archive's bytes.

use vstd::prelude::*;
use crate::error::ArchiveError;
use crate::text::{cp437_decode, cp437_upper, utf8_lossy};

verus! {

/// The signature of the end of central directory record.
pub const EOCD_SIGNATURE: u32 = 0x06054b50;

/// The signature of a central directory file header.
pub const FILE_HEADER_SIGNATURE: u32 = 0x02014b50;

/// The signature of a local file header.
pub const LOCAL_FILE_HEADER_SIGNATURE: u32 = 0x04034b50;

/// The little-endian 16-bit number at byte `i`.
pub open spec fn le16(data: Seq<u8>, i: int) -> int {
    data[i] as int + 256 * data[i + 1] as int
}

/// The little-endian 32-bit number at byte `i`.
pub open spec fn le32(data: Seq<u8>, i: int) -> int {
    le16(data, i) + 65536 * le16(data, i + 2)
}

/// An end of central directory record, comment included, lies at `o`.
pub open spec fn eocd_ok(data: Seq<u8>, o: int) -> bool {
    &&& 0 <= o
    &&& o + 22 <= data.len()
    &&& le32(data, o) == EOCD_SIGNATURE
    &&& o + 22 + le16(data, o + 20) <= data.len()
}

/// The last offset not above `o` at which an end of central directory record
/// lies.
pub open spec fn eocd_search(data: Seq<u8>, o: int) -> Option<int>
    decreases o + 1,
{
    if o < 0 {
        None
    } else if eocd_ok(data, o) {
        Some(o)
    } else {
        eocd_search(data, o - 1)
    }
}

/// Where the end of central directory record is: the search runs backwards
/// from the last offset that leaves room for its fixed fields.
pub open spec fn eocd_offset(data: Seq<u8>) -> Option<int> {
    if data.len() < 18 {
        None
    } else {
        eocd_search(data, data.len() - 18)
    }
}

/// The number of entries that the end of central directory record at `o`
/// announces.
pub open spec fn eocd_entry_count(data: Seq<u8>, o: int) -> int {
    le16(data, o + 10)
}

/// Where the end of central directory record at `o` says the central
/// directory starts.
pub open spec fn eocd_directory_offset(data: Seq<u8>, o: int) -> int {
    le32(data, o + 16)
}

/// Bit 11 of the general purpose flags: names are UTF-8.
pub open spec fn is_utf8_flag(flags: int) -> bool {
    (flags / 2048) % 2 == 1
}

/// The characters of a name or comment, in UTF-8 or code page 437 as the flags
/// say.
pub open spec fn decode_name(flags: int, bytes: Seq<u8>) -> Seq<char> {
    if is_utf8_flag(flags) {
        utf8_lossy(bytes)
    } else {
        cp437_decode(bytes)
    }
}

/// How a zip name's bytes are read (APPNOTE 4.4.4, appendix D): with bit 11
/// of the general purpose flags set, as UTF-8; without it, as code page 437,
/// one character per byte, the bytes below 128 standing for the ASCII
/// characters of the same number and the others for the code page's upper
/// half.
pub proof fn lemma_decode_name(flags: u16, bytes: Seq<u8>)
    ensures
        flags & 0x800 != 0 ==> decode_name(flags as int, bytes) == utf8_lossy(bytes),
        flags & 0x800 == 0 ==> decode_name(flags as int, bytes).len() == bytes.len(),
        flags & 0x800 == 0 ==> forall|i: int|
            0 <= i < bytes.len() && bytes[i] < 128 ==> #[trigger] decode_name(flags as int, bytes)[i]
                == bytes[i] as char,
        flags & 0x800 == 0 ==> forall|i: int|
            0 <= i < bytes.len() && bytes[i] >= 128 ==> #[trigger] decode_name(flags as int, bytes)[i]
                == cp437_upper()[bytes[i] - 128],
{
    assert((flags & 0x800 != 0) == ((flags / 2048) % 2 == 1)) by (bit_vector);
}

/// A name of a directory ends with a slash or a backslash.
pub open spec fn is_dir_name(name: Seq<char>) -> bool {
    name.len() > 0 && (name.last() == '/' || name.last() == '\\')
}

/// The extensible data fields in bytes `p` to `end` (APPNOTE 4.5): as many
/// as can be read whole and end by `end`.
pub open spec fn extra_fields(data: Seq<u8>, p: int, end: int) -> Seq<(u16, Seq<u8>)>
    decreases end - p,
{
    if p >= end || p < 0 || p + 4 > data.len() {
        Seq::empty()
    } else {
        let dl = le16(data, p + 2);
        if p + 4 + dl > data.len() || p + 4 + dl > end {
            Seq::empty()
        } else {
            seq![(le16(data, p) as u16, data.subrange(p + 4, p + 4 + dl))] + extra_fields(
                data,
                p + 4 + dl,
                end,
            )
        }
    }
}

// Central directory file headers (APPNOTE 4.3.12) ////////////////////////////

/// The general purpose flags of the file header at `c`.
pub open spec fn cd_flags(data: Seq<u8>, c: int) -> int {
    le16(data, c + 8)
}

/// The compression method of the file header at `c`.
pub open spec fn cd_compression(data: Seq<u8>, c: int) -> int {
    le16(data, c + 10)
}

/// The length of the file name of the file header at `c`.
pub open spec fn cd_name_len(data: Seq<u8>, c: int) -> int {
    le16(data, c + 28)
}

/// The length of the extra field of the file header at `c`.
pub open spec fn cd_extra_len(data: Seq<u8>, c: int) -> int {
    le16(data, c + 30)
}

/// The length of the file comment of the file header at `c`.
pub open spec fn cd_comment_len(data: Seq<u8>, c: int) -> int {
    le16(data, c + 32)
}

/// The offset of the local file header that the file header at `c` points
/// to.
pub open spec fn cd_local_offset(data: Seq<u8>, c: int) -> int {
    le32(data, c + 42)
}

/// The file name of the file header at `c`, decoded.
pub open spec fn cd_name(data: Seq<u8>, c: int) -> Seq<char> {
    decode_name(cd_flags(data, c), data.subrange(c + 46, c + 46 + cd_name_len(data, c)))
}

/// Reading the file header at `c`: its whole length, or why it cannot be read.
pub open spec fn cd_header(data: Seq<u8>, c: int) -> Result<int, ArchiveError> {
    if c < 0 || c + 46 > data.len() {
        Err(ArchiveError::UnexpectedEof)
    } else if le32(data, c) != FILE_HEADER_SIGNATURE {
        Err(ArchiveError::WrongSignature)
    } else {
        let var = cd_name_len(data, c) + cd_extra_len(data, c) + cd_comment_len(data, c);
        if c + 46 + var > data.len() {
            Err(ArchiveError::UnexpectedEof)
        } else {
            Ok(46 + var)
        }
    }
}

/// The offsets of `count` file headers that follow each other from `c` on.
pub open spec fn cd_entries(data: Seq<u8>, c: int, count: nat) -> Result<Seq<int>, ArchiveError>
    decreases count,
{
    if count == 0 {
        Ok(Seq::empty())
    } else {
        match cd_header(data, c) {
            Err(e) => Err(e),
            Ok(len) => match cd_entries(data, c + len, (count - 1) as nat) {
                Err(e) => Err(e),
                Ok(rest) => Ok(seq![c] + rest),
            },
        }
    }
}

/// The offsets of the file headers of the archive's central directory, or why
/// they cannot be read.
#[verifier::opaque]
pub open spec fn archive_entries(data: Seq<u8>) -> Result<Seq<int>, ArchiveError> {
    match eocd_offset(data) {
        None => Err(ArchiveError::EndOfCentralDirectoryNotFound),
        Some(o) => {
            let start = eocd_directory_offset(data, o);
            if start > data.len() {
                Err(ArchiveError::UnexpectedEof)
            } else {
                cd_entries(data, start, eocd_entry_count(data, o) as nat)
            }
        },
    }
}

/// Reading `count` file headers yields `count` offsets, each of a header that
/// can be read, in increasing order.
pub proof fn lemma_cd_entries(data: Seq<u8>, c: int, count: nat)
    requires
        cd_entries(data, c, count) is Ok,
    ensures
        cd_entries(data, c, count)->Ok_0.len() == count,
        forall|i: int|
            0 <= i < count ==> #[trigger] cd_header(data, cd_entries(data, c, count)->Ok_0[i]) is Ok,
        forall|i: int, j: int|
            0 <= i < j < count ==> cd_entries(data, c, count)->Ok_0[i] < cd_entries(
                data,
                c,
                count,
            )->Ok_0[j],
    decreases count,
{
    if count > 0 {
        let len = cd_header(data, c)->Ok_0;
        lemma_cd_entries(data, c + len, (count - 1) as nat);
        let rest = cd_entries(data, c + len, (count - 1) as nat)->Ok_0;
        let all = cd_entries(data, c, count)->Ok_0;
        assert(all == seq![c] + rest);
        assert forall|i: int, j: int| 0 <= i < j < count implies all[i] < all[j] by {
            if i > 0 {
                assert(all[i] == rest[i - 1]);
            }
            assert(all[j] == rest[j - 1]);
            if j - 1 > 0 {
                assert(rest[0] < rest[j - 1]);
            }
            assert(rest[0] >= c + len) by {
                if count - 1 > 0 {
                    assert(rest[0] == c + len);
                }
            }
        }
    }
}

/// An archive lists as many entries as its end of central directory record
/// announces.
pub proof fn lemma_archive_entry_count(data: Seq<u8>)
    requires
        archive_entries(data) is Ok,
    ensures
        eocd_offset(data) is Some,
        archive_entries(data)->Ok_0.len() == eocd_entry_count(data, eocd_offset(data)->Some_0),
{
    reveal(archive_entries);
    let o = eocd_offset(data)->Some_0;
    lemma_cd_entries(data, eocd_directory_offset(data, o), eocd_entry_count(data, o) as nat);
}

// Local file headers (APPNOTE 4.3.7) /////////////////////////////////////////

/// Reading the local file header at `l`: its whole length, or why it cannot be
/// read.
pub open spec fn local_header(data: Seq<u8>, l: int) -> Result<int, ArchiveError> {
    if l < 0 || l + 30 > data.len() {
        Err(ArchiveError::UnexpectedEof)
    } else if le32(data, l) != LOCAL_FILE_HEADER_SIGNATURE {
        Err(ArchiveError::WrongSignature)
    } else {
        let var = le16(data, l + 26) + le16(data, l + 28);
        if l + 30 + var > data.len() {
            Err(ArchiveError::UnexpectedEof)
        } else {
            Ok(30 + var)
        }
    }
}

/// Where the data of the entry whose file header is at `c` starts, or why the
/// entry cannot be opened.
pub open spec fn entry_data_offset(data: Seq<u8>, c: int) -> Result<int, ArchiveError> {
    let l = cd_local_offset(data, c);
    if l > data.len() {
        Err(ArchiveError::UnexpectedEof)
    } else {
        match local_header(data, l) {
            Err(e) => Err(e),
            Ok(len) => if cd_compression(data, c) != 0 && cd_compression(data, c) != 8 {
                Err(ArchiveError::UnsupportedCompression)
            } else {
                Ok(l + len)
            },
        }
    }
}

/// An entry's data starts right after its local file header: the header's
/// 30 fixed bytes, then the local file name and the local extra field, whose
/// lengths the local header gives at its bytes 26 and 28 (and which may differ
/// from those in the central directory). The entry can be opened exactly when
/// that header lies in the archive with its signature and the method is
/// storing (0) or DEFLATE (8).
pub proof fn lemma_entry_data_offset(data: Seq<u8>, c: int)
    ensures
        ({
            let l = le32(data, c + 42);
            let method = le16(data, c + 10);
            &&& entry_data_offset(data, c) is Ok <==> {
                &&& 0 <= l
                &&& l + 30 <= data.len()
                &&& data[l] == 0x50 && data[l + 1] == 0x4b && data[l + 2] == 0x03 && data[l + 3] == 0x04
                &&& l + 30 + le16(data, l + 26) + le16(data, l + 28) <= data.len()
                &&& (method == 0 || method == 8)
            }
            &&& entry_data_offset(data, c) matches Ok(d) ==> d == l + 30 + le16(data, l + 26) + le16(
                data,
                l + 28,
            )
        }),
{
    let l = le32(data, c + 42);
    if 0 <= l && l + 30 <= data.len() {
        let b0 = data[l] as int;
        let b1 = data[l + 1] as int;
        let b2 = data[l + 2] as int;
        let b3 = data[l + 3] as int;
        assert(0 <= b0 < 256 && 0 <= b1 < 256 && 0 <= b2 < 256 && 0 <= b3 < 256);
        assert((le32(data, l) == 0x04034b50) <==> (b0 == 0x50 && b1 == 0x4b && b2 == 0x03 && b3 == 0x04));
    }
}

// MS-DOS dates and times /////////////////////////////////////////////////////

/// Whether `y` is a leap year.
pub open spec fn is_leap_year(y: int) -> bool {
    (y % 4 == 0 && y % 100 != 0) || y % 400 == 0
}

/// The number of days from 1970-01-01 to the first day of year `y` (from
/// 1970 on).
pub open spec fn days_before_year(y: int) -> int {
    365 * (y - 1970) + ((y - 1) / 4 - (y - 1) / 100 + (y - 1) / 400) - 477
}

/// The number of days in the year before the first day of month `m` (1 to
/// 12).
pub open spec fn days_before_month(y: int, m: int) -> int {
    seq![0int, 31, 59, 90, 120, 151, 181, 212, 243, 273, 304, 334][m - 1] + if m > 2
        && is_leap_year(y) {
        1int
    } else {
        0int
    }
}

/// The seconds since the UNIX epoch of an MS-DOS date and time: the year
/// counts from 1980 in bits 9 to 15 of the date, the month in bits 5 to 8 and
/// the day in bits 0 to 4; the hour is in bits 11 to 15 of the time, the
/// minute in bits 5 to 10 and half the second in bits 0 to 4. A month out of
/// 1 to 12 counts as the nearest one, a day 0 as day 1.
pub open spec fn dos_datetime_secs(date: u16, time: u16) -> int {
    let year = 1980 + date / 512;
    let month = (date / 32) % 16;
    let day = date % 32;
    let m = if month < 1 {
        1
    } else if month > 12 {
        12
    } else {
        month as int
    };
    let d = if day == 0 {
        0
    } else {
        day - 1
    };
    let days = days_before_year(year) + days_before_month(year, m) + d;
    days * 86400 + (time / 2048) * 3600 + ((time / 32) % 64) * 60 + (time % 32) * 2
}

/// The number of days in month `m` (1 to 12) of year `y`.
pub open spec fn month_days(y: int, m: int) -> int {
    if m == 2 {
        if is_leap_year(y) {
            29
        } else {
            28
        }
    } else if m == 4 || m == 6 || m == 9 || m == 11 {
        30
    } else {
        31
    }
}

/// How MS-DOS dates and times count (APPNOTE 4.4.6): the fields of the time
/// add hours, minutes and two-second steps; the next day of a month is one
/// day later; the first day of the next month is as many days later as the
/// month has; the first day of the next year is 365 or, after a leap year's
/// first day, 366 days later; and the earliest date, 1980-01-01, is 315532800
/// seconds after the UNIX epoch.
pub proof fn lemma_dos_datetime(date: u16, time: u16)
    ensures
        dos_datetime_secs(date, time) == dos_datetime_secs(date, 0) + 3600 * (time >> 11) + 60 * ((
        time >> 5) & 0x3f) + 2 * (time & 0x1f),
        1 <= date & 0x1f <= 30 ==> dos_datetime_secs((date + 1) as u16, time) == dos_datetime_secs(
            date,
            time,
        ) + 86400,
        1 <= (date >> 5) & 0xf <= 11 && date & 0x1f == 1 ==> dos_datetime_secs(
            (date + 32) as u16,
            time,
        ) == dos_datetime_secs(date, time) + 86400 * month_days(
            1980 + (date >> 9),
            ((date >> 5) & 0xf) as int,
        ),
        (date >> 5) & 0xf == 1 && date & 0x1f == 1 && date >> 9 < 127 ==> dos_datetime_secs(
            (date + 512) as u16,
            time,
        ) == dos_datetime_secs(date, time) + 86400 * (if is_leap_year(1980 + (date >> 9)) {
            366int
        } else {
            365int
        }),
        dos_datetime_secs(0x21, 0) == 315532800,
{
    assert(time >> 11 == time / 2048 && (time >> 5) & 0x3f == (time / 32) % 64 && time & 0x1f == time
        % 32) by (bit_vector);
    assert(date >> 9 == date / 512 && (date >> 5) & 0xf == (date / 32) % 16 && date & 0x1f == date
        % 32) by (bit_vector);
    assert(date & 0x1f <= 30 ==> ((date + 1) as u16) / 512 == date / 512 && (((date + 1) as u16)
        / 32) % 16 == (date / 32) % 16 && ((date + 1) as u16) % 32 == date % 32 + 1) by (bit_vector);
    assert((date >> 5) & 0xf <= 11 ==> ((date + 32) as u16) / 512 == date / 512 && (((date + 32) as u16)
        / 32) % 16 == (date / 32) % 16 + 1 && ((date + 32) as u16) % 32 == date % 32) by (bit_vector);
    assert(date >> 9 < 127 ==> ((date + 512) as u16) / 512 == date / 512 + 1 && (((date + 512) as u16)
        / 32) % 16 == (date / 32) % 16 && ((date + 512) as u16) % 32 == date % 32) by (bit_vector);
    let y = 1980 + date / 512;
    assert(1980 <= y <= 2107);
    lemma_days_before_next_year(y);
}

/// The first day of the year after `y` is 365 days, or 366 after a leap
/// year, after the first day of `y`.
proof fn lemma_days_before_next_year(y: int)
    requires
        1980 <= y <= 2107,
    ensures
        days_before_year(y + 1) == days_before_year(y) + if is_leap_year(y) {
            366int
        } else {
            365int
        },
{
    assert(y / 4 - (y - 1) / 4 == if y % 4 == 0 {
        1int
    } else {
        0int
    }) by (nonlinear_arith)
        requires
            1980 <= y,
    ;
    assert(y / 100 - (y - 1) / 100 == if y % 100 == 0 {
        1int
    } else {
        0int
    }) by (nonlinear_arith)
        requires
            1980 <= y,
    ;
    assert(y / 400 - (y - 1) / 400 == if y % 400 == 0 {
        1int
    } else {
        0int
    }) by (nonlinear_arith)
        requires
            1980 <= y,
    ;
}

} // verus!
