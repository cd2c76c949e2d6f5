//! P4K archive entry.

use vstd::prelude::*;
use vstd::seq::*;
use vstd::seq_lib::*;
use vstd::slice::*;
use vstd::string::*;
use vstd::utf8::*;

use crate::datetime;
use crate::datetime::dos_datetime_to_unix_secs;
use crate::path;
use crate::path::replace_ascii;
use crate::text;
use crate::text::lossy;
use crate::zip::CompressionMethod;

verus! {

/// An entry (file) within a P4K archive.
///
/// This contains metadata about the file, not the file data itself.
#[derive(Debug, Clone)]
pub struct P4kEntry {
    name: String,
    compressed_size: u64,
    uncompressed_size: u64,
    compression_method: CompressionMethod,
    is_encrypted: bool,
    local_header_offset: u64,
    dos_datetime: u32,
    crc32: u32,
}

/// What an entry says.
pub struct EntryInfo {
    pub name: Seq<char>,
    pub compressed_size: u64,
    pub uncompressed_size: u64,
    pub compression_method: CompressionMethod,
    pub is_encrypted: bool,
    pub local_header_offset: u64,
    pub dos_datetime: u32,
    pub crc32: u32,
}

impl View for P4kEntry {
    type V = EntryInfo;

    closed spec fn view(&self) -> EntryInfo {
        EntryInfo {
            name: self.name@,
            compressed_size: self.compressed_size,
            uncompressed_size: self.uncompressed_size,
            compression_method: self.compression_method,
            is_encrypted: self.is_encrypted,
            local_header_offset: self.local_header_offset,
            dos_datetime: self.dos_datetime,
            crc32: self.crc32,
        }
    }
}

/// Whether a name ends in a separator.
pub open spec fn is_dir_name(name: Seq<u8>) -> bool {
    name.len() > 0 && (name.last() == path::SLASH || name.last() == path::BACKSLASH)
}

/// The last component of a path, if it is an ordinary name. Trailing slashes
/// and trailing `.` components do not count.
pub open spec fn file_name(path: Seq<u8>) -> Option<Seq<u8>>
    decreases path.len(),
{
    let tail = last_part(path);
    if path.len() == 0 {
        None
    } else if tail.len() == 0 {
        file_name(path.drop_last())
    } else if tail == seq![path::DOT] {
        if path.len() == 1 {
            None
        } else {
            file_name(path.drop_last())
        }
    } else if tail == seq![path::DOT, path::DOT] {
        None
    } else {
        Some(tail)
    }
}

/// What stands behind the last slash of a path.
pub open spec fn last_part(path: Seq<u8>) -> Seq<u8>
    decreases path.len(),
{
    if path.len() == 0 || path.last() == path::SLASH {
        Seq::empty()
    } else {
        last_part(path.drop_last()).push(path.last())
    }
}

/// What stands behind the last dot of a name, unless that dot is its first byte.
pub open spec fn name_extension(name: Seq<u8>) -> Option<Seq<u8>>
    decreases name.len(),
{
    if name.len() <= 1 {
        None
    } else if name.last() == path::DOT {
        Some(Seq::empty())
    } else {
        match name_extension(name.drop_last()) {
            None => None,
            Some(extension) => Some(extension.push(name.last())),
        }
    }
}

/// The extension of a path.
pub open spec fn path_extension(path: Seq<u8>) -> Option<Seq<u8>> {
    match file_name(path) {
        None => None,
        Some(name) => name_extension(name),
    }
}

proof fn lemma_last_part(path: Seq<u8>, start: int, end: int)
    requires
        0 <= start <= end <= path.len(),
        start == 0 || path[start - 1] == path::SLASH,
        forall|i: int| start <= i < end ==> path[i] != path::SLASH,
    ensures
        last_part(path.take(end)) == path.subrange(start, end),
    decreases end - start,
{
    if start == end {
        assert(path.subrange(start, end) =~= Seq::empty());
    } else {
        lemma_last_part(path, start, end - 1);
        assert(path.take(end).drop_last() =~= path.take(end - 1));
        assert(path.subrange(start, end) =~= path.subrange(start, end - 1).push(path[end - 1]));
    }
}

/// The start of the last part of the first `end` bytes.
fn last_part_start(path: &[u8], end: usize) -> (start: usize)
    requires
        end <= path@.len(),
    ensures
        start <= end,
        path@.subrange(start as int, end as int) == last_part(path@.take(end as int)),
{
    let mut start: usize = end;
    while start > 0 && path[start - 1] != path::SLASH
        invariant
            start <= end <= path@.len(),
            forall|i: int| start <= i < end ==> path@[i] != path::SLASH,
        decreases start,
    {
        start -= 1;
    }
    proof {
        lemma_last_part(path@, start as int, end as int);
    }
    start
}

/// Where the file name of a path stands.
fn file_name_span(path: &[u8]) -> (r: Option<(usize, usize)>)
    ensures
        match r {
            None => file_name(path@) is None,
            Some((from, to)) => from <= to <= path@.len() && file_name(path@) == Some(
                path@.subrange(from as int, to as int),
            ),
        },
{
    let mut end: usize = path.len();
    assert(path@.take(end as int) =~= path@);
    while end > 0
        invariant
            end <= path@.len(),
            file_name(path@) == file_name(path@.take(end as int)),
        decreases end,
    {
        let start: usize = last_part_start(path, end);
        let ghost tail = path@.subrange(start as int, end as int);
        proof {
            assert(path@.take(end as int).drop_last() =~= path@.take(end - 1));
            assert(tail == seq![path::DOT] ==> tail[0] == path::DOT && tail.len() == 1);
            assert(tail == seq![path::DOT, path::DOT] ==> tail[0] == path::DOT && tail[1]
                == path::DOT && tail.len() == 2);
        }
        let dot: bool = end - start == 1 && path[start] == path::DOT;
        if dot {
            assert(tail =~= seq![path::DOT]);
            if end == 1 {
                return None;
            }
        } else if end - start == 2 && path[start] == path::DOT && path[start + 1] == path::DOT {
            assert(tail =~= seq![path::DOT, path::DOT]);
            return None;
        } else if start != end {
            return Some((start, end));
        }
        end -= 1;
    }
    None
}

proof fn lemma_name_extension(name: Seq<u8>, at: int)
    requires
        1 <= at <= name.len(),
        at > 1 ==> name[at - 1] == path::DOT,
        forall|i: int| at <= i < name.len() ==> name[i] != path::DOT,
    ensures
        name_extension(name) == (if at > 1 {
            Some(name.skip(at))
        } else {
            None::<Seq<u8>>
        }),
    decreases name.len(),
{
    if name.len() > 1 {
        if at == name.len() {
            assert(name.skip(at) =~= Seq::empty());
        } else {
            lemma_name_extension(name.drop_last(), at);
            if at > 1 {
                assert(name.skip(at) =~= name.drop_last().skip(at).push(name.last()));
            }
        }
    }
}

/// Where the extension of the name between `from` and `to` starts.
fn extension_start(path: &[u8], from: usize, to: usize) -> (r: Option<usize>)
    requires
        from <= to <= path@.len(),
    ensures
        match r {
            None => name_extension(path@.subrange(from as int, to as int)) is None,
            Some(at) => at <= to && name_extension(path@.subrange(from as int, to as int)) == Some(
                path@.subrange(at as int, to as int),
            ),
        },
{
    if from == to {
        return None;
    }
    let ghost name = path@.subrange(from as int, to as int);
    let mut at: usize = to;
    while at - from > 1 && path[at - 1] != path::DOT
        invariant
            from < at <= to <= path@.len(),
            forall|i: int| at <= i < to ==> path@[i] != path::DOT,
        decreases at,
    {
        at -= 1;
    }
    proof {
        lemma_name_extension(name, at - from);
        assert(name.skip(at - from) =~= path@.subrange(at as int, to as int));
    }
    if at - from > 1 {
        Some(at)
    } else {
        None
    }
}

/// The extension of a path, as text.
pub fn extension_of(name: &str) -> (r: Option<String>)
    ensures
        match r {
            None => path_extension(encode_utf8(name@)) is None,
            Some(s) => path_extension(encode_utf8(name@)) is Some && s@ == text::lossy_text(
                path_extension(encode_utf8(name@))->Some_0,
            ),
        },
{
    let path = name.as_bytes();
    match file_name_span(path) {
        None => None,
        Some((from, to)) => match extension_start(path, from, to) {
            None => None,
            Some(at) => Some(lossy(slice_subrange(path, at, to))),
        },
    }
}

impl P4kEntry {
    /// Create a new P4K entry.
    pub fn new(
        name: String,
        compressed_size: u64,
        uncompressed_size: u64,
        compression_method: CompressionMethod,
        is_encrypted: bool,
        local_header_offset: u64,
        dos_datetime: u32,
        crc32: u32,
    ) -> (r: Self)
        ensures
            r@ == (EntryInfo {
                name: name@,
                compressed_size,
                uncompressed_size,
                compression_method,
                is_encrypted,
                local_header_offset,
                dos_datetime,
                crc32,
            }),
    {
        P4kEntry {
            name,
            compressed_size,
            uncompressed_size,
            compression_method,
            is_encrypted,
            local_header_offset,
            dos_datetime,
            crc32,
        }
    }

    /// Get the file name/path.
    pub fn name(&self) -> (r: &str)
        ensures
            r@ == self@.name,
    {
        self.name.as_str()
    }

    /// Get the compressed size in bytes.
    pub fn compressed_size(&self) -> (r: u64)
        ensures
            r == self@.compressed_size,
    {
        self.compressed_size
    }

    /// Get the uncompressed size in bytes.
    pub fn uncompressed_size(&self) -> (r: u64)
        ensures
            r == self@.uncompressed_size,
    {
        self.uncompressed_size
    }

    /// Get the compression method.
    pub fn compression_method(&self) -> (r: CompressionMethod)
        ensures
            r == self@.compression_method,
    {
        self.compression_method
    }

    /// Check if the entry is encrypted.
    pub fn is_encrypted(&self) -> (r: bool)
        ensures
            r == self@.is_encrypted,
    {
        self.is_encrypted
    }

    /// Get the offset to the local file header.
    pub fn local_header_offset(&self) -> (r: u64)
        ensures
            r == self@.local_header_offset,
    {
        self.local_header_offset
    }

    /// Get the packed DOS date and time of the last modification.
    pub fn dos_datetime(&self) -> (r: u32)
        ensures
            r == self@.dos_datetime,
    {
        self.dos_datetime
    }

    /// Get the CRC32C checksum.
    pub fn crc32(&self) -> (r: u32)
        ensures
            r == self@.crc32,
    {
        self.crc32
    }

    /// Get the last modification time in seconds since the start of 1970.
    ///
    /// Gives nothing if the DOS datetime is invalid.
    pub fn last_modified(&self) -> (r: Option<u64>)
        ensures
            r == datetime::unix_seconds(self@.dos_datetime),
    {
        dos_datetime_to_unix_secs(self.dos_datetime)
    }

    /// Get the relative output path for extraction, with slashes as separators.
    pub fn output_path(&self) -> (r: String)
        ensures
            encode_utf8(r@) == path::replaced(
                encode_utf8(self@.name),
                path::BACKSLASH,
                path::SLASH,
            ),
    {
        replace_ascii(self.name.as_str(), path::BACKSLASH, path::SLASH)
    }

    /// Check if this entry represents a directory.
    pub fn is_dir(&self) -> (r: bool)
        ensures
            r == is_dir_name(encode_utf8(self@.name)),
    {
        let name = self.name.as_str().as_bytes();
        name.len() > 0 && (name[name.len() - 1] == path::SLASH || name[name.len() - 1]
            == path::BACKSLASH)
    }

    /// Get the file extension, if any.
    pub fn extension(&self) -> (r: Option<String>)
        ensures
            match r {
                None => path_extension(encode_utf8(self@.name)) is None,
                Some(s) => path_extension(encode_utf8(self@.name)) is Some && s@
                    == text::lossy_text(path_extension(encode_utf8(self@.name))->Some_0),
            },
    {
        extension_of(self.name.as_str())
    }
}

} // verus!
