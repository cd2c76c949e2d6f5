//! What comparing two archives is good for: which files it tells of, and what.

use vstd::prelude::*;
use vstd::seq::*;
use vstd::seq_lib::*;
use vstd::utf8::*;

use crate::archive::model::EntryModel;
use crate::compare;
use crate::compare::{DiffStatus, FileModel, P4kComparisonResult};
use crate::order;
use crate::text;

verus! {

/// Whether entry `i` is the last of an archive whose path has the key.
pub open spec fn is_last_with(entries: Seq<EntryModel>, i: int, key: Seq<u8>) -> bool {
    &&& 0 <= i < entries.len()
    &&& compare::path_key(entries[i].name) == key
    &&& forall|j: int|
        i < j < entries.len() ==> compare::path_key((#[trigger] entries[j]).name) != key
}

/// Whether an archive has no entry whose path has the key.
pub open spec fn lacks(entries: Seq<EntryModel>, key: Seq<u8>) -> bool {
    forall|j: int|
        0 <= j < entries.len() ==> compare::path_key((#[trigger] entries[j]).name) != key
}

/// A file that was modified is told with the size and the checksum of the last
/// entry of the old archive that has its path as the old ones, and with those of
/// the last entry of the new archive as the new ones. The checksums differ. And
/// every file of which the checksums differ is told.
pub proof fn law_modified_files(
    old: Seq<EntryModel>,
    new: Seq<EntryModel>,
    modified: Seq<FileModel>,
)
    requires
        compare::all_modified(old, new, modified),
    ensures
        forall|f: FileModel| #[trigger]
            modified.contains(f) ==> exists|i: int, j: int|
                {
                    &&& #[trigger] is_last_with(old, i, compare::path_key(f.path))
                    &&& #[trigger] is_last_with(new, j, compare::path_key(f.path))
                    &&& f.path == new[j].name
                    &&& f.status == DiffStatus::Modified
                    &&& f.size_old == Some(old[i].uncompressed_size)
                    &&& f.crc_old == Some(old[i].crc32)
                    &&& f.size_new == Some(new[j].uncompressed_size)
                    &&& f.crc_new == Some(new[j].crc32)
                    &&& old[i].crc32 != new[j].crc32
                },
        forall|i: int, j: int, key: Seq<u8>|
            {
                &&& #[trigger] is_last_with(old, i, key)
                &&& #[trigger] is_last_with(new, j, key)
                &&& old[i].crc32 != new[j].crc32
            } ==> exists|f: FileModel| #[trigger] modified.contains(f) && f.path == new[j].name,
{
    assert forall|f: FileModel| #[trigger] modified.contains(f) implies exists|i: int, j: int|
        {
            &&& #[trigger] is_last_with(old, i, compare::path_key(f.path))
            &&& #[trigger] is_last_with(new, j, compare::path_key(f.path))
            &&& f.path == new[j].name
            &&& f.status == DiffStatus::Modified
            &&& f.size_old == Some(old[i].uncompressed_size)
            &&& f.crc_old == Some(old[i].crc32)
            &&& f.size_new == Some(new[j].uncompressed_size)
            &&& f.crc_new == Some(new[j].crc32)
            &&& old[i].crc32 != new[j].crc32
        } by {
        let (i, j) = choose|i: int, j: int| #[trigger] compare::tells_modified(old, new, i, j, f);
        assert(compare::tells_modified(old, new, i, j, f));
        assert(is_last_with(old, i, compare::path_key(f.path)));
        assert(is_last_with(new, j, compare::path_key(f.path)));
    }
    assert forall|i: int, j: int, key: Seq<u8>|
        {
            &&& #[trigger] is_last_with(old, i, key)
            &&& #[trigger] is_last_with(new, j, key)
            &&& old[i].crc32 != new[j].crc32
        } implies exists|f: FileModel| #[trigger] modified.contains(f) && f.path
        == new[j].name by {
        let f = compare::modified_file(old[i], new[j]);
        assert(compare::tells_modified(old, new, i, j, f));
        assert(modified.contains(f));
    }
}

/// A file that was added is told with the size and the checksum of the last entry
/// of the new archive that has its path, and with none of the old archive, which
/// has no such file. And every such file is told.
pub proof fn law_added_files(
    old: Seq<EntryModel>,
    new: Seq<EntryModel>,
    added: Seq<FileModel>,
)
    requires
        compare::all_single(new, old, true, added),
    ensures
        forall|f: FileModel| #[trigger]
            added.contains(f) ==> lacks(old, compare::path_key(f.path)) && exists|j: int|
                {
                    &&& #[trigger] is_last_with(new, j, compare::path_key(f.path))
                    &&& f.path == new[j].name
                    &&& f.status == DiffStatus::Added
                    &&& f.size_old is None
                    &&& f.crc_old is None
                    &&& f.size_new == Some(new[j].uncompressed_size)
                    &&& f.crc_new == Some(new[j].crc32)
                },
        forall|j: int, key: Seq<u8>| #[trigger]
            is_last_with(new, j, key) && lacks(old, key) ==> exists|f: FileModel| #[trigger]
                added.contains(f) && f.path == new[j].name,
{
    assert forall|f: FileModel| #[trigger] added.contains(f) implies lacks(
        old,
        compare::path_key(f.path),
    ) && exists|j: int|
        {
            &&& #[trigger] is_last_with(new, j, compare::path_key(f.path))
            &&& f.path == new[j].name
            &&& f.status == DiffStatus::Added
            &&& f.size_old is None
            &&& f.crc_old is None
            &&& f.size_new == Some(new[j].uncompressed_size)
            &&& f.crc_new == Some(new[j].crc32)
        } by {
        let j = choose|j: int| #[trigger] compare::tells_single(new, old, j, true, f);
        assert(compare::tells_single(new, old, j, true, f));
        assert(is_last_with(new, j, compare::path_key(f.path)));
        assert forall|x: int| 0 <= x < old.len() implies compare::path_key(
            (#[trigger] old[x]).name,
        ) != compare::path_key(f.path) by {
            assert(compare::path_key(old[x].name) == compare::path_key(new[j].name)
                ==> compare::has_key(old, compare::path_key(new[j].name)));
        }
    }
    assert forall|j: int, key: Seq<u8>| #[trigger]
        is_last_with(new, j, key) && lacks(old, key) implies exists|f: FileModel| #[trigger]
        added.contains(f) && f.path == new[j].name by {
        let f = compare::added_file(new[j]);
        assert(compare::tells_single(new, old, j, true, f));
        assert(added.contains(f));
    }
}

/// A file that was removed is told with the size and the checksum of the last
/// entry of the old archive that has its path, and with none of the new archive,
/// which has no such file. And every such file is told.
pub proof fn law_removed_files(
    old: Seq<EntryModel>,
    new: Seq<EntryModel>,
    removed: Seq<FileModel>,
)
    requires
        compare::all_single(old, new, false, removed),
    ensures
        forall|f: FileModel| #[trigger]
            removed.contains(f) ==> lacks(new, compare::path_key(f.path)) && exists|i: int|
                {
                    &&& #[trigger] is_last_with(old, i, compare::path_key(f.path))
                    &&& f.path == old[i].name
                    &&& f.status == DiffStatus::Removed
                    &&& f.size_new is None
                    &&& f.crc_new is None
                    &&& f.size_old == Some(old[i].uncompressed_size)
                    &&& f.crc_old == Some(old[i].crc32)
                },
        forall|i: int, key: Seq<u8>| #[trigger]
            is_last_with(old, i, key) && lacks(new, key) ==> exists|f: FileModel| #[trigger]
                removed.contains(f) && f.path == old[i].name,
{
    assert forall|f: FileModel| #[trigger] removed.contains(f) implies lacks(
        new,
        compare::path_key(f.path),
    ) && exists|i: int|
        {
            &&& #[trigger] is_last_with(old, i, compare::path_key(f.path))
            &&& f.path == old[i].name
            &&& f.status == DiffStatus::Removed
            &&& f.size_new is None
            &&& f.crc_new is None
            &&& f.size_old == Some(old[i].uncompressed_size)
            &&& f.crc_old == Some(old[i].crc32)
        } by {
        let i = choose|i: int| #[trigger] compare::tells_single(old, new, i, false, f);
        assert(compare::tells_single(old, new, i, false, f));
        assert(is_last_with(old, i, compare::path_key(f.path)));
        assert forall|x: int| 0 <= x < new.len() implies compare::path_key(
            (#[trigger] new[x]).name,
        ) != compare::path_key(f.path) by {
            assert(compare::path_key(new[x].name) == compare::path_key(old[i].name)
                ==> compare::has_key(new, compare::path_key(old[i].name)));
        }
    }
    assert forall|i: int, key: Seq<u8>| #[trigger]
        is_last_with(old, i, key) && lacks(new, key) implies exists|f: FileModel| #[trigger]
        removed.contains(f) && f.path == old[i].name by {
        let f = compare::removed_file(old[i]);
        assert(compare::tells_single(old, new, i, false, f));
        assert(removed.contains(f));
    }
}

/// The results of a comparison stand in the order of their paths made small: of
/// two, the earlier has the smaller byte where they first differ, or ends there.
pub proof fn law_files_in_order(files: Seq<FileModel>, a: int, b: int)
    requires
        compare::in_path_order(files),
        0 <= a < b < files.len(),
    ensures
        ({
            let one = encode_utf8(text::lowercase_text(files[a].path));
            let other = encode_utf8(text::lowercase_text(files[b].path));
            exists|k: int|
                {
                    &&& 0 <= k <= one.len()
                    &&& k < other.len()
                    &&& #[trigger] one.take(k) == other.take(k)
                    &&& k < one.len() ==> one[k] < other[k]
                }
        }),
{
    let one = encode_utf8(text::lowercase_text(files[a].path));
    let other = encode_utf8(text::lowercase_text(files[b].path));
    assert(order::bytes_below(
        compare::sort_text(files[a].path),
        compare::sort_text(files[b].path),
    ));
    order::law_bytes_below(one, other);
}

/// The key of an ASCII path has a byte for each of its characters: capitals are
/// made small, slashes become backslashes, and all else stays.
pub proof fn law_path_key(path: Seq<char>, i: int)
    requires
        is_ascii_chars(path),
        0 <= i < path.len(),
    ensures
        compare::path_key(path).len() == path.len(),
        compare::path_key(path)[i] == (if path[i] == '/' {
            0x5Cu8
        } else if 'A' <= path[i] && path[i] <= 'Z' {
            (path[i] as u8 + 0x20) as u8
        } else {
            path[i] as u8
        }),
{
    let low = text::lowercase_text(path);
    assert(is_ascii_chars(low));
    is_ascii_chars_encode_utf8(low);
}

/// The extensions of CryXML files.
pub open spec fn cryxml_extensions() -> Seq<Seq<char>> {
    seq![
        ".mtl"@,
        ".cdf"@,
        ".chrparams"@,
        ".adb"@,
        ".animevents"@,
        ".bspace"@,
        ".comb"@,
        ".eco"@,
    ]
}

/// The extensions of other text files.
pub open spec fn other_extensions() -> Seq<Seq<char>> {
    seq![
        ".xml"@,
        ".entxml"@,
        ".ent"@,
        ".txt"@,
        ".cfg"@,
        ".json"@,
        ".ini"@,
        ".csv"@,
        ".log"@,
        ".lua"@,
        ".js"@,
        ".md"@,
        ".html"@,
        ".css"@,
    ]
}

/// Which of some extensions a name has.
pub open spec fn has_some_extension(name: Seq<char>, extensions: Seq<Seq<char>>) -> bool {
    exists|k: int|
        0 <= k < extensions.len() && compare::has_extension(name, #[trigger] extensions[k])
}

/// A file is taken for a CryXML file, or for a text file, by its extension alone.
pub proof fn law_kinds_of_files(name: Seq<char>)
    ensures
        compare::has_cryxml_extension(name) <==> has_some_extension(name, cryxml_extensions()),
        compare::has_text_extension(name) <==> has_some_extension(name, cryxml_extensions())
            || has_some_extension(name, other_extensions()),
{
    let a = cryxml_extensions();
    let b = other_extensions();
    if compare::has_cryxml_extension(name) {
        assert(compare::has_extension(name, a[0]) || compare::has_extension(name, a[1])
            || compare::has_extension(name, a[2]) || compare::has_extension(name, a[3])
            || compare::has_extension(name, a[4]) || compare::has_extension(name, a[5])
            || compare::has_extension(name, a[6]) || compare::has_extension(name, a[7]));
    } else if compare::has_text_extension(name) {
        assert(compare::has_extension(name, b[0]) || compare::has_extension(name, b[1])
            || compare::has_extension(name, b[2]) || compare::has_extension(name, b[3])
            || compare::has_extension(name, b[4]) || compare::has_extension(name, b[5])
            || compare::has_extension(name, b[6]) || compare::has_extension(name, b[7])
            || compare::has_extension(name, b[8]) || compare::has_extension(name, b[9])
            || compare::has_extension(name, b[10]) || compare::has_extension(name, b[11])
            || compare::has_extension(name, b[12]) || compare::has_extension(name, b[13]));
    }
}

/// An ASCII name has an extension if and only if it ends in it, but for the case of
/// its letters.
pub proof fn law_has_extension(name: Seq<char>, extension: Seq<char>)
    requires
        is_ascii_chars(name),
        is_ascii_chars(extension),
        extension.len() <= name.len(),
    ensures
        compare::has_extension(name, extension) <==> forall|j: int|
            0 <= j < extension.len() ==> {
                let c = name[name.len() - extension.len() + j];
                #[trigger] extension[j] == if 'A' <= c && c <= 'Z' {
                    (c as u32 + 0x20) as char
                } else {
                    c
                }
            },
{
    let low = text::lowercase_text(name);
    let d = name.len() - extension.len();
    assert(is_ascii_chars(low));
    is_ascii_chars_encode_utf8(low);
    is_ascii_chars_encode_utf8(extension);
    is_ascii_chars_nat_bound(low);
    is_ascii_chars_nat_bound(extension);
    let a = encode_utf8(low).skip(d);
    let b = encode_utf8(extension);
    assert forall|j: int| 0 <= j < extension.len() implies (a[j] == b[j]) == (low[d + j]
        == #[trigger] extension[j]) by {
        assert(a[j] == low[d + j] as u8);
        assert(b[j] == extension[j] as u8);
        assert((low.index(d + j) as nat) < 128);
        assert((extension.index(j) as nat) < 128);
    }
    if forall|j: int| 0 <= j < extension.len() ==> low[d + j] == #[trigger] extension[j] {
        assert(a =~= b);
    }
    if compare::has_extension(name, extension) {
        assert(a == b);
        assert forall|j: int| 0 <= j < extension.len() implies low[d + j]
            == #[trigger] extension[j] by {
            assert(a[j] == b[j]);
        }
    }
}


/// Every file that is told of is a change, and there are no others.
pub proof fn law_changes(result: P4kComparisonResult)
    ensures
        result.changes() == result.added@.len() + result.removed@.len() + result.modified@.len(),
        result.changes() == 0 <==> result.added@.len() == 0 && result.removed@.len() == 0
            && result.modified@.len() == 0,
{
}


} // verus!
