//! P4K archive comparison utilities.
//!
//! Compares two archives and finds the files that were added, removed and
//! modified between them.

use vstd::prelude::*;
use vstd::seq::*;
use vstd::seq_lib::*;
use vstd::slice::*;
use vstd::string::*;
use vstd::utf8::*;

use crate::archive::model::{EntryModel, P4kEntryRef};
use crate::archive::reader::P4kArchive;
use crate::bytes::same_bytes;
use crate::order;
use crate::order::{sort_texts, Ordered, TextKey};
use crate::path;
use crate::path::replace_ascii;
use crate::text;
use crate::text::lowercase;

verus! {

/// How a file differs between two archives.
#[derive(Debug, Clone, Copy, PartialEq, Eq, Structural)]
pub enum DiffStatus {
    /// The file is new.
    Added,
    /// The file is gone.
    Removed,
    /// The file has other contents.
    Modified,
}

/// Result of comparing a single file between two archives.
#[derive(Debug, Clone)]
pub struct FileComparisonResult {
    /// File path within the archive.
    pub path: String,
    /// Status of this file.
    pub status: DiffStatus,
    /// Size in the old archive, none if added.
    pub size_old: Option<u64>,
    /// Size in the new archive, none if removed.
    pub size_new: Option<u64>,
    /// CRC32C in the old archive, none if added.
    pub crc_old: Option<u32>,
    /// CRC32C in the new archive, none if removed.
    pub crc_new: Option<u32>,
}

/// Result of comparing a single file, as a value.
pub struct FileModel {
    pub path: Seq<char>,
    pub status: DiffStatus,
    pub size_old: Option<u64>,
    pub size_new: Option<u64>,
    pub crc_old: Option<u32>,
    pub crc_new: Option<u32>,
}

impl View for FileComparisonResult {
    type V = FileModel;

    open spec fn view(&self) -> FileModel {
        FileModel {
            path: self.path@,
            status: self.status,
            size_old: self.size_old,
            size_new: self.size_new,
            crc_old: self.crc_old,
            crc_new: self.crc_new,
        }
    }
}

/// The models of a run of results.
pub open spec fn file_models(files: Seq<FileComparisonResult>) -> Seq<FileModel> {
    Seq::new(files.len(), |i: int| files[i]@)
}

/// Result of comparing two P4K archives.
#[derive(Debug, Clone)]
pub struct P4kComparisonResult {
    /// Files that exist only in the new archive.
    pub added: Vec<FileComparisonResult>,
    /// Files that exist only in the old archive.
    pub removed: Vec<FileComparisonResult>,
    /// Files that exist in both but have different content.
    pub modified: Vec<FileComparisonResult>,
    /// Total number of files in the old archive.
    pub old_count: usize,
    /// Total number of files in the new archive.
    pub new_count: usize,
}

impl P4kComparisonResult {
    /// The total number of changes.
    pub open spec fn changes(&self) -> nat {
        self.added@.len() + self.removed@.len() + self.modified@.len()
    }

    /// Get total number of changes.
    pub fn total_changes(&self) -> (r: usize)
        requires
            self.changes() <= usize::MAX,
        ensures
            r == self.changes(),
    {
        self.added.len() + self.removed.len() + self.modified.len()
    }

    /// Check if archives are identical.
    pub fn is_identical(&self) -> (r: bool)
        ensures
            r == (self.changes() == 0),
    {
        self.added.len() == 0 && self.removed.len() == 0 && self.modified.len() == 0
    }
}

/// Whether `s` ends in `suffix`.
pub open spec fn ends_with(s: Seq<u8>, suffix: Seq<u8>) -> bool {
    suffix.len() <= s.len() && s.skip(s.len() - suffix.len()) == suffix
}

fn has_suffix(s: &str, suffix: &str) -> (r: bool)
    ensures
        r == ends_with(encode_utf8(s@), encode_utf8(suffix@)),
{
    let a = s.as_bytes();
    let b = suffix.as_bytes();
    if b.len() > a.len() {
        return false;
    }
    let tail = slice_subrange(a, a.len() - b.len(), a.len());
    assert(tail@ =~= a@.skip(a@.len() - b@.len()));
    same_bytes(tail, b)
}

/// Whether the small form of a name ends in the given extension.
pub open spec fn has_extension(name: Seq<char>, extension: Seq<char>) -> bool {
    ends_with(encode_utf8(text::lowercase_text(name)), encode_utf8(extension))
}

/// Whether a name has one of the extensions of CryXML files.
pub open spec fn has_cryxml_extension(name: Seq<char>) -> bool {
    has_extension(name, ".mtl"@) || has_extension(name, ".cdf"@) || has_extension(
        name,
        ".chrparams"@,
    ) || has_extension(name, ".adb"@) || has_extension(name, ".animevents"@) || has_extension(
        name,
        ".bspace"@,
    ) || has_extension(name, ".comb"@) || has_extension(name, ".eco"@)
}

/// Whether a name has one of the extensions of text files.
pub open spec fn has_text_extension(name: Seq<char>) -> bool {
    has_extension(name, ".xml"@) || has_cryxml_extension(name) || has_extension(name, ".entxml"@)
        || has_extension(name, ".ent"@) || has_extension(name, ".txt"@) || has_extension(
        name,
        ".cfg"@,
    ) || has_extension(name, ".json"@) || has_extension(name, ".ini"@) || has_extension(
        name,
        ".csv"@,
    ) || has_extension(name, ".log"@) || has_extension(name, ".lua"@) || has_extension(name, ".js"@)
        || has_extension(name, ".md"@) || has_extension(name, ".html"@) || has_extension(
        name,
        ".css"@,
    )
}

/// Every CryXML file is a text file, and whether a file is either does not
/// depend on the case of an ASCII name: the name and its small form give the
/// same answers.
///
/// Of other names it is not stated that making one small twice changes nothing
/// more.
pub proof fn law_extensions_ignore_case(name: Seq<char>)
    ensures
        has_cryxml_extension(name) ==> has_text_extension(name),
        is_ascii_chars(name) ==> {
            let lower = text::lowercase_text(name);
            &&& has_text_extension(lower) == has_text_extension(name)
            &&& has_cryxml_extension(lower) == has_cryxml_extension(name)
        },
{
    if is_ascii_chars(name) {
        let lower = text::lowercase_text(name);
        assert(is_ascii_chars(lower));
        assert(text::lowercase_text(lower) =~= lower);
    }
}

fn lower_has_cryxml_extension(lower: &str) -> (r: bool)
    ensures
        r == (ends_with(encode_utf8(lower@), encode_utf8(".mtl"@)) || ends_with(
            encode_utf8(lower@),
            encode_utf8(".cdf"@),
        ) || ends_with(encode_utf8(lower@), encode_utf8(".chrparams"@)) || ends_with(
            encode_utf8(lower@),
            encode_utf8(".adb"@),
        ) || ends_with(encode_utf8(lower@), encode_utf8(".animevents"@)) || ends_with(
            encode_utf8(lower@),
            encode_utf8(".bspace"@),
        ) || ends_with(encode_utf8(lower@), encode_utf8(".comb"@)) || ends_with(
            encode_utf8(lower@),
            encode_utf8(".eco"@),
        )),
{
    has_suffix(lower, ".mtl") || has_suffix(lower, ".cdf") || has_suffix(lower, ".chrparams")
        || has_suffix(lower, ".adb") || has_suffix(lower, ".animevents") || has_suffix(
        lower,
        ".bspace",
    ) || has_suffix(lower, ".comb") || has_suffix(lower, ".eco")
}

/// Check if a file path corresponds to a text file that can be diffed.
///
/// Gives true for XML, JSON, Lua, config files, etc.
pub fn is_text_file(name: &str) -> (r: bool)
    ensures
        r == has_text_extension(name@),
{
    let lower: String = lowercase(name);
    let l = lower.as_str();
    has_suffix(l, ".xml") || lower_has_cryxml_extension(l) || has_suffix(l, ".entxml")
        || has_suffix(l, ".ent") || has_suffix(l, ".txt") || has_suffix(l, ".cfg") || has_suffix(
        l,
        ".json",
    ) || has_suffix(l, ".ini") || has_suffix(l, ".csv") || has_suffix(l, ".log") || has_suffix(
        l,
        ".lua",
    ) || has_suffix(l, ".js") || has_suffix(l, ".md") || has_suffix(l, ".html") || has_suffix(
        l,
        ".css",
    )
}

/// Check if a file is a CryXML binary file that should be decoded before diffing.
pub fn is_cryxml_extension(name: &str) -> (r: bool)
    ensures
        r == has_cryxml_extension(name@),
{
    let lower: String = lowercase(name);
    lower_has_cryxml_extension(lower.as_str())
}

/// The small form of a path, by which results are put in order.
pub open spec fn sort_text(path: Seq<char>) -> Seq<u8> {
    encode_utf8(text::lowercase_text(path))
}

/// The key by which files of two archives are matched.
pub open spec fn path_key(path: Seq<char>) -> Seq<u8> {
    path::replaced(sort_text(path), path::SLASH, path::BACKSLASH)
}

/// Normalize a path for case-insensitive comparison.
pub fn normalize_path(path: &str) -> (r: String)
    ensures
        encode_utf8(r@) == path_key(path@),
{
    let lower: String = lowercase(path);
    replace_ascii(lower.as_str(), path::SLASH, path::BACKSLASH)
}

/// Whether an archive has a file with the given key.
pub open spec fn has_key(entries: Seq<EntryModel>, key: Seq<u8>) -> bool {
    exists|j: int| 0 <= j < entries.len() && path_key(#[trigger] entries[j].name) == key
}

/// Whether `i` is the entry that stands for its key: no later one has it.
pub open spec fn is_current(entries: Seq<EntryModel>, i: int) -> bool {
    &&& 0 <= i < entries.len()
    &&& forall|j: int|
        i < j < entries.len() ==> path_key(#[trigger] entries[j].name) != path_key(
            entries[i].name,
        )
}

/// What is said of a file that was added.
pub open spec fn added_file(e: EntryModel) -> FileModel {
    FileModel {
        path: e.name,
        status: DiffStatus::Added,
        size_old: None,
        size_new: Some(e.uncompressed_size),
        crc_old: None,
        crc_new: Some(e.crc32),
    }
}

/// What is said of a file that was removed.
pub open spec fn removed_file(e: EntryModel) -> FileModel {
    FileModel {
        path: e.name,
        status: DiffStatus::Removed,
        size_old: Some(e.uncompressed_size),
        size_new: None,
        crc_old: Some(e.crc32),
        crc_new: None,
    }
}

/// What is said of a file that was modified.
pub open spec fn modified_file(old: EntryModel, new: EntryModel) -> FileModel {
    FileModel {
        path: new.name,
        status: DiffStatus::Modified,
        size_old: Some(old.uncompressed_size),
        size_new: Some(new.uncompressed_size),
        crc_old: Some(old.crc32),
        crc_new: Some(new.crc32),
    }
}

/// Whether a file result tells of a file that one archive has and the other lacks.
pub open spec fn tells_single(
    mine: Seq<EntryModel>,
    other: Seq<EntryModel>,
    i: int,
    new: bool,
    f: FileModel,
) -> bool {
    &&& is_current(mine, i)
    &&& !has_key(other, path_key(mine[i].name))
    &&& f == if new {
        added_file(mine[i])
    } else {
        removed_file(mine[i])
    }
}

/// Whether a file result tells of a file that both archives have, with other contents.
pub open spec fn tells_modified(
    old: Seq<EntryModel>,
    new: Seq<EntryModel>,
    i: int,
    j: int,
    f: FileModel,
) -> bool {
    &&& is_current(old, i)
    &&& is_current(new, j)
    &&& path_key(old[i].name) == path_key(new[j].name)
    &&& old[i].crc32 != new[j].crc32
    &&& f == modified_file(old[i], new[j])
}

/// Whether results are in order of their small paths, each path once.
pub open spec fn in_path_order(files: Seq<FileModel>) -> bool {
    forall|a: int, b: int|
        0 <= a < b < files.len() ==> order::bytes_below(
            sort_text(#[trigger] files[a].path),
            sort_text(#[trigger] files[b].path),
        )
}

/// Whether `files` are all the files that one archive has and the other lacks.
pub open spec fn all_single(
    mine: Seq<EntryModel>,
    other: Seq<EntryModel>,
    new: bool,
    files: Seq<FileModel>,
) -> bool {
    forall|f: FileModel| #[trigger]
        files.contains(f) <==> exists|i: int| #[trigger] tells_single(mine, other, i, new, f)
}

/// Whether `files` are all the files that were modified.
pub open spec fn all_modified(
    old: Seq<EntryModel>,
    new: Seq<EntryModel>,
    files: Seq<FileModel>,
) -> bool {
    forall|f: FileModel| #[trigger]
        files.contains(f) <==> exists|i: int, j: int| #[trigger]
            tells_modified(old, new, i, j, f)
}

/// Whether no two results have the same key.
spec fn distinct_keys(files: Seq<FileModel>) -> bool {
    forall|a: int, b: int|
        0 <= a < b < files.len() ==> path_key(#[trigger] files[a].path) != path_key(
            #[trigger] files[b].path,
        )
}

/// Whether a key occurs among the first `a` sorted positions.
spec fn is_done(texts: Seq<Seq<u8>>, sorted: Seq<usize>, a: int, key: Seq<u8>) -> bool {
    exists|t: int| 0 <= t < a && texts[#[trigger] sorted[t] as int] == key
}

/// Whether the keys of all results occur among the first `a` sorted positions.
spec fn keys_done(
    files: Seq<FileModel>,
    texts: Seq<Seq<u8>>,
    sorted: Seq<usize>,
    a: int,
) -> bool {
    forall|x: int|
        0 <= x < files.len() ==> is_done(texts, sorted, a, path_key(#[trigger] files[x].path))
}

proof fn lemma_done_more(
    files: Seq<FileModel>,
    texts: Seq<Seq<u8>>,
    sorted: Seq<usize>,
    a: int,
    b: int,
)
    requires
        keys_done(files, texts, sorted, a),
        a <= b,
    ensures
        keys_done(files, texts, sorted, b),
{
    assert forall|x: int| 0 <= x < files.len() implies is_done(
        texts,
        sorted,
        b,
        path_key(#[trigger] files[x].path),
    ) by {
        assert(is_done(texts, sorted, a, path_key(files[x].path)));
    }
}

proof fn lemma_push_result(
    files: Seq<FileModel>,
    f: FileModel,
    texts: Seq<Seq<u8>>,
    sorted: Seq<usize>,
    a: int,
    b: int,
)
    requires
        keys_done(files, texts, sorted, a),
        distinct_keys(files),
        0 <= a < b,
        texts[sorted[a] as int] == path_key(f.path),
        !is_done(texts, sorted, a, path_key(f.path)),
    ensures
        keys_done(files.push(f), texts, sorted, b),
        distinct_keys(files.push(f)),
{
    let more = files.push(f);
    lemma_done_more(files, texts, sorted, a, b);
    assert forall|x: int| 0 <= x < more.len() implies is_done(
        texts,
        sorted,
        b,
        path_key(#[trigger] more[x].path),
    ) by {
        if x < files.len() {
            assert(more[x] == files[x]);
            assert(is_done(texts, sorted, b, path_key(files[x].path)));
        } else {
            assert(texts[sorted[a] as int] == path_key(more[x].path));
        }
    }
    assert forall|x: int, y: int| 0 <= x < y < more.len() implies path_key(
        #[trigger] more[x].path,
    ) != path_key(#[trigger] more[y].path) by {
        assert(more[x] == files[x]);
        assert(is_done(texts, sorted, a, path_key(files[x].path)));
        if y < files.len() {
            assert(more[y] == files[y]);
        }
    }
}

/// In sorted order, all positions of a key stand together.
proof fn lemma_run(texts: Seq<Seq<u8>>, sorted: Seq<usize>, a: int, b: int)
    requires
        order::is_text_order(texts, sorted),
        0 <= a < b <= sorted.len(),
        a > 0 ==> texts[sorted[a - 1] as int] != texts[sorted[a] as int],
        forall|t: int| a <= t < b ==> texts[#[trigger] sorted[t] as int] == texts[sorted[a] as int],
        b < sorted.len() ==> texts[sorted[b] as int] != texts[sorted[a] as int],
    ensures
        forall|t: int|
            0 <= t < sorted.len() && texts[#[trigger] sorted[t] as int]
                == texts[sorted[a] as int] ==> a <= t < b,
        !is_done(texts, sorted, a, texts[sorted[a] as int]),
{
    let key = texts[sorted[a] as int];
    assert forall|t: int|
        0 <= t < sorted.len() && texts[#[trigger] sorted[t] as int] == key implies a <= t < b by {
        if t < a {
            let before = texts[sorted[a - 1] as int];
            assert(order::text_precedes(texts, sorted[a - 1] as int, sorted[a] as int));
            order::lemma_bytes_below_total(before, key);
            lemma_below(before, key);
            if t < a - 1 {
                assert(order::text_precedes(texts, sorted[t] as int, sorted[a - 1] as int));
            }
        }
        if t >= b {
            let after = texts[sorted[b] as int];
            assert(order::text_precedes(texts, sorted[a] as int, sorted[b] as int));
            order::lemma_bytes_below_total(after, key);
            lemma_below(key, after);
            if t > b {
                assert(order::text_precedes(texts, sorted[b] as int, sorted[t] as int));
            }
        }
    }
    if is_done(texts, sorted, a, key) {
        let t = choose|t: int| 0 <= t < a && texts[#[trigger] sorted[t] as int] == key;
        assert(a <= t);
    }
}

proof fn lemma_below(a: Seq<u8>, b: Seq<u8>)
    ensures
        !order::bytes_below(a, a),
        order::bytes_below(a, b) ==> !order::bytes_below(b, a),
{
    order::lemma_bytes_below_order(a, b);
}

/// Put results in order of their small paths.
fn sort_files(files: &Vec<FileComparisonResult>) -> (r: Vec<FileComparisonResult>)
    requires
        distinct_keys(file_models(files@)),
    ensures
        in_path_order(file_models(r@)),
        forall|f: FileModel|
            #[trigger] file_models(r@).contains(f) <==> file_models(files@).contains(f),
{
    let ghost models = file_models(files@);
    let mut keys: Vec<TextKey> = Vec::new();
    let mut i: usize = 0;
    while i < files.len()
        invariant
            i <= files@.len(),
            keys@.len() == i,
            forall|j: int|
                0 <= j < i ==> (#[trigger] keys@[j]).bytes@ == sort_text(files@[j]@.path),
        decreases files@.len() - i,
    {
        let lower: String = lowercase(files[i].path.as_str());
        keys.push(TextKey { bytes: slice_to_vec(lower.as_str().as_bytes()) });
        i += 1;
    }
    let sorted: Vec<usize> = sort_texts(keys.as_slice());
    let ghost texts = order::texts_of(keys@);
    let mut out: Vec<FileComparisonResult> = Vec::new();
    let mut k: usize = 0;
    while k < sorted.len()
        invariant
            k <= sorted@.len(),
            out@.len() == k,
            keys@.len() == files@.len(),
            texts == order::texts_of(keys@),
            order::is_text_order(texts, sorted@),
            forall|j: int| 0 <= j < k ==> (#[trigger] out@[j])@ == files@[sorted@[j] as int]@,
        decreases sorted@.len() - k,
    {
        assert(sorted@[k as int] < texts.len());
        let f = &files[sorted[k]];
        out.push(
            FileComparisonResult {
                path: String::from_str(f.path.as_str()),
                status: f.status,
                size_old: f.size_old,
                size_new: f.size_new,
                crc_old: f.crc_old,
                crc_new: f.crc_new,
            },
        );
        k += 1;
    }
    proof {
        let done = file_models(out@);
        assert forall|a: int, b: int| 0 <= a < b < done.len() implies order::bytes_below(
            sort_text(#[trigger] done[a].path),
            sort_text(#[trigger] done[b].path),
        ) by {
            assert(sorted@[a] < texts.len() && sorted@[b] < texts.len());
            assert(order::text_precedes(texts, sorted@[a] as int, sorted@[b] as int));
            let i = sorted@[a] as int;
            let j = sorted@[b] as int;
            assert(texts[i] == sort_text(models[i].path) && texts[j] == sort_text(models[j].path));
            assert(out@[a]@ == files@[i]@ && out@[b]@ == files@[j]@);
            lemma_below(texts[i], texts[j]);
            if i == j {
            } else if i < j {
                assert(path_key(models[i].path) != path_key(models[j].path));
            } else {
                assert(path_key(models[j].path) != path_key(models[i].path));
            }
            order::lemma_bytes_below_total(texts[i], texts[j]);
        }
        assert forall|f: FileModel| #[trigger] done.contains(f) <==> models.contains(f) by {
            if done.contains(f) {
                let a = choose|a: int| 0 <= a < done.len() && done[a] == f;
                assert(sorted@[a] < texts.len());
                assert(out@[a]@ == files@[sorted@[a] as int]@);
                assert(models[sorted@[a] as int] == f);
            }
            if models.contains(f) {
                let i = choose|i: int| 0 <= i < models.len() && models[i] == f;
                assert(sorted@.contains(i as usize));
                let a = choose|a: int| 0 <= a < sorted@.len() && sorted@[a] == i as usize;
                assert(out@[a]@ == files@[sorted@[a] as int]@);
                assert(done[a] == f);
            }
        }
    }
    out
}

/// The keys of both archives, the old one first.
spec fn both_keys(old: Seq<EntryModel>, new: Seq<EntryModel>) -> Seq<Seq<u8>> {
    Seq::new(
        old.len() + new.len(),
        |t: int|
            if t < old.len() {
                path_key(old[t].name)
            } else {
                path_key(new[t - old.len()].name)
            },
    )
}

/// Whether `found` is the entry that stands for `key`, if there is one.
spec fn stands_for(entries: Seq<EntryModel>, key: Seq<u8>, found: Option<usize>) -> bool {
    match found {
        None => !has_key(entries, key),
        Some(i) => is_current(entries, i as int) && path_key(entries[i as int].name) == key,
    }
}

/// The last position of the run below `limit`, if there is one.
spec fn last_old(sorted: Seq<usize>, a: int, b: int, limit: int, found: Option<usize>) -> bool {
    match found {
        None => forall|t: int| a <= t < b ==> #[trigger] sorted[t] >= limit,
        Some(i) => i < limit && (exists|t: int| a <= t < b && #[trigger] sorted[t] == i) && forall|
            t: int,
        |
            a <= t < b && #[trigger] sorted[t] < limit ==> sorted[t] <= i,
    }
}

/// The last position of the run from `limit` on, if there is one.
spec fn last_new(sorted: Seq<usize>, a: int, b: int, limit: int, found: Option<usize>) -> bool {
    match found {
        None => forall|t: int| a <= t < b ==> #[trigger] sorted[t] < limit,
        Some(i) => (exists|t: int| a <= t < b && #[trigger] sorted[t] == limit + i) && forall|
            t: int,
        |
            a <= t < b ==> #[trigger] sorted[t] <= limit + i,
    }
}

proof fn lemma_run_stands(
    old: Seq<EntryModel>,
    new: Seq<EntryModel>,
    sorted: Seq<usize>,
    a: int,
    b: int,
    found_old: Option<usize>,
    found_new: Option<usize>,
)
    requires
        order::is_text_order(both_keys(old, new), sorted),
        sorted.len() <= usize::MAX,
        0 <= a < b <= sorted.len(),
        forall|t: int|
            a <= t < b ==> both_keys(old, new)[#[trigger] sorted[t] as int] == both_keys(
                old,
                new,
            )[sorted[a] as int],
        forall|t: int|
            0 <= t < sorted.len() && both_keys(old, new)[#[trigger] sorted[t] as int] == both_keys(
                old,
                new,
            )[sorted[a] as int] ==> a <= t < b,
        last_old(sorted, a, b, old.len() as int, found_old),
        last_new(sorted, a, b, old.len() as int, found_new),
    ensures
        stands_for(old, both_keys(old, new)[sorted[a] as int], found_old),
        stands_for(new, both_keys(old, new)[sorted[a] as int], found_new),
{
    let texts = both_keys(old, new);
    let key = texts[sorted[a] as int];
    let n = old.len() as int;
    assert forall|j: int| 0 <= j < old.len() && path_key(#[trigger] old[j].name) == key implies (
    found_old matches Some(i) && j <= i) by {
        assert(texts[j] == key);
        assert(sorted.contains(j as usize));
        let t = choose|t: int| 0 <= t < sorted.len() && sorted[t] == j as usize;
        assert(texts[sorted[t] as int] == key);
        assert(a <= t < b);
    }
    assert forall|j: int| 0 <= j < new.len() && path_key(#[trigger] new[j].name) == key implies (
    found_new matches Some(i) && j <= i) by {
        assert(texts[n + j] == key);
        assert(sorted.contains((n + j) as usize));
        let t = choose|t: int| 0 <= t < sorted.len() && sorted[t] == (n + j) as usize;
        assert(texts[sorted[t] as int] == key);
        assert(a <= t < b);
    }
    if let Some(i) = found_old {
        let t = choose|t: int| a <= t < b && #[trigger] sorted[t] == i;
        assert(texts[sorted[t] as int] == key);
        assert(path_key(old[i as int].name) == key);
    }
    if let Some(i) = found_new {
        let t = choose|t: int| a <= t < b && #[trigger] sorted[t] == n + i;
        assert(sorted[t] < texts.len());
        assert(texts[sorted[t] as int] == key);
        assert(path_key(new[i as int].name) == key);
    }
}

/// The positions of one key, and the entries that stand for it.
struct KeyRun {
    end: usize,
    old: Option<usize>,
    new: Option<usize>,
}

fn read_run(
    keys: &Vec<TextKey>,
    sorted: &Vec<usize>,
    limit: usize,
    start: usize,
    Ghost(old): Ghost<Seq<EntryModel>>,
    Ghost(new): Ghost<Seq<EntryModel>>,
) -> (r: KeyRun)
    requires
        order::texts_of(keys@) == both_keys(old, new),
        order::is_text_order(both_keys(old, new), sorted@),
        limit == old.len(),
        start < sorted@.len(),
        start > 0 ==> both_keys(old, new)[sorted@[start - 1] as int] != both_keys(
            old,
            new,
        )[sorted@[start as int] as int],
    ensures
        start < r.end <= sorted@.len(),
        forall|t: int|
            start <= t < r.end ==> both_keys(old, new)[#[trigger] sorted@[t] as int] == both_keys(
                old,
                new,
            )[sorted@[start as int] as int],
        r.end < sorted@.len() ==> both_keys(old, new)[sorted@[r.end - 1] as int] != both_keys(
            old,
            new,
        )[sorted@[r.end as int] as int],
        !is_done(
            both_keys(old, new),
            sorted@,
            start as int,
            both_keys(old, new)[sorted@[start as int] as int],
        ),
        stands_for(old, both_keys(old, new)[sorted@[start as int] as int], r.old),
        stands_for(new, both_keys(old, new)[sorted@[start as int] as int], r.new),
{
    let ghost texts = both_keys(old, new);
    let ghost key = texts[sorted@[start as int] as int];
    let mut found_old: Option<usize> = None;
    let mut found_new: Option<usize> = None;
    let mut b: usize = start;
    let mut open: bool = true;
    assert(keys@.len() == order::texts_of(keys@).len());
    assert(sorted@[start as int] < texts.len());
    while b < sorted.len() && open
        invariant
            start <= b <= sorted@.len(),
            start < sorted@.len(),
            b == start ==> open,
            texts == both_keys(old, new),
            order::texts_of(keys@) == texts,
            keys@.len() == texts.len(),
            order::is_text_order(texts, sorted@),
            limit == old.len(),
            key == texts[sorted@[start as int] as int],
            sorted@[start as int] < texts.len(),
            forall|t: int| start <= t < b ==> texts[#[trigger] sorted@[t] as int] == key,
            !open ==> b < sorted@.len() && texts[sorted@[b as int] as int] != key,
            last_old(sorted@, start as int, b as int, limit as int, found_old),
            last_new(sorted@, start as int, b as int, limit as int, found_new),
        decreases sorted@.len() - b,
            if open {
                1int
            } else {
                0
            },
    {
        let index: usize = sorted[b];
        assert(sorted@[b as int] < texts.len());
        assert(texts[index as int] == keys@[index as int].bytes@);
        assert(key == keys@[sorted@[start as int] as int].bytes@);
        if !same_bytes(keys[index].bytes.as_slice(), keys[sorted[start]].bytes.as_slice()) {
            open = false;
        } else {
            proof {
                assert forall|t: int| start <= t < b implies #[trigger] sorted@[t] < index by {
                    assert(order::text_precedes(texts, sorted@[t] as int, sorted@[b as int] as int));
                    assert(texts[sorted@[t] as int] == key);
                    lemma_below(key, key);
                }
            }
            if index < limit {
                found_old = Some(index);
            } else {
                found_new = Some(index - limit);
            }
            b += 1;
            proof {
                assert(sorted@[b - 1] == index);
                if index < limit {
                    assert(last_old(sorted@, start as int, b as int, limit as int, found_old));
                    assert(last_new(sorted@, start as int, b as int, limit as int, found_new));
                } else {
                    assert(last_new(sorted@, start as int, b as int, limit as int, found_new));
                    assert(last_old(sorted@, start as int, b as int, limit as int, found_old));
                }
            }
        }
    }
    proof {
        lemma_run(texts, sorted@, start as int, b as int);
        lemma_run_stands(old, new, sorted@, start as int, b as int, found_old, found_new);
        assert(texts[sorted@[b - 1] as int] == key);
    }
    KeyRun { end: b, old: found_old, new: found_new }
}

/// Whether `files` are those of [`all_single`] whose keys are done.
spec fn some_single(
    mine: Seq<EntryModel>,
    other: Seq<EntryModel>,
    new: bool,
    files: Seq<FileModel>,
    texts: Seq<Seq<u8>>,
    sorted: Seq<usize>,
    a: int,
) -> bool {
    forall|f: FileModel| #[trigger]
        files.contains(f) <==> exists|i: int| #[trigger]
            tells_single(mine, other, i, new, f) && is_done(
                texts,
                sorted,
                a,
                path_key(mine[i].name),
            )
}

/// Whether `files` are those of [`all_modified`] whose keys are done.
spec fn some_modified(
    old: Seq<EntryModel>,
    new: Seq<EntryModel>,
    files: Seq<FileModel>,
    texts: Seq<Seq<u8>>,
    sorted: Seq<usize>,
    a: int,
) -> bool {
    forall|f: FileModel| #[trigger]
        files.contains(f) <==> exists|i: int, j: int| #[trigger]
            tells_modified(old, new, i, j, f) && is_done(
                texts,
                sorted,
                a,
                path_key(new[j].name),
            )
}

proof fn lemma_done_step(
    texts: Seq<Seq<u8>>,
    sorted: Seq<usize>,
    a: int,
    b: int,
    key: Seq<u8>,
)
    requires
        0 <= a < b <= sorted.len(),
        forall|t: int| a <= t < b ==> texts[#[trigger] sorted[t] as int] == texts[sorted[a] as int],
    ensures
        is_done(texts, sorted, b, key) <==> is_done(texts, sorted, a, key) || key
            == texts[sorted[a] as int],
{
    if is_done(texts, sorted, b, key) {
        let t = choose|t: int| 0 <= t < b && texts[#[trigger] sorted[t] as int] == key;
        if t >= a {
            assert(texts[sorted[t] as int] == texts[sorted[a] as int]);
        }
    }
    if key == texts[sorted[a] as int] {
        assert(texts[sorted[a] as int] == key);
    }
}

/// The files that one archive has and the other lacks, with one more key done.
proof fn lemma_single_step(
    mine: Seq<EntryModel>,
    other: Seq<EntryModel>,
    new: bool,
    files: Seq<FileModel>,
    texts: Seq<Seq<u8>>,
    sorted: Seq<usize>,
    a: int,
    b: int,
    here: Option<usize>,
    there: Option<usize>,
)
    requires
        some_single(mine, other, new, files, texts, sorted, a),
        0 <= a < b <= sorted.len(),
        forall|t: int| a <= t < b ==> texts[#[trigger] sorted[t] as int] == texts[sorted[a] as int],
        stands_for(mine, texts[sorted[a] as int], here),
        stands_for(other, texts[sorted[a] as int], there),
    ensures
        here is Some && there is None ==> some_single(
            mine,
            other,
            new,
            files.push(
                if new {
                    added_file(mine[here->Some_0 as int])
                } else {
                    removed_file(mine[here->Some_0 as int])
                },
            ),
            texts,
            sorted,
            b,
        ),
        here is None || there is Some ==> some_single(mine, other, new, files, texts, sorted, b),
{
    let key = texts[sorted[a] as int];
    let extra = if new {
        added_file(mine[here->Some_0 as int])
    } else {
        removed_file(mine[here->Some_0 as int])
    };
    let after = if here is Some && there is None {
        files.push(extra)
    } else {
        files
    };
    assert forall|f: FileModel| #[trigger]
        after.contains(f) <==> exists|i: int| #[trigger]
            tells_single(mine, other, i, new, f) && is_done(
                texts,
                sorted,
                b,
                path_key(mine[i].name),
            ) by {
        if after.contains(f) {
            let x = choose|x: int| 0 <= x < after.len() && after[x] == f;
            if x < files.len() {
                assert(files[x] == f);
                assert(files.contains(f));
                let i = choose|i: int| #[trigger]
                    tells_single(mine, other, i, new, f) && is_done(
                        texts,
                        sorted,
                        a,
                        path_key(mine[i].name),
                    );
                lemma_done_step(texts, sorted, a, b, path_key(mine[i].name));
                assert(tells_single(mine, other, i, new, f));
            } else {
                let i = here->Some_0 as int;
                lemma_done_step(texts, sorted, a, b, path_key(mine[i].name));
                assert(tells_single(mine, other, i, new, f));
            }
        }
        if exists|i: int| #[trigger]
            tells_single(mine, other, i, new, f) && is_done(
                texts,
                sorted,
                b,
                path_key(mine[i].name),
            ) {
            let i = choose|i: int| #[trigger]
                tells_single(mine, other, i, new, f) && is_done(
                    texts,
                    sorted,
                    b,
                    path_key(mine[i].name),
                );
            lemma_done_step(texts, sorted, a, b, path_key(mine[i].name));
            if is_done(texts, sorted, a, path_key(mine[i].name)) {
                assert(files.contains(f));
                let x = choose|x: int| 0 <= x < files.len() && files[x] == f;
                assert(after[x] == f);
            } else {
                assert(path_key(mine[i].name) == key);
                assert(has_key(mine, key));
                assert(there is None);
                let h = here->Some_0 as int;
                assert(path_key(mine[h].name) == path_key(mine[i].name));
                assert(h == i);
                assert(after[files.len() as int] == f);
            }
        }
    }
}

/// The modified files, with one more key done.
proof fn lemma_modified_step(
    old: Seq<EntryModel>,
    new: Seq<EntryModel>,
    files: Seq<FileModel>,
    texts: Seq<Seq<u8>>,
    sorted: Seq<usize>,
    a: int,
    b: int,
    found_old: Option<usize>,
    found_new: Option<usize>,
)
    requires
        some_modified(old, new, files, texts, sorted, a),
        0 <= a < b <= sorted.len(),
        forall|t: int| a <= t < b ==> texts[#[trigger] sorted[t] as int] == texts[sorted[a] as int],
        stands_for(old, texts[sorted[a] as int], found_old),
        stands_for(new, texts[sorted[a] as int], found_new),
    ensures
        ({
            let changed = found_old is Some && found_new is Some
                && old[found_old->Some_0 as int].crc32 != new[found_new->Some_0 as int].crc32;
            let after = if changed {
                files.push(
                    modified_file(old[found_old->Some_0 as int], new[found_new->Some_0 as int]),
                )
            } else {
                files
            };
            some_modified(old, new, after, texts, sorted, b)
        }),
{
    let key = texts[sorted[a] as int];
    let changed = found_old is Some && found_new is Some && old[found_old->Some_0 as int].crc32
        != new[found_new->Some_0 as int].crc32;
    let after = if changed {
        files.push(modified_file(old[found_old->Some_0 as int], new[found_new->Some_0 as int]))
    } else {
        files
    };
    assert forall|f: FileModel| #[trigger]
        after.contains(f) <==> exists|i: int, j: int| #[trigger]
            tells_modified(old, new, i, j, f) && is_done(
                texts,
                sorted,
                b,
                path_key(new[j].name),
            ) by {
        if after.contains(f) {
            let x = choose|x: int| 0 <= x < after.len() && after[x] == f;
            if x < files.len() {
                assert(files[x] == f);
                assert(files.contains(f));
                let (i, j) = choose|i: int, j: int| #[trigger]
                    tells_modified(old, new, i, j, f) && is_done(
                        texts,
                        sorted,
                        a,
                        path_key(new[j].name),
                    );
                lemma_done_step(texts, sorted, a, b, path_key(new[j].name));
                assert(tells_modified(old, new, i, j, f));
            } else {
                let i = found_old->Some_0 as int;
                let j = found_new->Some_0 as int;
                lemma_done_step(texts, sorted, a, b, path_key(new[j].name));
                assert(tells_modified(old, new, i, j, f));
            }
        }
        if exists|i: int, j: int| #[trigger]
            tells_modified(old, new, i, j, f) && is_done(
                texts,
                sorted,
                b,
                path_key(new[j].name),
            ) {
            let (i, j) = choose|i: int, j: int| #[trigger]
                tells_modified(old, new, i, j, f) && is_done(
                    texts,
                    sorted,
                    b,
                    path_key(new[j].name),
                );
            lemma_done_step(texts, sorted, a, b, path_key(new[j].name));
            if is_done(texts, sorted, a, path_key(new[j].name)) {
                assert(files.contains(f));
                let x = choose|x: int| 0 <= x < files.len() && files[x] == f;
                assert(after[x] == f);
            } else {
                assert(path_key(new[j].name) == key && path_key(old[i].name) == key);
                assert(has_key(old, key) && has_key(new, key));
                let h = found_old->Some_0 as int;
                let g = found_new->Some_0 as int;
                assert(path_key(old[h].name) == path_key(old[i].name));
                assert(path_key(new[g].name) == path_key(new[j].name));
                assert(h == i && g == j);
                assert(after[files.len() as int] == f);
            }
        }
    }
}

/// The models of borrowed entries.
pub open spec fn ref_models(entries: Seq<P4kEntryRef<'_>>) -> Seq<EntryModel> {
    Seq::new(entries.len(), |i: int| entries[i]@)
}

fn collect_keys(old: &Vec<P4kEntryRef<'_>>, new: &Vec<P4kEntryRef<'_>>) -> (keys: Vec<TextKey>)
    ensures
        order::texts_of(keys@) == both_keys(ref_models(old@), ref_models(new@)),
{
    let ghost texts = both_keys(ref_models(old@), ref_models(new@));
    let mut keys: Vec<TextKey> = Vec::new();
    let mut i: usize = 0;
    while i < old.len()
        invariant
            i <= old@.len(),
            keys@.len() == i,
            texts == both_keys(ref_models(old@), ref_models(new@)),
            forall|t: int| 0 <= t < i ==> (#[trigger] keys@[t]).bytes@ == texts[t],
        decreases old@.len() - i,
    {
        assert(ref_models(old@)[i as int] == old@[i as int]@);
        let normal: String = normalize_path(old[i].name);
        keys.push(TextKey { bytes: slice_to_vec(normal.as_str().as_bytes()) });
        i += 1;
    }
    let mut j: usize = 0;
    while j < new.len()
        invariant
            j <= new@.len(),
            keys@.len() == old@.len() + j,
            texts == both_keys(ref_models(old@), ref_models(new@)),
            forall|t: int| 0 <= t < old@.len() + j ==> (#[trigger] keys@[t]).bytes@ == texts[t],
        decreases new@.len() - j,
    {
        assert(ref_models(new@)[j as int] == new@[j as int]@);
        let normal: String = normalize_path(new[j].name);
        keys.push(TextKey { bytes: slice_to_vec(normal.as_str().as_bytes()) });
        j += 1;
    }
    assert(order::texts_of(keys@) =~= texts);
    keys
}

/// Compare two lists of entries.
///
/// Files are matched by path, whatever its case and separators; where a path
/// occurs more than once, the last entry stands for it. Each result list
/// holds exactly the files that it should, in order of their small paths.
pub fn compare_entries(old: &Vec<P4kEntryRef<'_>>, new: &Vec<P4kEntryRef<'_>>) -> (r:
    P4kComparisonResult)
    ensures
        all_single(ref_models(new@), ref_models(old@), true, file_models(r.added@)),
        all_single(ref_models(old@), ref_models(new@), false, file_models(r.removed@)),
        all_modified(ref_models(old@), ref_models(new@), file_models(r.modified@)),
        in_path_order(file_models(r.added@)),
        in_path_order(file_models(r.removed@)),
        in_path_order(file_models(r.modified@)),
        r.old_count == old@.len(),
        r.new_count == new@.len(),
{
    let ghost olds = ref_models(old@);
    let ghost news = ref_models(new@);
    let ghost texts = both_keys(olds, news);
    let keys: Vec<TextKey> = collect_keys(old, new);
    let sorted: Vec<usize> = sort_texts(keys.as_slice());
    let mut added: Vec<FileComparisonResult> = Vec::new();
    let mut removed: Vec<FileComparisonResult> = Vec::new();
    let mut modified: Vec<FileComparisonResult> = Vec::new();
    let mut a: usize = 0;
    proof {
        assert(file_models(added@) =~= Seq::empty());
        assert(file_models(removed@) =~= Seq::empty());
        assert(file_models(modified@) =~= Seq::empty());
    }
    while a < sorted.len()
        invariant
            a <= sorted@.len(),
            olds == ref_models(old@),
            news == ref_models(new@),
            texts == both_keys(olds, news),
            order::texts_of(keys@) == texts,
            order::is_text_order(texts, sorted@),
            0 < a < sorted@.len() ==> texts[sorted@[a - 1] as int] != texts[sorted@[a as int] as int],
            some_single(news, olds, true, file_models(added@), texts, sorted@, a as int),
            some_single(olds, news, false, file_models(removed@), texts, sorted@, a as int),
            some_modified(olds, news, file_models(modified@), texts, sorted@, a as int),
            distinct_keys(file_models(added@)),
            distinct_keys(file_models(removed@)),
            distinct_keys(file_models(modified@)),
            keys_done(file_models(added@), texts, sorted@, a as int),
            keys_done(file_models(removed@), texts, sorted@, a as int),
            keys_done(file_models(modified@), texts, sorted@, a as int),
        decreases sorted@.len() - a,
    {
        let run = read_run(&keys, &sorted, old.len(), a, Ghost(olds), Ghost(news));
        let ghost b = run.end as int;
        let ghost before_added = file_models(added@);
        let ghost before_removed = file_models(removed@);
        let ghost before_modified = file_models(modified@);
        proof {
            lemma_single_step(
                news,
                olds,
                true,
                before_added,
                texts,
                sorted@,
                a as int,
                b,
                run.new,
                run.old,
            );
            lemma_single_step(
                olds,
                news,
                false,
                before_removed,
                texts,
                sorted@,
                a as int,
                b,
                run.old,
                run.new,
            );
            lemma_modified_step(
                olds,
                news,
                before_modified,
                texts,
                sorted@,
                a as int,
                b,
                run.old,
                run.new,
            );
            lemma_done_more(before_added, texts, sorted@, a as int, b);
            lemma_done_more(before_removed, texts, sorted@, a as int, b);
            lemma_done_more(before_modified, texts, sorted@, a as int, b);
        }
        match (run.old, run.new) {
            (None, Some(j)) => {
                let e = &new[j];
                assert(news[j as int] == e@);
                let f = FileComparisonResult {
                    path: String::from_str(e.name),
                    status: DiffStatus::Added,
                    size_old: None,
                    size_new: Some(e.uncompressed_size),
                    crc_old: None,
                    crc_new: Some(e.crc32),
                };
                added.push(f);
                proof {
                    assert(file_models(added@) =~= before_added.push(added_file(news[j as int])));
                    lemma_push_result(
                        before_added,
                        added_file(news[j as int]),
                        texts,
                        sorted@,
                        a as int,
                        b,
                    );
                }
            },
            (Some(i), None) => {
                let e = &old[i];
                assert(olds[i as int] == e@);
                let f = FileComparisonResult {
                    path: String::from_str(e.name),
                    status: DiffStatus::Removed,
                    size_old: Some(e.uncompressed_size),
                    size_new: None,
                    crc_old: Some(e.crc32),
                    crc_new: None,
                };
                removed.push(f);
                proof {
                    assert(file_models(removed@) =~= before_removed.push(
                        removed_file(olds[i as int]),
                    ));
                    lemma_push_result(
                        before_removed,
                        removed_file(olds[i as int]),
                        texts,
                        sorted@,
                        a as int,
                        b,
                    );
                }
            },
            (Some(i), Some(j)) => {
                let e = &old[i];
                let n = &new[j];
                assert(olds[i as int] == e@);
                assert(news[j as int] == n@);
                if e.crc32 != n.crc32 {
                    let f = FileComparisonResult {
                        path: String::from_str(n.name),
                        status: DiffStatus::Modified,
                        size_old: Some(e.uncompressed_size),
                        size_new: Some(n.uncompressed_size),
                        crc_old: Some(e.crc32),
                        crc_new: Some(n.crc32),
                    };
                    modified.push(f);
                    proof {
                        let made = modified_file(olds[i as int], news[j as int]);
                        assert(file_models(modified@) =~= before_modified.push(made));
                        lemma_push_result(before_modified, made, texts, sorted@, a as int, b);
                    }
                }
            },
            (None, None) => {},
        }
        a = run.end;
    }
    proof {
        assert forall|i: int| 0 <= i < news.len() implies is_done(
            texts,
            sorted@,
            a as int,
            path_key(#[trigger] news[i].name),
        ) by {
            let t = olds.len() + i;
            assert(texts[t] == path_key(news[i].name));
            assert(sorted@.contains(t as usize));
            let k = choose|k: int| 0 <= k < sorted@.len() && sorted@[k] == t as usize;
            assert(texts[sorted@[k] as int] == path_key(news[i].name));
        }
        assert forall|i: int| 0 <= i < olds.len() implies is_done(
            texts,
            sorted@,
            a as int,
            path_key(#[trigger] olds[i].name),
        ) by {
            assert(texts[i] == path_key(olds[i].name));
            assert(sorted@.contains(i as usize));
            let k = choose|k: int| 0 <= k < sorted@.len() && sorted@[k] == i as usize;
            assert(texts[sorted@[k] as int] == path_key(olds[i].name));
        }
        lemma_all_done(
            olds,
            news,
            file_models(added@),
            file_models(removed@),
            file_models(modified@),
            texts,
            sorted@,
            a as int,
        );
    }
    P4kComparisonResult {
        added: sort_files(&added),
        removed: sort_files(&removed),
        modified: sort_files(&modified),
        old_count: old.len(),
        new_count: new.len(),
    }
}

proof fn lemma_all_done(
    old: Seq<EntryModel>,
    new: Seq<EntryModel>,
    added: Seq<FileModel>,
    removed: Seq<FileModel>,
    modified: Seq<FileModel>,
    texts: Seq<Seq<u8>>,
    sorted: Seq<usize>,
    a: int,
)
    requires
        some_single(new, old, true, added, texts, sorted, a),
        some_single(old, new, false, removed, texts, sorted, a),
        some_modified(old, new, modified, texts, sorted, a),
        forall|i: int|
            0 <= i < new.len() ==> is_done(texts, sorted, a, path_key(#[trigger] new[i].name)),
        forall|i: int|
            0 <= i < old.len() ==> is_done(texts, sorted, a, path_key(#[trigger] old[i].name)),
    ensures
        all_single(new, old, true, added),
        all_single(old, new, false, removed),
        all_modified(old, new, modified),
{
    assert forall|f: FileModel| #[trigger]
        added.contains(f) <==> exists|i: int| #[trigger] tells_single(new, old, i, true, f) by {
        if exists|i: int| #[trigger] tells_single(new, old, i, true, f) {
            let i = choose|i: int| #[trigger] tells_single(new, old, i, true, f);
            assert(is_done(texts, sorted, a, path_key(new[i].name)));
        }
    }
    assert forall|f: FileModel| #[trigger]
        removed.contains(f) <==> exists|i: int| #[trigger] tells_single(old, new, i, false, f) by {
        if exists|i: int| #[trigger] tells_single(old, new, i, false, f) {
            let i = choose|i: int| #[trigger] tells_single(old, new, i, false, f);
            assert(is_done(texts, sorted, a, path_key(old[i].name)));
        }
    }
    assert forall|f: FileModel| #[trigger]
        modified.contains(f) <==> exists|i: int, j: int| #[trigger]
            tells_modified(old, new, i, j, f) by {
        if exists|i: int, j: int| #[trigger] tells_modified(old, new, i, j, f) {
            let (i, j) = choose|i: int, j: int| #[trigger] tells_modified(old, new, i, j, f);
            assert(is_done(texts, sorted, a, path_key(new[j].name)));
        }
    }
}

/// Compare two P4K archives and give the differences.
///
/// Files are matched by path (case-insensitive). Modified files are detected
/// by comparing CRC32C checksums.
pub fn compare_archives(old_archive: &P4kArchive<'_>, new_archive: &P4kArchive<'_>) -> (r:
    P4kComparisonResult)
    ensures
        ({
            let old = old_archive@.directory.entries;
            let new = new_archive@.directory.entries;
            &&& all_single(new, old, true, file_models(r.added@))
            &&& all_single(old, new, false, file_models(r.removed@))
            &&& all_modified(old, new, file_models(r.modified@))
            &&& in_path_order(file_models(r.added@))
            &&& in_path_order(file_models(r.removed@))
            &&& in_path_order(file_models(r.modified@))
            &&& r.old_count == old.len()
            &&& r.new_count == new.len()
        }),
{
    let old = old_archive.iter();
    let new = new_archive.iter();
    assert(ref_models(old@) =~= old_archive@.directory.entries);
    assert(ref_models(new@) =~= new_archive@.directory.entries);
    compare_entries(&old, &new)
}

/// An archive compared with itself shows no change.
pub proof fn law_compare_with_itself(
    entries: Seq<EntryModel>,
    added: Seq<FileModel>,
    removed: Seq<FileModel>,
    modified: Seq<FileModel>,
)
    requires
        all_single(entries, entries, true, added),
        all_single(entries, entries, false, removed),
        all_modified(entries, entries, modified),
    ensures
        added.len() == 0,
        removed.len() == 0,
        modified.len() == 0,
{
    if added.len() > 0 {
        assert(added.contains(added[0]));
        let i = choose|i: int| #[trigger] tells_single(entries, entries, i, true, added[0]);
        assert(path_key(entries[i].name) == path_key(entries[i].name));
    }
    if removed.len() > 0 {
        assert(removed.contains(removed[0]));
        let i = choose|i: int| #[trigger] tells_single(entries, entries, i, false, removed[0]);
        assert(path_key(entries[i].name) == path_key(entries[i].name));
    }
    if modified.len() > 0 {
        assert(modified.contains(modified[0]));
        let (i, j) = choose|i: int, j: int| #[trigger]
            tells_modified(entries, entries, i, j, modified[0]);
        if i < j {
            assert(path_key(entries[j].name) != path_key(entries[i].name));
        } else if j < i {
            assert(path_key(entries[i].name) != path_key(entries[j].name));
        }
    }
}

/// The files that are added one way round are those removed the other way round.
pub proof fn law_compare_swapped(
    old: Seq<EntryModel>,
    new: Seq<EntryModel>,
    added: Seq<FileModel>,
    removed: Seq<FileModel>,
)
    requires
        all_single(new, old, true, added),
        all_single(new, old, false, removed),
    ensures
        forall|f: FileModel| #[trigger]
            added.contains(f) ==> exists|g: FileModel| #[trigger]
                removed.contains(g) && g.path == f.path,
        forall|g: FileModel| #[trigger]
            removed.contains(g) ==> exists|f: FileModel| #[trigger]
                added.contains(f) && f.path == g.path,
{
    assert forall|f: FileModel| #[trigger] added.contains(f) implies exists|g: FileModel| #[trigger]
        removed.contains(g) && g.path == f.path by {
        let i = choose|i: int| #[trigger] tells_single(new, old, i, true, f);
        assert(tells_single(new, old, i, false, removed_file(new[i])));
        assert(removed.contains(removed_file(new[i])));
    }
    assert forall|g: FileModel| #[trigger]
        removed.contains(g) implies exists|f: FileModel| #[trigger]
        added.contains(f) && f.path == g.path by {
        let i = choose|i: int| #[trigger] tells_single(new, old, i, false, g);
        assert(tells_single(new, old, i, true, added_file(new[i])));
        assert(added.contains(added_file(new[i])));
    }
}

} // verus!
