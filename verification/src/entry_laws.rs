//! What the file name and the extension of a path are.
use vstd::prelude::*;
use vstd::seq::*;
use vstd::seq_lib::*;

use crate::entry;

verus! {

/// The part holds no slash.
pub open spec fn is_unslashed(part: Seq<u8>) -> bool {
    forall|j: int| 0 <= j < part.len() ==> part[j] != 0x2F
}

/// The path is empty or ends in a slash.
pub open spec fn is_front(front: Seq<u8>) -> bool {
    front.len() > 0 ==> front.last() == 0x2F
}

proof fn lemma_last_part(front: Seq<u8>, part: Seq<u8>)
    requires
        is_front(front),
        is_unslashed(part),
    ensures
        entry::last_part(front + part) == part,
    decreases part.len(),
{
    let all = front + part;
    if part.len() == 0 {
        assert(all =~= front);
        assert(part =~= Seq::empty());
    } else {
        let short = part.drop_last();
        assert(all.drop_last() =~= front + short);
        assert(all.last() == part.last());
        lemma_last_part(front, short);
        assert(short.push(part.last()) =~= part);
    }
}

/// The file name of a path is what stands behind the last slash, unless that is a dot,
/// or two dots, which name no file.
pub proof fn law_file_name(front: Seq<u8>, part: Seq<u8>)
    requires
        is_front(front),
        is_unslashed(part),
        part.len() > 0,
    ensures
        !(part.len() == 1 && part[0] == 0x2E) && !(part.len() == 2 && part[0] == 0x2E && part[1]
            == 0x2E) ==> entry::file_name(front + part) == Some(part),
        part.len() == 2 && part[0] == 0x2E && part[1] == 0x2E ==> entry::file_name(
            front + part,
        ) is None,
        part.len() == 1 && part[0] == 0x2E && front.len() == 0 ==> entry::file_name(
            front + part,
        ) is None,
        part.len() == 1 && part[0] == 0x2E && front.len() > 0 ==> entry::file_name(front + part)
            == entry::file_name(front),
{
    lemma_last_part(front, part);
    assert((front + part).drop_last() =~= front + part.drop_last());
    if part.len() == 1 {
        assert(part.drop_last() =~= Seq::empty());
        assert(front + part.drop_last() =~= front);
        if part[0] == 0x2E {
            assert(part =~= seq![crate::path::DOT]);
        }
    }
    if part.len() == 2 && part[0] == 0x2E && part[1] == 0x2E {
        assert(part =~= seq![crate::path::DOT, crate::path::DOT]);
    }
}

/// A slash at the end of a path does not change its file name, and slashes alone have
/// none.
pub proof fn law_trailing_slash(path: Seq<u8>)
    ensures
        entry::file_name(path.push(0x2F)) == entry::file_name(path),
        entry::file_name(Seq::empty()) is None,
{
    assert(path.push(0x2F).drop_last() =~= path);
    assert(path.push(0x2F).last() == 0x2F);
}

/// The extension of a file name is what stands behind its last dot, where something
/// stands before that; it has none otherwise.
pub proof fn law_name_extension(stem: Seq<u8>, extension: Seq<u8>)
    requires
        forall|j: int| 0 <= j < extension.len() ==> extension[j] != 0x2E,
    ensures
        stem.len() > 0 ==> entry::name_extension(stem.push(0x2E) + extension) == Some(extension),
        entry::name_extension(seq![0x2Eu8] + extension) is None,
        entry::name_extension(extension) is None,
    decreases extension.len(),
{
    let dotted = stem.push(0x2E);
    if extension.len() == 0 {
        assert(dotted + extension =~= dotted);
        assert(seq![0x2Eu8] + extension =~= seq![0x2Eu8]);
        assert(extension =~= Seq::empty());
    } else {
        let short = extension.drop_last();
        law_name_extension(stem, short);
        assert((dotted + extension).drop_last() =~= dotted + short);
        assert((dotted + extension).last() == extension.last());
        assert((seq![0x2Eu8] + extension).drop_last() =~= seq![0x2Eu8] + short);
        assert((seq![0x2Eu8] + extension).last() == extension.last());
        assert(short.push(extension.last()) =~= extension);
    }
}

/// The extension of a path is that of its file name.
pub proof fn law_path_extension(front: Seq<u8>, stem: Seq<u8>, extension: Seq<u8>)
    requires
        is_front(front),
        is_unslashed(stem),
        is_unslashed(extension),
        stem.len() > 0,
        !(stem.len() == 1 && stem[0] == 0x2E && extension.len() == 0),
        forall|j: int| 0 <= j < extension.len() ==> extension[j] != 0x2E,
    ensures
        entry::path_extension(front + (stem.push(0x2E) + extension)) == Some(extension),
{
    let part = stem.push(0x2E) + extension;
    assert(is_unslashed(part));
    if part.len() == 2 && part[0] == 0x2E && part[1] == 0x2E {
        assert(stem[0] == part[0]);
    }
    law_file_name(front, part);
    law_name_extension(stem, extension);
}

/// A name is that of a directory if and only if it ends in a slash or a backslash.
pub proof fn law_directory_name(name: Seq<u8>)
    ensures
        entry::is_dir_name(name) <==> name.len() > 0 && (name[name.len() - 1] == 0x2F || name[
        name.len() - 1] == 0x5C),
{
}

} // verus!
