//! Which files a dump of an archive makes.

use vstd::prelude::*;
use vstd::seq::*;
use vstd::seq_lib::*;
use vstd::slice::*;
use vstd::string::*;
use vstd::utf8::*;

use crate::archive::model::{EntryModel, P4kEntryRef};
use crate::archive::reader::P4kArchive;
use crate::bytes::same_bytes;
use crate::entry;
use crate::error::{Fault, Result};
use crate::order;
use crate::order::{sort_texts, TextKey};
use crate::path;
use crate::path::safe_output_path;

verus! {

/// An entry that is dumped, and its path below the output directory.
#[derive(Debug)]
pub struct DumpTask {
    pub index: usize,
    pub path: String,
}

impl View for DumpTask {
    type V = (int, Seq<u8>);

    open spec fn view(&self) -> (int, Seq<u8>) {
        (self.index as int, encode_utf8(self.path@))
    }
}

/// The models of a run of tasks.
pub open spec fn task_models(tasks: Seq<DumpTask>) -> Seq<(int, Seq<u8>)> {
    Seq::new(tasks.len(), |i: int| tasks[i]@)
}

/// The files that a dump makes of the first `count` entries, or why the first
/// bad one cannot be dumped. Directories are left out.
pub open spec fn dump_outcome(entries: Seq<EntryModel>, count: nat) -> std::result::Result<
    Seq<(int, Seq<u8>)>,
    Fault,
>
    decreases count,
{
    if count == 0 {
        Ok(Seq::empty())
    } else {
        let name = entries[count - 1].name;
        match dump_outcome(entries, (count - 1) as nat) {
            Err(fault) => Err(fault),
            Ok(tasks) => if entry::is_dir_name(encode_utf8(name)) {
                Ok(tasks)
            } else {
                match path::output_path_outcome(name) {
                    Err(fault) => Err(fault),
                    Ok(path) => Ok(tasks.push((count - 1, path))),
                }
            },
        }
    }
}

proof fn lemma_dump_fault_stays(entries: Seq<EntryModel>, k: nat, count: nat)
    requires
        k <= count,
        dump_outcome(entries, k) is Err,
    ensures
        dump_outcome(entries, count) == dump_outcome(entries, k),
    decreases count - k,
{
    if k < count {
        lemma_dump_fault_stays(entries, k, (count - 1) as nat);
    }
}

/// Plan a dump of an archive.
pub fn plan_dump(archive: &P4kArchive<'_>) -> (r: Result<Vec<DumpTask>>)
    ensures
        match r {
            Ok(tasks) => dump_outcome(archive@.directory.entries, archive@.directory.entries.len())
                == Ok::<Seq<(int, Seq<u8>)>, Fault>(task_models(tasks@)),
            Err(e) => dump_outcome(archive@.directory.entries, archive@.directory.entries.len())
                == Err::<Seq<(int, Seq<u8>)>, Fault>(e@),
        },
{
    let ghost entries = archive@.directory.entries;
    let refs: Vec<P4kEntryRef<'_>> = archive.iter();
    let mut tasks: Vec<DumpTask> = Vec::new();
    let mut i: usize = 0;
    assert(task_models(tasks@) =~= Seq::empty());
    while i < refs.len()
        invariant
            i <= refs@.len(),
            refs@.len() == entries.len(),
            entries == archive@.directory.entries,
            forall|j: int| 0 <= j < refs@.len() ==> (#[trigger] refs@[j])@ == entries[j],
            dump_outcome(entries, i as nat) == Ok::<Seq<(int, Seq<u8>)>, Fault>(
                task_models(tasks@),
            ),
        decreases refs@.len() - i,
    {
        let name: &str = refs[i].name;
        assert(refs@[i as int]@ == entries[i as int]);
        let ghost next = dump_outcome(entries, (i + 1) as nat);
        let bytes: &[u8] = name.as_bytes();
        if !(bytes.len() > 0 && (bytes[bytes.len() - 1] == path::SLASH || bytes[bytes.len() - 1]
            == path::BACKSLASH)) {
            match safe_output_path(name) {
                Err(e) => {
                    proof {
                        lemma_dump_fault_stays(entries, (i + 1) as nat, entries.len());
                    }
                    return Err(e);
                },
                Ok(path) => {
                    let ghost before = tasks@;
                    tasks.push(DumpTask { index: i, path });
                    assert(task_models(tasks@) =~= task_models(before).push(tasks@.last()@));
                },
            }
        }
        i += 1;
    }
    Ok(tasks)
}

/// Whether two tasks make the same file.
pub open spec fn has_repeated_path(tasks: Seq<(int, Seq<u8>)>) -> bool {
    exists|i: int, j: int|
        0 <= i < j < tasks.len() && (#[trigger] tasks[i]).1 == (#[trigger] tasks[j]).1
}

proof fn lemma_equal_neighbours(
    texts: Seq<Seq<u8>>,
    sorted: Seq<usize>,
    a: int,
    b: int,
)
    requires
        order::is_text_order(texts, sorted),
        0 <= a < b < sorted.len(),
        texts[sorted[a] as int] == texts[sorted[b] as int],
    ensures
        texts[sorted[a] as int] == texts[sorted[a + 1] as int],
{
    let ta = texts[sorted[a] as int];
    let tn = texts[sorted[a + 1] as int];
    if a + 1 < b {
        assert(order::text_precedes(texts, sorted[a] as int, sorted[a + 1] as int));
        assert(order::text_precedes(texts, sorted[a + 1] as int, sorted[b] as int));
        order::lemma_bytes_below_total(ta, tn);
        order::lemma_bytes_below_order(ta, tn);
    }
}

/// Tell whether two tasks make the same file, in which case the later one has
/// to wait for the earlier one.
pub fn repeats_path(tasks: &Vec<DumpTask>) -> (r: bool)
    ensures
        r == has_repeated_path(task_models(tasks@)),
{
    let ghost models = task_models(tasks@);
    let mut keys: Vec<TextKey> = Vec::new();
    let mut i: usize = 0;
    while i < tasks.len()
        invariant
            i <= tasks@.len(),
            keys@.len() == i,
            forall|j: int|
                0 <= j < i ==> (#[trigger] keys@[j]).bytes@ == encode_utf8(tasks@[j].path@),
        decreases tasks@.len() - i,
    {
        keys.push(TextKey { bytes: slice_to_vec(tasks[i].path.as_str().as_bytes()) });
        i += 1;
    }
    let ghost texts = order::texts_of(keys@);
    assert forall|j: int| 0 <= j < texts.len() implies #[trigger] texts[j] == models[j].1 by {
        assert(keys@[j].bytes@ == encode_utf8(tasks@[j].path@));
    }
    let sorted: Vec<usize> = sort_texts(keys.as_slice());
    let mut k: usize = 1;
    while k < sorted.len()
        invariant
            1 <= k,
            sorted@.len() == keys@.len(),
            texts == order::texts_of(keys@),
            texts.len() == models.len(),
            models == task_models(tasks@),
            order::is_text_order(texts, sorted@),
            forall|j: int| 0 <= j < texts.len() ==> #[trigger] texts[j] == models[j].1,
            forall|a: int|
                0 <= a && a + 1 < k && a + 1 < sorted@.len() ==> texts[#[trigger] sorted@[a] as int]
                    != texts[sorted@[a + 1] as int],
        decreases sorted@.len() - k,
    {
        assert(sorted@[k - 1] < texts.len());
        assert(sorted@[k as int] < texts.len());
        let one: usize = sorted[k - 1];
        let other: usize = sorted[k];
        assert(texts[one as int] == keys@[one as int].bytes@);
        assert(texts[other as int] == keys@[other as int].bytes@);
        if same_bytes(keys[one].bytes.as_slice(), keys[other].bytes.as_slice()) {
            proof {
                assert(order::text_precedes(texts, one as int, other as int));
                order::lemma_bytes_below_order(texts[one as int], texts[one as int]);
                assert(models[one as int].1 == models[other as int].1);
            }
            return true;
        }
        k += 1;
    }
    proof {
        if has_repeated_path(models) {
            let (i, j) = choose|i: int, j: int|
                0 <= i < j < models.len() && (#[trigger] models[i]).1 == (#[trigger] models[j]).1;
            assert(texts[i] == texts[j]);
            assert(sorted@.contains(i as usize));
            assert(sorted@.contains(j as usize));
            let a = choose|a: int| 0 <= a < sorted@.len() && sorted@[a] == i as usize;
            let b = choose|b: int| 0 <= b < sorted@.len() && sorted@[b] == j as usize;
            if a < b {
                lemma_equal_neighbours(texts, sorted@, a, b);
            } else {
                lemma_equal_neighbours(texts, sorted@, b, a);
            }
        }
    }
    false
}

/// Every file of a dump belongs to an entry of the archive, is named like it,
/// and stays below the output directory: no component of its path is empty,
/// `.` or `..`, and no colon stands in it.
pub proof fn law_dump_stays_below(entries: Seq<EntryModel>, count: nat, k: int)
    requires
        count <= entries.len(),
        dump_outcome(entries, count) is Ok,
        0 <= k < dump_outcome(entries, count)->Ok_0.len(),
    ensures
        ({
            let task = dump_outcome(entries, count)->Ok_0[k];
            &&& 0 <= task.0 < count
            &&& !entry::is_dir_name(encode_utf8(entries[task.0].name))
            &&& task.1 == path::replaced(
                encode_utf8(entries[task.0].name),
                path::BACKSLASH,
                path::SLASH,
            )
            &&& path::ordinary_components(task.1)
            &&& !task.1.contains(path::COLON)
        }),
    decreases count,
{
    if count > 0 {
        let before = dump_outcome(entries, (count - 1) as nat)->Ok_0;
        if k < before.len() {
            law_dump_stays_below(entries, (count - 1) as nat, k);
        }
    }
}

/// Whether a name ends in a slash or a backslash.
pub open spec fn names_directory(name: Seq<char>) -> bool {
    let n = encode_utf8(name);
    n.len() > 0 && (n[n.len() - 1] == 0x2F || n[n.len() - 1] == 0x5C)
}

/// Where exactly one task is to be found for an entry.
pub open spec fn is_task_of(tasks: Seq<(int, Seq<u8>)>, k: int, i: int) -> bool {
    &&& 0 <= k < tasks.len()
    &&& tasks[k].0 == i
    &&& forall|j: int| 0 <= j < tasks.len() && (#[trigger] tasks[j]).0 == i ==> j == k
}

/// A dump leaves nothing out: every entry whose name does not end in a separator
/// has exactly one task, directories have none, and the tasks stand in the order
/// of their entries.
pub proof fn law_dump_is_complete(entries: Seq<EntryModel>, count: nat)
    requires
        count <= entries.len(),
        dump_outcome(entries, count) is Ok,
    ensures
        ({
            let tasks = dump_outcome(entries, count)->Ok_0;
            &&& forall|a: int, b: int|
                0 <= a < b < tasks.len() ==> (#[trigger] tasks[a]).0 < (#[trigger] tasks[b]).0
            &&& forall|a: int|
                0 <= a < tasks.len() ==> {
                    let i = (#[trigger] tasks[a]).0;
                    0 <= i < count && !names_directory(entries[i].name)
                }
            &&& forall|i: int|
                0 <= i < count && !names_directory((#[trigger] entries[i]).name) ==> exists|k: int|
                     #[trigger] is_task_of(tasks, k, i)
        }),
    decreases count,
{
    let tasks = dump_outcome(entries, count)->Ok_0;
    if count > 0 {
        let n = (count - 1) as nat;
        let before = dump_outcome(entries, n)->Ok_0;
        law_dump_is_complete(entries, n);
        assert forall|a: int| 0 <= a < before.len() implies before[a] == #[trigger] tasks[a] by {}
        assert forall|i: int|
            0 <= i < count && !names_directory((#[trigger] entries[i]).name) implies exists|k: int|
             #[trigger] is_task_of(tasks, k, i) by {
            if i < n {
                let k = choose|k: int| #[trigger] is_task_of(before, k, i);
                assert(is_task_of(tasks, k, i));
            } else {
                assert(is_task_of(tasks, before.len() as int, i));
            }
        }
    }
}

/// A dump is planned if and only if every entry whose name does not end in a
/// separator has a path that stays below the output directory.
pub proof fn law_dump_is_planned(entries: Seq<EntryModel>, count: nat)
    requires
        count <= entries.len(),
    ensures
        dump_outcome(entries, count) is Ok <==> forall|i: int|
            0 <= i < count && !names_directory((#[trigger] entries[i]).name)
                ==> path::output_path_outcome(entries[i].name) is Ok,
    decreases count,
{
    if count > 0 {
        let n = (count - 1) as nat;
        law_dump_is_planned(entries, n);
        let all = forall|i: int|
            0 <= i < count && !names_directory((#[trigger] entries[i]).name)
                ==> path::output_path_outcome(entries[i].name) is Ok;
        if all {
            assert(dump_outcome(entries, n) is Ok);
            assert(entries[n as int].name == entries[count - 1].name);
        }
        if dump_outcome(entries, count) is Ok {
            assert(dump_outcome(entries, n) is Ok);
        }
    }
}

/// No path is repeated if and only if any two tasks write to different paths.
pub proof fn law_repeated_path(tasks: Seq<(int, Seq<u8>)>)
    ensures
        !has_repeated_path(tasks) <==> forall|i: int, j: int|
            0 <= i < tasks.len() && 0 <= j < tasks.len() && i != j ==> (#[trigger] tasks[i]).1 != (
            #[trigger] tasks[j]).1,
{
    if !has_repeated_path(tasks) {
        assert forall|i: int, j: int|
            0 <= i < tasks.len() && 0 <= j < tasks.len() && i != j implies (#[trigger] tasks[i]).1
            != (#[trigger] tasks[j]).1 by {
            if i < j {
                assert(tasks[i].1 != tasks[j].1);
            } else {
                assert(tasks[j].1 != tasks[i].1);
            }
        }
    }
}


} // verus!
