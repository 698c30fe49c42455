//! The processes that hold video devices open.
use vstd::prelude::*;

use crate::loopback::{device_of_link, video_device_path_key, DeviceHolder};
use crate::order::{has_rank, insert_unique, same_rank, strictly_sorted, SortKey};
use crate::split::{file_name, file_name_of, first_where, lemma_first_where};
use crate::table::Table;
use crate::text::{contains, occurs, parse_u32, parsed_number, str_eq, texts, trim, trimmed};

verus! {

broadcast use crate::text::group_texts;

/// A process, with what its open files link to.
#[derive(Debug)]
pub struct ProcessFds {
    pub pid: u32,
    /// The name under which the process is shown.
    pub label: String,
    pub links: Vec<String>,
}

/// A process, by number and name, and a video device that it has open.
#[derive(Debug)]
pub struct Opening {
    pub pid: u32,
    pub label: String,
    pub path: String,
}

impl View for Opening {
    type V = (u32, Seq<char>, Seq<char>);

    open spec fn view(&self) -> (u32, Seq<char>, Seq<char>) {
        (self.pid, self.label@, self.path@)
    }
}

/// The video devices among the first `n` open files of a process.
pub open spec fn process_openings(process: ProcessFds, n: int) -> Seq<(u32, Seq<char>, Seq<char>)>
    decreases n,
{
    if n <= 0 {
        Seq::empty()
    } else {
        let rest = process_openings(process, n - 1);
        match device_of_link(process.links@[n - 1]@) {
            Some(path) => rest.push((process.pid, process.label@, path)),
            None => rest,
        }
    }
}

/// The video devices that processes have open, in the order in which they are met.
pub open spec fn openings(processes: Seq<ProcessFds>) -> Seq<(u32, Seq<char>, Seq<char>)>
    decreases processes.len(),
{
    if processes.len() == 0 {
        Seq::empty()
    } else {
        openings(processes.drop_last()) + process_openings(
            processes.last(),
            processes.last().links@.len() as int,
        )
    }
}

/// The views of openings.
pub open spec fn opening_views(list: Seq<Opening>) -> Seq<(u32, Seq<char>, Seq<char>)> {
    list.map_values(|o: Opening| o@)
}

fn list_openings(processes: &Vec<ProcessFds>) -> (r: Vec<Opening>)
    ensures
        opening_views(r@) == openings(processes@),
{
    let mut out: Vec<Opening> = Vec::new();
    let mut i: usize = 0;
    assert(processes@.take(0) =~= Seq::<ProcessFds>::empty());
    assert(opening_views(out@) =~= Seq::<(u32, Seq<char>, Seq<char>)>::empty());
    while i < processes.len()
        invariant
            i <= processes@.len(),
            opening_views(out@) == openings(processes@.take(i as int)),
        decreases processes@.len() - i,
    {
        let ghost before = openings(processes@.take(i as int));
        let ghost process = processes@[i as int];
        let mut j: usize = 0;
        assert(before + process_openings(process, 0) =~= before);
        while j < processes[i].links.len()
            invariant
                i < processes@.len(),
                process == processes@[i as int],
                j <= process.links@.len(),
                opening_views(out@) == before + process_openings(process, j as int),
            decreases process.links@.len() - j,
        {
            let ghost listed = out@;
            if let Some(path) = video_device_path_key(&processes[i].links[j]) {
                let opening = Opening {
                    pid: processes[i].pid,
                    label: processes[i].label.clone(),
                    path,
                };
                out.push(opening);
                assert(opening_views(out@) =~= opening_views(listed).push(opening@));
                assert((before + process_openings(process, j as int)).push(opening@) =~= before
                    + process_openings(process, j as int).push(opening@));
            }
            j += 1;
        }
        assert(processes@.take(i + 1).drop_last() =~= processes@.take(i as int));
        i += 1;
    }
    assert(processes@.take(i as int) =~= processes@);
    out
}

/// Holders are listed by process number.
impl SortKey for DeviceHolder {
    open spec fn before(self, other: Self) -> bool {
        self.pid < other.pid
    }

    proof fn before_transitive(a: Self, b: Self, c: Self) {
    }

    proof fn before_negative(a: Self, b: Self, c: Self) {
    }

    fn is_before(&self, other: &Self) -> (r: bool) {
        self.pid < other.pid
    }
}

/// The name of a process that has the device open, as of its first opening of the device.
pub open spec fn holder_name(
    list: Seq<(u32, Seq<char>, Seq<char>)>,
    path: Seq<char>,
    pid: u32,
) -> Option<Seq<char>>
    decreases list.len(),
{
    if list.len() == 0 {
        None
    } else {
        match holder_name(list.drop_last(), path, pid) {
            Some(name) => Some(name),
            None => if list.last().2 == path && list.last().0 == pid {
                Some(list.last().1)
            } else {
                None
            },
        }
    }
}

/// `holders` are the processes that have the device open, each once, by process number.
pub open spec fn lists_holders(
    holders: Seq<DeviceHolder>,
    list: Seq<(u32, Seq<char>, Seq<char>)>,
    path: Seq<char>,
) -> bool {
    &&& strictly_sorted(holders)
    &&& forall|k: int|
        0 <= k < holders.len() ==> holder_name(list, path, (#[trigger] holders[k]).pid) == Some(
            holders[k].label@,
        )
    &&& forall|pid: u32| #[trigger]
        holder_name(list, path, pid) is Some ==> exists|k: int|
            0 <= k < holders.len() && (#[trigger] holders[k]).pid == pid
}

/// The map gives for every device that is open the processes that hold it.
pub open spec fn maps_holders(
    map: Map<Seq<char>, Vec<DeviceHolder>>,
    list: Seq<(u32, Seq<char>, Seq<char>)>,
) -> bool {
    &&& forall|path: Seq<char>| #[trigger]
        map.contains_key(path) <==> exists|i: int|
            0 <= i < list.len() && (#[trigger] list[i]).2 == path
    &&& forall|path: Seq<char>| #[trigger]
        map.contains_key(path) ==> lists_holders(map[path]@, list, path)
}

proof fn lemma_other_device(
    holders: Seq<DeviceHolder>,
    list: Seq<(u32, Seq<char>, Seq<char>)>,
    opening: (u32, Seq<char>, Seq<char>),
    path: Seq<char>,
)
    requires
        lists_holders(holders, list, path),
        opening.2 != path,
    ensures
        lists_holders(holders, list.push(opening), path),
{
    let more = list.push(opening);
    assert(more.drop_last() =~= list);
    assert forall|pid: u32| #[trigger] holder_name(more, path, pid) == holder_name(
        list,
        path,
        pid,
    ) by {}
}

proof fn lemma_same_device(
    before: Seq<DeviceHolder>,
    after: Seq<DeviceHolder>,
    holder: DeviceHolder,
    list: Seq<(u32, Seq<char>, Seq<char>)>,
    opening: (u32, Seq<char>, Seq<char>),
)
    requires
        lists_holders(before, list, opening.2),
        holder.pid == opening.0,
        holder.label@ == opening.1,
        strictly_sorted(after),
        has_rank(before, holder) ==> after == before,
        !has_rank(before, holder) ==> exists|pos: int|
            0 <= pos <= before.len() && after == #[trigger] before.insert(pos, holder),
    ensures
        lists_holders(after, list.push(opening), opening.2),
{
    let path = opening.2;
    let more = list.push(opening);
    assert(more.drop_last() =~= list);
    assert forall|pid: u32| pid != holder.pid implies #[trigger] holder_name(more, path, pid)
        == holder_name(list, path, pid) by {}
    if has_rank(before, holder) {
        let k = choose|k: int| 0 <= k < before.len() && same_rank(#[trigger] before[k], holder);
        assert(before[k].pid == holder.pid);
        assert(holder_name(list, path, holder.pid) is Some);
    } else {
        let pos = choose|pos: int|
            0 <= pos <= before.len() && after == #[trigger] before.insert(pos, holder);
        assert(holder_name(list, path, holder.pid) is None) by {
            if holder_name(list, path, holder.pid) is Some {
                let k = choose|k: int|
                    0 <= k < before.len() && (#[trigger] before[k]).pid == holder.pid;
                assert(same_rank(before[k], holder));
            }
        }
        assert(holder_name(more, path, holder.pid) == Some(holder.label@));
        assert forall|k: int| 0 <= k < after.len() implies holder_name(
            more,
            path,
            (#[trigger] after[k]).pid,
        ) == Some(after[k].label@) by {
            if k != pos {
                let was = if k < pos {
                    k
                } else {
                    k - 1
                };
                assert(after[k] == before[was]);
                assert(holder_name(list, path, before[was].pid) is Some);
            }
        }
        assert forall|pid: u32| #[trigger] holder_name(more, path, pid) is Some implies exists|
            k: int,
        | 0 <= k < after.len() && (#[trigger] after[k]).pid == pid by {
            if pid == holder.pid {
                assert(after[pos] == holder);
            } else {
                let k = choose|k: int| 0 <= k < before.len() && (#[trigger] before[k]).pid == pid;
                let now = if k < pos {
                    k
                } else {
                    k + 1
                };
                assert(after[now] == before[k]);
            }
        }
    }
}

proof fn lemma_not_open(list: Seq<(u32, Seq<char>, Seq<char>)>, path: Seq<char>, pid: u32)
    requires
        forall|i: int| 0 <= i < list.len() ==> (#[trigger] list[i]).2 != path,
    ensures
        holder_name(list, path, pid) is None,
    decreases list.len(),
{
    if list.len() > 0 {
        let rest = list.drop_last();
        assert forall|i: int| 0 <= i < rest.len() implies (#[trigger] rest[i]).2 != path by {
            assert(list[i].2 != path);
        }
        lemma_not_open(rest, path, pid);
    }
}

/// The processes that hold each video device open.
pub fn build_video_device_holder_map(processes: &Vec<ProcessFds>) -> (r: Table<Vec<DeviceHolder>>)
    ensures
        maps_holders(r@, openings(processes@)),
{
    let list = list_openings(processes);
    let ghost all = openings(processes@);
    assert(opening_views(list@).len() == list@.len());
    let mut map: Table<Vec<DeviceHolder>> = Table::new();
    let mut i: usize = 0;
    assert(maps_holders(map@, all.take(0)));
    while i < list.len()
        invariant
            i <= list@.len(),
            opening_views(list@) == all,
            all.len() == list@.len(),
            maps_holders(map@, all.take(i as int)),
        decreases list@.len() - i,
    {
        let ghost seen = all.take(i as int);
        let ghost opening = all[i as int];
        let ghost known = map@;
        assert(opening == list@[i as int]@);
        let mut holders: Vec<DeviceHolder> = match map.get(&list[i].path) {
            Some(holders) => holders.clone(),
            None => Vec::new(),
        };
        let ghost before = holders@;
        let holder = DeviceHolder { pid: list[i].pid, label: list[i].label.clone() };
        proof {
            if known.contains_key(opening.2) {
                assert(before =~= known[opening.2]@);
            } else {
                assert forall|pid: u32| #[trigger] holder_name(seen, opening.2, pid) is None by {
                    lemma_not_open(seen, opening.2, pid);
                }
                assert(lists_holders(before, seen, opening.2));
            }
        }
        insert_unique(&mut holders, holder);
        let ghost after = holders@;
        map.insert(list[i].path.clone(), holders);
        proof {
            let more = all.take(i + 1);
            assert(more =~= seen.push(opening));
            lemma_same_device(before, after, holder, seen, opening);
            assert forall|path: Seq<char>| #[trigger] map@.contains_key(path) <==> exists|i: int|
                0 <= i < more.len() && (#[trigger] more[i]).2 == path by {
                if path == opening.2 {
                    assert(more[i as int].2 == path);
                } else {
                    assert(map@.contains_key(path) == known.contains_key(path));
                    if known.contains_key(path) {
                        let at = choose|at: int|
                            0 <= at < seen.len() && (#[trigger] seen[at]).2 == path;
                        assert(more[at].2 == path);
                    }
                    if exists|i: int| 0 <= i < more.len() && (#[trigger] more[i]).2 == path {
                        let at = choose|at: int|
                            0 <= at < more.len() && (#[trigger] more[at]).2 == path;
                        assert(seen[at].2 == path);
                    }
                }
            }
            assert forall|path: Seq<char>| #[trigger] map@.contains_key(path) implies lists_holders(
                map@[path]@,
                more,
                path,
            ) by {
                if path != opening.2 {
                    assert(known.contains_key(path));
                    lemma_other_device(known[path]@, seen, opening, path);
                }
            }
        }
        i += 1;
    }
    assert(all.take(i as int) =~= all);
    map
}

/// An opening is listed exactly when some process has an open file that refers to the device.
proof fn lemma_process_openings(process: ProcessFds, n: int, opening: (u32, Seq<char>, Seq<char>))
    requires
        0 <= n <= process.links@.len(),
    ensures
        process_openings(process, n).contains(opening) <==> opening.0 == process.pid && opening.1
            == process.label@ && exists|j: int|
            0 <= j < n && device_of_link((#[trigger] process.links@[j])@) == Some(opening.2),
    decreases n,
{
    if n > 0 {
        lemma_process_openings(process, n - 1, opening);
        let rest = process_openings(process, n - 1);
        let list = process_openings(process, n);
        if rest.contains(opening) {
            let k = choose|k: int| 0 <= k < rest.len() && rest[k] == opening;
            assert(list[k] == opening);
        }
        if let Some(path) = device_of_link(process.links@[n - 1]@) {
            assert(list.last() == (process.pid, process.label@, path));
            if list.contains(opening) && !rest.contains(opening) {
                let k = choose|k: int| 0 <= k < list.len() && list[k] == opening;
                assert(k == rest.len()) by {
                    if k < rest.len() {
                        assert(rest[k] == opening);
                    }
                }
                assert(device_of_link(process.links@[n - 1]@) == Some(opening.2));
            }
        }
    }
}

/// A process has an open file that refers to the device.
pub open spec fn has_open(process: ProcessFds, path: Seq<char>) -> bool {
    exists|j: int|
        0 <= j < process.links@.len() && device_of_link((#[trigger] process.links@[j])@) == Some(path)
}

proof fn lemma_openings(processes: Seq<ProcessFds>, opening: (u32, Seq<char>, Seq<char>))
    ensures
        openings(processes).contains(opening) <==> exists|i: int|
            0 <= i < processes.len() && (#[trigger] processes[i]).pid == opening.0
                && processes[i].label@ == opening.1 && has_open(processes[i], opening.2),
    decreases processes.len(),
{
    if processes.len() > 0 {
        let rest = processes.drop_last();
        let last = processes.last();
        let (a, b) = (openings(rest), process_openings(last, last.links@.len() as int));
        lemma_openings(rest, opening);
        lemma_process_openings(last, last.links@.len() as int, opening);
        let list = a + b;
        if list.contains(opening) {
            let k = choose|k: int| 0 <= k < list.len() && list[k] == opening;
            if k < a.len() {
                assert(a[k] == opening);
                let i = choose|i: int|
                    0 <= i < rest.len() && (#[trigger] rest[i]).pid == opening.0 && rest[i].label@
                        == opening.1 && has_open(rest[i], opening.2);
                assert(processes[i].pid == opening.0);
            } else {
                assert(b[k - a.len()] == opening);
                assert(processes[processes.len() - 1].pid == opening.0);
                assert(has_open(last, opening.2));
            }
        }
        if exists|i: int|
            0 <= i < processes.len() && (#[trigger] processes[i]).pid == opening.0
                && processes[i].label@ == opening.1 && has_open(processes[i], opening.2) {
            let i = choose|i: int|
                0 <= i < processes.len() && (#[trigger] processes[i]).pid == opening.0
                    && processes[i].label@ == opening.1 && has_open(processes[i], opening.2);
            if i < rest.len() {
                assert(rest[i].pid == opening.0);
                let k = choose|k: int| 0 <= k < a.len() && a[k] == opening;
                assert(list[k] == opening);
            } else {
                let k = choose|k: int| 0 <= k < b.len() && b[k] == opening;
                assert(list[a.len() + k] == opening);
            }
        }
    }
}

proof fn lemma_holder_name(list: Seq<(u32, Seq<char>, Seq<char>)>, path: Seq<char>, pid: u32)
    ensures
        holder_name(list, path, pid) matches Some(name) ==> list.contains((pid, name, path)),
        forall|name: Seq<char>| #[trigger]
            list.contains((pid, name, path)) ==> holder_name(list, path, pid) is Some,
    decreases list.len(),
{
    if list.len() > 0 {
        let rest = list.drop_last();
        lemma_holder_name(rest, path, pid);
        if let Some(name) = holder_name(list, path, pid) {
            if let Some(_) = holder_name(rest, path, pid) {
                let k = choose|k: int| 0 <= k < rest.len() && rest[k] == (pid, name, path);
                assert(list[k] == (pid, name, path));
            } else {
                assert(list[list.len() - 1] == (pid, name, path));
            }
        }
        assert forall|name: Seq<char>| #[trigger]
            list.contains((pid, name, path)) implies holder_name(list, path, pid) is Some by {
            let k = choose|k: int| 0 <= k < list.len() && list[k] == (pid, name, path);
            if k < rest.len() {
                assert(rest[k] == (pid, name, path));
                assert(rest.contains((pid, name, path)));
            }
        }
    }
}

/// The holders of a device are the processes that have an open file which refers to it: each of them
/// is there, under the name of such a process, and no other process is.
pub proof fn lemma_holders_have_device_open(
    processes: Seq<ProcessFds>,
    map: Map<Seq<char>, Vec<DeviceHolder>>,
    path: Seq<char>,
)
    requires
        maps_holders(map, openings(processes)),
    ensures
        forall|i: int|
            0 <= i < processes.len() && has_open(#[trigger] processes[i], path) ==> map.contains_key(
                path,
            ) && exists|k: int|
                0 <= k < map[path]@.len() && (#[trigger] map[path]@[k]).pid == processes[i].pid,
        map.contains_key(path) ==> map[path]@.len() > 0 && forall|k: int|
            0 <= k < map[path]@.len() ==> exists|i: int|
                0 <= i < processes.len() && (#[trigger] processes[i]).pid == (
                #[trigger] map[path]@[k]).pid && processes[i].label@ == map[path]@[k].label@
                    && has_open(processes[i], path),
        map.contains_key(path) ==> forall|a: int, b: int|
            0 <= a < b < map[path]@.len() ==> (#[trigger] map[path]@[a]).pid < (
            #[trigger] map[path]@[b]).pid,
{
    let list = openings(processes);
    assert forall|i: int|
        0 <= i < processes.len() && has_open(
            #[trigger] processes[i],
            path,
        ) implies map.contains_key(path) && exists|k: int|
        0 <= k < map[path]@.len() && (#[trigger] map[path]@[k]).pid == processes[i].pid by {
        let opening = (processes[i].pid, processes[i].label@, path);
        lemma_openings(processes, opening);
        let at = choose|at: int| 0 <= at < list.len() && list[at] == opening;
        assert(list[at].2 == path);
        assert(map.contains_key(path));
        lemma_holder_name(list, path, processes[i].pid);
        assert(list.contains((processes[i].pid, processes[i].label@, path)));
        assert(holder_name(list, path, processes[i].pid) is Some);
    }
    if map.contains_key(path) {
        let holders = map[path]@;
        let at = choose|at: int| 0 <= at < list.len() && (#[trigger] list[at]).2 == path;
        lemma_holder_name(list, path, list[at].0);
        assert(list.contains((list[at].0, list[at].1, path)));
        assert(holder_name(list, path, list[at].0) is Some);
        assert forall|k: int| 0 <= k < holders.len() implies exists|i: int|
            0 <= i < processes.len() && (#[trigger] processes[i]).pid == (#[trigger] holders[k]).pid
                && processes[i].label@ == holders[k].label@ && has_open(processes[i], path) by {
            lemma_holder_name(list, path, holders[k].pid);
            lemma_openings(processes, (holders[k].pid, holders[k].label@, path));
        }
        assert forall|a: int, b: int| 0 <= a < b < holders.len() implies (
        #[trigger] holders[a]).pid < (#[trigger] holders[b]).pid by {
            assert(holders[a].before(holders[b]));
        }
    }
}

/// The holders of a device are those of its path; where nobody holds that, those of a path with the
/// same file name; and nobody where there is no such path.
pub proof fn lemma_holders_of_device(map: Table<Vec<DeviceHolder>>, device_path: Seq<char>)
    requires
        forall|key: Seq<char>| #[trigger] map@.contains_key(key) <==> map.keys().contains(key),
    ensures
        map@.contains_key(device_path) ==> holders_of(map, device_path) == map@[device_path]@,
        !map@.contains_key(device_path) && file_name_of(device_path) is Some ==> forall|
            other: Seq<char>,
        | #[trigger]
            map@.contains_key(other) && file_name_of(other) == file_name_of(device_path) ==> exists|
                found: Seq<char>,
            | #[trigger]
                map@.contains_key(found) && file_name_of(found) == file_name_of(device_path)
                    && holders_of(map, device_path) == map@[found]@,
        (forall|other: Seq<char>| #[trigger]
            map@.contains_key(other) ==> other != device_path && (file_name_of(other)
                != file_name_of(device_path) || file_name_of(device_path) is None)) ==> holders_of(
            map,
            device_path,
        ).len() == 0,
{
    if !map@.contains_key(device_path) {
        if let Some(name) = file_name_of(device_path) {
            let p = has_file_name(name);
            crate::split::lemma_first_found(map.keys(), p);
            let at = first_where(map.keys(), p);
            assert forall|other: Seq<char>| #[trigger]
                map@.contains_key(other) && file_name_of(other) == file_name_of(
                    device_path,
                ) implies exists|found: Seq<char>| #[trigger]
                map@.contains_key(found) && file_name_of(found) == file_name_of(device_path)
                    && holders_of(map, device_path) == map@[found]@ by {
                let k = choose|k: int| 0 <= k < map.keys().len() && map.keys()[k] == other;
                assert(p(map.keys()[k]));
                let found = map.keys()[at];
                assert(p(found));
                assert(map.keys().contains(found));
                assert(map@.contains_key(found));
            }
            if at < map.keys().len() {
                assert(p(map.keys()[at]));
                assert(map.keys().contains(map.keys()[at]));
                assert(map@.contains_key(map.keys()[at]));
            }
        }
    }
}

/// Paths with the given file name, as a predicate.
pub open spec fn has_file_name(name: Seq<char>) -> spec_fn(Seq<char>) -> bool {
    |path: Seq<char>| file_name_of(path) == Some(name)
}

/// The holders of a device: those of its path, or else those of the first path in the map with the
/// same file name.
pub open spec fn holders_of(map: Table<Vec<DeviceHolder>>, device_path: Seq<char>) -> Seq<
    DeviceHolder,
> {
    if map@.contains_key(device_path) {
        map@[device_path]@
    } else {
        match file_name_of(device_path) {
            None => Seq::empty(),
            Some(name) => {
                let at = first_where(map.keys(), has_file_name(name));
                if at < map.keys().len() {
                    map@[map.keys()[at]]@
                } else {
                    Seq::empty()
                }
            },
        }
    }
}

/// The holders of a device.
pub fn holders_for_device(map: &Table<Vec<DeviceHolder>>, device_path: &str) -> (r: Vec<
    DeviceHolder,
>)
    ensures
        r@ == holders_of(*map, device_path@),
{
    if let Some(holders) = map.get(device_path) {
        let r = holders.clone();
        assert(r@ =~= holders@);
        return r;
    }
    let want = match file_name(device_path) {
        Some(want) => want,
        None => {
            return Vec::new();
        },
    };
    let mut i: usize = 0;
    while i < map.len()
        invariant
            i <= map.keys().len(),
            !map@.contains_key(device_path@),
            file_name_of(device_path@) == Some(want@),
            forall|j: int| 0 <= j < i ==> !has_file_name(want@)(#[trigger] map.keys()[j]),
        decreases map.keys().len() - i,
    {
        if let Some(name) = file_name(map.key_at(i)) {
            if str_eq(&name, &want) {
                proof {
                    lemma_first_where(map.keys(), has_file_name(want@), i as int);
                }
                let holders = map.value_at(i);
                let r = holders.clone();
                assert(r@ =~= holders@);
                return r;
            }
        }
        i += 1;
    }
    proof {
        lemma_first_where(map.keys(), has_file_name(want@), i as int);
    }
    Vec::new()
}

/// The process numbers of holders.
pub open spec fn holder_pids(holders: Seq<DeviceHolder>) -> Seq<u32> {
    holders.map_values(|h: DeviceHolder| h.pid)
}

/// The holders of a device, from the processes of the system.
pub fn list_device_holders(processes: &Vec<ProcessFds>, device_path: &str) -> (r: Vec<DeviceHolder>)
    ensures
        exists|map: Table<Vec<DeviceHolder>>| #[trigger]
            maps_holders(map@, openings(processes@)) && r@ == holders_of(map, device_path@),
{
    let map = build_video_device_holder_map(processes);
    holders_for_device(&map, device_path)
}

/// The process numbers of the holders of a device.
pub fn find_device_holders(processes: &Vec<ProcessFds>, device_path: &str) -> (r: Vec<u32>)
    ensures
        exists|map: Table<Vec<DeviceHolder>>| #[trigger]
            maps_holders(map@, openings(processes@)) && r@ == holder_pids(
                holders_of(map, device_path@),
            ),
{
    let holders = list_device_holders(processes, device_path);
    let mut pids: Vec<u32> = Vec::new();
    let mut i: usize = 0;
    while i < holders.len()
        invariant
            i <= holders@.len(),
            pids@ == holder_pids(holders@).take(i as int),
        decreases holders@.len() - i,
    {
        pids.push(holders[i].pid);
        assert(pids@ =~= holder_pids(holders@).take(i + 1));
        i += 1;
    }
    assert(pids@ =~= holder_pids(holders@));
    pids
}

/// One of the holders is this program.
pub open spec fn held_by_shim(holders: Seq<DeviceHolder>) -> bool {
    exists|i: int| 0 <= i < holders.len() && occurs((#[trigger] holders[i]).label@, "cam-shim"@)
}

fn is_held_by_shim(holders: &Vec<DeviceHolder>) -> (r: bool)
    ensures
        r == held_by_shim(holders@),
{
    let mut i: usize = 0;
    while i < holders.len()
        invariant
            i <= holders@.len(),
            forall|j: int| 0 <= j < i ==> !occurs((#[trigger] holders@[j]).label@, "cam-shim"@),
        decreases holders@.len() - i,
    {
        if contains(&holders[i].label, "cam-shim") {
            return true;
        }
        i += 1;
    }
    false
}

/// `paths` are the devices that are held by this program.
pub open spec fn lists_shim_paths(
    map: Map<Seq<char>, Vec<DeviceHolder>>,
    paths: Seq<Seq<char>>,
) -> bool {
    &&& paths.no_duplicates()
    &&& forall|path: Seq<char>| #[trigger]
        paths.contains(path) <==> map.contains_key(path) && held_by_shim(map[path]@)
}

/// A device is listed exactly when one of its holders goes by a name with `cam-shim` in it, and no device
/// is listed twice.
pub proof fn lemma_shim_paths(
    map: Map<Seq<char>, Vec<DeviceHolder>>,
    paths: Seq<Seq<char>>,
    path: Seq<char>,
    i: int,
    j: int,
)
    requires
        lists_shim_paths(map, paths),
    ensures
        paths.contains(path) <==> map.contains_key(path) && exists|k: int|
            0 <= k < map[path]@.len() && occurs((#[trigger] map[path]@[k]).label@, "cam-shim"@),
        0 <= i < j < paths.len() ==> paths[i] != paths[j],
{
}

/// The devices that are held by this program, each once.
pub fn cam_shim_held_device_paths(map: &Table<Vec<DeviceHolder>>) -> (r: Vec<String>)
    ensures
        lists_shim_paths(map@, texts(r@)),
        texts(r@).no_duplicates(),
        forall|path: Seq<char>| #[trigger]
            texts(r@).contains(path) <==> map@.contains_key(path) && held_by_shim(map@[path]@),
{
    let mut out: Vec<String> = Vec::new();
    let mut i: usize = 0;
    let n: usize = map.len();
    assert(texts(out@) =~= Seq::<Seq<char>>::empty());
    while i < n
        invariant
            n == map.keys().len(),
            i <= n,
            map.keys().no_duplicates(),
            texts(out@).no_duplicates(),
            forall|path: Seq<char>| #[trigger]
                texts(out@).contains(path) <==> map.keys().take(i as int).contains(path)
                    && held_by_shim(map@[path]@),
        decreases n - i,
    {
        let ghost seen = map.keys().take(i as int);
        let ghost key = map.keys()[i as int];
        let ghost before = texts(out@);
        proof {
            assert(map.keys().take(i + 1) =~= seen.push(key));
            if seen.contains(key) {
                let at = choose|at: int| 0 <= at < seen.len() && seen[at] == key;
                assert(map.keys()[at] == map.keys()[i as int]);
            }
            assert forall|path: Seq<char>| #[trigger] seen.push(key).contains(path) <==> (
            seen.contains(path) || path == key) by {
                crate::order::lemma_push_contains(seen, key, path);
            }
        }
        if is_held_by_shim(map.value_at(i)) {
            out.push(map.key_at(i).clone());
            proof {
                assert(texts(out@) == before.push(key));
                assert(!before.contains(key));
                assert(before.push(key).no_duplicates()) by {
                    assert forall|a: int, b: int|
                        0 <= a < b < before.push(key).len() implies before.push(key)[a]
                        != before.push(key)[b] by {
                        if b == before.len() {
                            assert(before[a] != key);
                        }
                    }
                }
                assert forall|path: Seq<char>| #[trigger] before.push(key).contains(path) <==> (
                before.contains(path) || path == key) by {
                    crate::order::lemma_push_contains(before, key, path);
                }
            }
        }
        i += 1;
    }
    proof {
        assert(map.keys().take(n as int) =~= map.keys());
    }
    out
}

/// The number of readers of a loopback device, as the system writes it.
pub fn loopback_consumer_count(active_readers: Option<String>) -> (r: Option<u32>)
    ensures
        match active_readers {
            None => r is None,
            Some(text) => match r {
                Some(n) => parsed_number(trimmed(text@), u32::MAX as nat) == Some(n as nat),
                None => parsed_number(trimmed(text@), u32::MAX as nat) is None,
            },
        },
{
    match active_readers {
        Some(text) => parse_u32(&trim(&text)),
        None => None,
    }
}

/// Some process other than the given one is among the holders.
pub open spec fn held_by_other(pids: Seq<u32>, own_pid: u32) -> bool {
    exists|i: int| 0 <= i < pids.len() && #[trigger] pids[i] != own_pid
}

/// Another program reads from a virtual camera.
pub open spec fn has_consumers(readers: Option<u32>, pids: Seq<u32>, own_pid: u32) -> bool {
    match readers {
        Some(readers) => readers > 0,
        None => held_by_other(pids, own_pid),
    }
}

/// What the system says of the readers of a virtual camera decides; without it, a virtual camera is
/// read exactly when a process other than the given one holds it.
pub proof fn lemma_consumers(readers: u32, pids: Seq<u32>, own_pid: u32)
    ensures
        has_consumers(Some(readers), pids, own_pid) <==> readers > 0,
        has_consumers(None, pids, own_pid) <==> exists|pid: u32| #[trigger]
            pids.contains(pid) && pid != own_pid,
{
    if has_consumers(None, pids, own_pid) {
        let i = choose|i: int| 0 <= i < pids.len() && #[trigger] pids[i] != own_pid;
        assert(pids.contains(pids[i]));
    }
    if exists|pid: u32| #[trigger] pids.contains(pid) && pid != own_pid {
        let pid = choose|pid: u32| #[trigger] pids.contains(pid) && pid != own_pid;
        let i = choose|i: int| 0 <= i < pids.len() && pids[i] == pid;
        assert(pids[i] != own_pid);
    }
}

/// Whether another program reads from a virtual camera: by the number of readers where the system
/// tells it, else by who holds the device.
pub fn loopback_has_consumers(readers: Option<u32>, pids: &Vec<u32>, own_pid: u32) -> (r: bool)
    ensures
        r == has_consumers(readers, pids@, own_pid),
        r == match readers {
            Some(readers) => readers > 0,
            None => held_by_other(pids@, own_pid),
        },
{
    if let Some(readers) = readers {
        return readers > 0;
    }
    let mut i: usize = 0;
    while i < pids.len()
        invariant
            i <= pids@.len(),
            readers is None,
            forall|j: int| 0 <= j < i ==> #[trigger] pids@[j] == own_pid,
        decreases pids@.len() - i,
    {
        if pids[i] != own_pid {
            return true;
        }
        i += 1;
    }
    false
}

} // verus!
