//! Recognising the windows the library launched: walking a process's
//! ancestors for the spawn wrapper that carries a workspace and a tree
//! position on its command line.
use vstd::prelude::*;
use vstd::utf8::{valid_utf8, decode_utf8};
use crate::text::{contains_str, str_eq, chars_of, split_words, parse_u32, has_substring, words, parse_u32_spec};

verus! {

broadcast use {vstd::string::group_string_axioms, vstd::seq_lib::seq_to_set_is_finite};

/// What `String::from_utf8_lossy` makes of a byte string.
pub uninterp spec fn utf8_lossy(bytes: Seq<u8>) -> Seq<char>;

/// Decodes bytes with `String::from_utf8_lossy` (invalid sequences become
/// U+FFFD). The contract names the result, and claims what the function's
/// documentation states: valid UTF-8 is decoded as it is.
#[verifier::external_body]
fn decode_lossy(bytes: &[u8]) -> (s: String)
    ensures
        s@ == utf8_lossy(bytes@),
        valid_utf8(bytes@) ==> s@ == decode_utf8(bytes@),
{
    String::from_utf8_lossy(bytes).into_owned()
}

/// Reading bytes left to right: the fields completed so far (each ended by
/// a NUL, possibly empty) and the field in progress.
pub open spec fn nul_scan(data: Seq<u8>) -> (Seq<Seq<u8>>, Seq<u8>)
    decreases data.len(),
{
    if data.len() == 0 {
        (Seq::empty(), Seq::empty())
    } else {
        let (done, cur) = nul_scan(data.drop_last());
        if data.last() == 0 {
            (done.push(cur), Seq::empty())
        } else {
            (done, cur.push(data.last()))
        }
    }
}

/// The fields of `data`: every run of bytes ended by a NUL (an empty
/// argument is an empty field), then the unterminated rest if it is not
/// empty.
pub open spec fn nul_fields(data: Seq<u8>) -> Seq<Seq<u8>> {
    let (done, cur) = nul_scan(data);
    if cur.len() > 0 {
        done.push(cur)
    } else {
        done
    }
}

/// How an argument's bytes read as text: decoded when they are UTF-8,
/// otherwise with invalid sequences replaced.
pub open spec fn decode_arg(f: Seq<u8>) -> Seq<char> {
    if valid_utf8(f) {
        decode_utf8(f)
    } else {
        utf8_lossy(f)
    }
}

/// The arguments a `/proc/<pid>/cmdline` file lists.
pub open spec fn cmdline_args(data: Seq<u8>) -> Seq<Seq<char>> {
    nul_fields(data).map_values(|f: Seq<u8>| decode_arg(f))
}

/// Splits the contents of a `cmdline` file into its arguments.
pub fn parse_cmdline(data: &[u8]) -> (args: Vec<String>)
    ensures
        args@.map_values(|a: String| a@) == cmdline_args(data@),
{
    let mut done: Vec<Vec<u8>> = Vec::new();
    let mut cur: Vec<u8> = Vec::new();
    let mut i: usize = 0;
    while i < data.len()
        invariant
            0 <= i <= data.len(),
            (done@.map_values(|w: Vec<u8>| w@), cur@) == nul_scan(data@.take(i as int)),
        decreases data.len() - i,
    {
        let b = data[i];
        assert(data@.take(i + 1).drop_last() =~= data@.take(i as int));
        let ghost before = done@.map_values(|w: Vec<u8>| w@);
        if b == 0 {
            let w = cur;
            cur = Vec::new();
            let ghost wv = w@;
            done.push(w);
            assert(done@.map_values(|w: Vec<u8>| w@) =~= before.push(wv));
            assert(cur@ =~= Seq::<u8>::empty());
        } else {
            cur.push(b);
        }
        i += 1;
    }
    assert(data@.take(data.len() as int) =~= data@);
    if cur.len() > 0 {
        let ghost before = done@.map_values(|w: Vec<u8>| w@);
        let ghost wv = cur@;
        done.push(cur);
        assert(done@.map_values(|w: Vec<u8>| w@) =~= before.push(wv));
    }
    let ghost fields = done@.map_values(|w: Vec<u8>| w@);
    let mut args: Vec<String> = Vec::new();
    let mut k: usize = 0;
    while k < done.len()
        invariant
            0 <= k <= done.len(),
            fields == done@.map_values(|w: Vec<u8>| w@),
            fields == nul_fields(data@),
            args.len() == k,
            forall|j: int| 0 <= j < k ==> #[trigger] args@[j]@ == decode_arg(fields[j]),
        decreases done.len() - k,
    {
        let a = decode_lossy(done[k].as_slice());
        args.push(a);
        k += 1;
    }
    assert(args@.map_values(|a: String| a@) =~= cmdline_args(data@));
    args
}

/// Whether an argument list is the spawn wrapper's: one argument mentions
/// `sway-layout` and one is exactly `spawn`.
pub open spec fn spawn_marker(args: Seq<Seq<char>>) -> bool {
    (exists|i: int| 0 <= i < args.len() && has_substring(#[trigger] args[i], "sway-layout"@))
        && (exists|i: int| 0 <= i < args.len() && #[trigger] args[i] == "spawn"@)
}

pub fn has_spawn_marker(args: &[String]) -> (r: bool)
    ensures
        r == spawn_marker(args@.map_values(|a: String| a@)),
{
    let ghost av = args@.map_values(|a: String| a@);
    let mut named = false;
    let mut spawn = false;
    let mut i: usize = 0;
    while i < args.len()
        invariant
            0 <= i <= args.len(),
            av == args@.map_values(|a: String| a@),
            named == exists|j: int| 0 <= j < i && has_substring(#[trigger] av[j], "sway-layout"@),
            spawn == exists|j: int| 0 <= j < i && #[trigger] av[j] == "spawn"@,
        decreases args.len() - i,
    {
        assert(av[i as int] == args@[i as int]@);
        if contains_str(args[i].as_str(), "sway-layout") {
            named = true;
        }
        if str_eq(args[i].as_str(), "spawn") {
            spawn = true;
        }
        i += 1;
    }
    named && spawn
}

/// The workspace and tree position following the first `spawn` argument.
pub open spec fn spawn_args(args: Seq<Seq<char>>) -> Option<(Seq<char>, Seq<char>)> {
    if exists|i: int| 0 <= i < args.len() && #[trigger] args[i] == "spawn"@ {
        let i = choose|i: int|
            0 <= i < args.len() && #[trigger] args[i] == "spawn"@ && forall|j: int|
                0 <= j < i ==> #[trigger] args[j] != "spawn"@;
        if i + 2 < args.len() {
            Some((args[i + 1], args[i + 2]))
        } else {
            None
        }
    } else {
        None
    }
}

pub fn parse_spawn_args(args: &[String]) -> (r: Option<(String, String)>)
    ensures
        match r {
            Some((w, p)) => spawn_args(args@.map_values(|a: String| a@)) == Some((w@, p@)),
            None => spawn_args(args@.map_values(|a: String| a@)) is None,
        },
{
    let ghost av = args@.map_values(|a: String| a@);
    let mut i: usize = 0;
    while i < args.len()
        invariant
            0 <= i <= args.len(),
            av == args@.map_values(|a: String| a@),
            forall|j: int| 0 <= j < i ==> #[trigger] av[j] != "spawn"@,
        decreases args.len() - i,
    {
        assert(av[i as int] == args@[i as int]@);
        if str_eq(args[i].as_str(), "spawn") {
            proof {
                let k = choose|k: int|
                    0 <= k < av.len() && #[trigger] av[k] == "spawn"@ && forall|j: int|
                        0 <= j < k ==> #[trigger] av[j] != "spawn"@;
                if k < i {
                    assert(av[k] != "spawn"@);
                }
                if k > i {
                    assert(av[i as int] != "spawn"@);
                }
                assert(k == i);
            }
            if 2 < args.len() - i {
                return Some((args[i + 1].clone(), args[i + 2].clone()));
            } else {
                return None;
            }
        }
        i += 1;
    }
    None
}

/// The index of the last `c` in `s`.
pub open spec fn last_index_of(s: Seq<char>, c: char) -> Option<nat>
    decreases s.len(),
{
    if s.len() == 0 {
        None
    } else if s.last() == c {
        Some((s.len() - 1) as nat)
    } else {
        last_index_of(s.drop_last(), c)
    }
}

/// The parent pid in the contents of a `/proc/<pid>/stat` file: the second
/// field after the last `)` (the command name may itself hold parentheses).
pub open spec fn ppid_spec(stat: Seq<char>) -> Option<u32> {
    match last_index_of(stat, ')') {
        None => None,
        Some(i) => {
            let w = words(stat.skip((i + 1) as int));
            if w.len() > 1 {
                parse_u32_spec(w[1])
            } else {
                None
            }
        },
    }
}

/// Reads the parent pid from the contents of a `stat` file.
pub fn parse_ppid(stat: &str) -> (r: Option<u32>)
    ensures
        r == ppid_spec(stat@),
{
    let cs = chars_of(stat);
    let mut n: usize = cs.len();
    assert(cs@.take(n as int) =~= cs@);
    while n > 0 && cs[n - 1] != ')'
        invariant
            cs@ == stat@,
            0 <= n <= cs.len(),
            last_index_of(stat@, ')') == last_index_of(cs@.take(n as int), ')'),
        decreases n,
    {
        assert(cs@.take(n as int).drop_last() =~= cs@.take(n - 1));
        n -= 1;
    }
    if n == 0 {
        assert(cs@.take(0) =~= Seq::<char>::empty());
        return None;
    }
    assert(last_index_of(cs@.take(n as int), ')') == Some((n - 1) as nat));
    let rest = cs.as_slice().split_at(n).1;
    assert(rest@ =~= stat@.skip(n as int));
    let w = split_words(rest);
    assert(w@.map_values(|x: Vec<char>| x@).len() == w.len());
    if w.len() > 1 {
        assert(w@.map_values(|x: Vec<char>| x@)[1] == w@[1]@);
        let s = crate::text::string_of(w[1].as_slice());
        parse_u32(s.as_str())
    } else {
        None
    }
}


/// What could be read of one process under `/proc`: the contents of its
/// `cmdline` file and of its `stat` file (`None` where the read failed).
pub struct ProcInfo {
    pub pid: u32,
    pub cmdline: Option<Vec<u8>>,
    pub stat: Option<String>,
}

pub struct ProcView {
    pub pid: u32,
    pub cmdline: Option<Seq<u8>>,
    pub stat: Option<Seq<char>>,
}

impl View for ProcInfo {
    type V = ProcView;

    open spec fn view(&self) -> ProcView {
        ProcView {
            pid: self.pid,
            cmdline: match self.cmdline {
                Some(c) => Some(c@),
                None => None,
            },
            stat: match self.stat {
                Some(s) => Some(s@),
                None => None,
            },
        }
    }
}

pub open spec fn proc_views(procs: Seq<ProcInfo>) -> Seq<ProcView> {
    procs.map_values(|p: ProcInfo| p@)
}

/// The first record of process `pid`.
pub open spec fn proc_entry(procs: Seq<ProcView>, pid: u32) -> Option<ProcView> {
    if exists|i: int| 0 <= i < procs.len() && (#[trigger] procs[i]).pid == pid {
        let i = choose|i: int|
            0 <= i < procs.len() && (#[trigger] procs[i]).pid == pid && forall|j: int|
                0 <= j < i ==> (#[trigger] procs[j]).pid != pid;
        Some(procs[i])
    } else {
        None
    }
}

/// The pids that have a record.
pub open spec fn pid_set(procs: Seq<ProcView>) -> Set<u32> {
    procs.map_values(|p: ProcView| p.pid).to_set()
}

/// The spawn metadata process `pid` itself carries, if its command line is
/// readable and is the spawn wrapper's.
pub open spec fn metadata_at(procs: Seq<ProcView>, pid: u32) -> Option<(Seq<char>, Seq<char>)> {
    match proc_entry(procs, pid) {
        Some(p) => match p.cmdline {
            Some(data) => if spawn_marker(cmdline_args(data)) {
                spawn_args(cmdline_args(data))
            } else {
                None
            },
            None => None,
        },
        None => None,
    }
}

/// The parent of process `pid`, if its `stat` record is readable and names one.
pub open spec fn parent_of(procs: Seq<ProcView>, pid: u32) -> Option<u32> {
    match proc_entry(procs, pid) {
        Some(p) => match p.stat {
            Some(s) => ppid_spec(s),
            None => None,
        },
        None => None,
    }
}

/// A process whose parent can be read has a record.
pub proof fn lemma_parent_has_entry(procs: Seq<ProcView>, pid: u32)
    requires
        parent_of(procs, pid) is Some,
    ensures
        pid_set(procs).contains(pid),
{
    let i = choose|i: int| 0 <= i < procs.len() && (#[trigger] procs[i]).pid == pid;
    assert(procs.map_values(|p: ProcView| p.pid)[i] == pid);
}

/// Visiting one more recorded process leaves fewer unvisited ones.
pub proof fn lemma_unvisited_shrinks(s: Set<u32>, visited: Set<u32>, cur: u32)
    requires
        s.finite(),
        s.contains(cur),
        !visited.contains(cur),
    ensures
        s.difference(visited.insert(cur)).len() < s.difference(visited).len(),
{
    assert(s.difference(visited.insert(cur)) =~= s.difference(visited).remove(cur));
}

/// Walking up from `cur`, never returning to a process in `visited`: the
/// metadata of the first process on the way that carries it. The walk ends
/// with nothing at pid 0 or 1, at a process seen before, or where no parent
/// can be read.
pub open spec fn walk_spec(procs: Seq<ProcView>, cur: u32, visited: Set<u32>) -> Option<(Seq<char>, Seq<char>)>
    decreases pid_set(procs).difference(visited).len(),
{
    if cur <= 1 || visited.contains(cur) {
        None
    } else {
        match metadata_at(procs, cur) {
            Some(m) => Some(m),
            None => match parent_of(procs, cur) {
                None => None,
                Some(parent) => {
                    proof {
                        lemma_parent_has_entry(procs, cur);
                        lemma_unvisited_shrinks(pid_set(procs), visited, cur);
                    }
                    walk_spec(procs, parent, visited.insert(cur))
                },
            },
        }
    }
}

/// The spawn metadata for a window's process `pid`: found on the process
/// itself or on its nearest ancestor that is a spawn wrapper.
pub open spec fn spawn_metadata_spec(procs: Seq<ProcView>, pid: i64) -> Option<(Seq<char>, Seq<char>)> {
    walk_spec(procs, pid as u32, Set::empty())
}

fn find_proc(procs: &[ProcInfo], pid: u32) -> (r: Option<usize>)
    ensures
        match r {
            Some(i) => i < procs.len() && proc_entry(proc_views(procs@), pid) == Some(
                procs@[i as int]@,
            ),
            None => proc_entry(proc_views(procs@), pid) is None,
        },
{
    let ghost pv = proc_views(procs@);
    let mut i: usize = 0;
    while i < procs.len()
        invariant
            0 <= i <= procs.len(),
            pv == proc_views(procs@),
            forall|j: int| 0 <= j < i ==> (#[trigger] pv[j]).pid != pid,
        decreases procs.len() - i,
    {
        assert(pv[i as int] == procs@[i as int]@);
        if procs[i].pid == pid {
            proof {
                let k = choose|k: int|
                    0 <= k < pv.len() && (#[trigger] pv[k]).pid == pid && forall|j: int|
                        0 <= j < k ==> (#[trigger] pv[j]).pid != pid;
                if k < i {
                    assert(pv[k].pid != pid);
                }
                if k > i {
                    assert(pv[i as int].pid != pid);
                }
            }
            return Some(i);
        }
        i += 1;
    }
    None
}

fn metadata_of(procs: &[ProcInfo], pid: u32) -> (r: Option<(String, String)>)
    ensures
        match r {
            Some((w, p)) => metadata_at(proc_views(procs@), pid) == Some((w@, p@)),
            None => metadata_at(proc_views(procs@), pid) is None,
        },
{
    match find_proc(procs, pid) {
        None => None,
        Some(i) => match &procs[i].cmdline {
            None => None,
            Some(data) => {
                let args = parse_cmdline(data.as_slice());
                if has_spawn_marker(args.as_slice()) {
                    parse_spawn_args(args.as_slice())
                } else {
                    None
                }
            },
        },
    }
}

fn parent_pid(procs: &[ProcInfo], pid: u32) -> (r: Option<u32>)
    ensures
        r == parent_of(proc_views(procs@), pid),
{
    match find_proc(procs, pid) {
        None => None,
        Some(i) => match &procs[i].stat {
            None => None,
            Some(s) => parse_ppid(s.as_str()),
        },
    }
}

pub(crate) fn vec_contains(v: &Vec<u32>, x: u32) -> (r: bool)
    ensures
        r == v@.contains(x),
{
    let mut i: usize = 0;
    while i < v.len()
        invariant
            0 <= i <= v.len(),
            forall|j: int| 0 <= j < i ==> v@[j] != x,
        decreases v.len() - i,
    {
        if v[i] == x {
            return true;
        }
        i += 1;
    }
    false
}

/// One step of the walk from a process that carries no metadata but has a
/// parent.
proof fn lemma_walk_step(procs: Seq<ProcView>, cur: u32, visited: Set<u32>, parent: u32)
    requires
        cur > 1,
        !visited.contains(cur),
        metadata_at(procs, cur) is None,
        parent_of(procs, cur) == Some(parent),
    ensures
        walk_spec(procs, cur, visited) == walk_spec(procs, parent, visited.insert(cur)),
        pid_set(procs).difference(visited.insert(cur)).len() < pid_set(procs).difference(
            visited,
        ).len(),
{
    lemma_parent_has_entry(procs, cur);
    lemma_unvisited_shrinks(pid_set(procs), visited, cur);
}

/// Walks up the process tree from `pid` (read as a 32-bit pid) looking for a
/// spawn wrapper, and returns the workspace and tree position it carries.
pub fn find_spawn_metadata(pid: i64, procs: &[ProcInfo]) -> (r: Option<(String, String)>)
    ensures
        match r {
            Some((w, p)) => spawn_metadata_spec(proc_views(procs@), pid) == Some((w@, p@)),
            None => spawn_metadata_spec(proc_views(procs@), pid) is None,
        },
{
    let ghost pv = proc_views(procs@);
    let mut visited: Vec<u32> = Vec::new();
    #[verifier::truncate]
    let mut cur: u32 = pid as u32;
    assert(visited@.to_set() =~= Set::<u32>::empty());
    loop
        invariant
            pv == proc_views(procs@),
            walk_spec(pv, cur, visited@.to_set()) == spawn_metadata_spec(pv, pid),
        decreases pid_set(pv).difference(visited@.to_set()).len(),
    {
        if cur <= 1 || vec_contains(&visited, cur) {
            return None;
        }
        let found = metadata_of(procs, cur);
        if found.is_some() {
            return found;
        }
        match parent_pid(procs, cur) {
            None => {
                return None;
            },
            Some(parent) => {
                proof {
                    lemma_walk_step(pv, cur, visited@.to_set(), parent);
                }
                let ghost before = visited@.to_set();
                let ghost old_seq = visited@;
                visited.push(cur);
                proof {
                    old_seq.lemma_push_to_set_commute(cur);
                }
                assert(visited@.to_set() =~= before.insert(cur));
                cur = parent;
            },
        }
    }
}


/// The first process on the walk up from `cur` (never returning to one in
/// `visited`) that has no record, if the walk reaches one before it ends.
pub open spec fn walk_missing(procs: Seq<ProcView>, cur: u32, visited: Set<u32>) -> Option<u32>
    decreases pid_set(procs).difference(visited).len(),
{
    if cur <= 1 || visited.contains(cur) {
        None
    } else if proc_entry(procs, cur) is None {
        Some(cur)
    } else {
        match metadata_at(procs, cur) {
            Some(_) => None,
            None => match parent_of(procs, cur) {
                None => None,
                Some(parent) => {
                    proof {
                        lemma_parent_has_entry(procs, cur);
                        lemma_unvisited_shrinks(pid_set(procs), visited, cur);
                    }
                    walk_missing(procs, parent, visited.insert(cur))
                },
            },
        }
    }
}

/// The process whose records the walk for window process `pid` needs next:
/// `None` once the records read decide the walk.
pub open spec fn missing_record(procs: Seq<ProcView>, pid: i64) -> Option<u32> {
    walk_missing(procs, pid as u32, Set::empty())
}

/// A process that has a record is in the set of recorded pids.
proof fn lemma_entry_in_pid_set(procs: Seq<ProcView>, pid: u32)
    requires
        proc_entry(procs, pid) is Some,
    ensures
        pid_set(procs).contains(pid),
{
    let i = choose|i: int| 0 <= i < procs.len() && (#[trigger] procs[i]).pid == pid;
    assert(procs.map_values(|p: ProcView| p.pid)[i] == pid);
}

/// Which process to read next, walking up from `pid` over the records read so
/// far; `None` when they decide the walk.
pub fn next_to_read(pid: i64, procs: &[ProcInfo]) -> (r: Option<u32>)
    ensures
        r == missing_record(proc_views(procs@), pid),
{
    let ghost pv = proc_views(procs@);
    let mut visited: Vec<u32> = Vec::new();
    #[verifier::truncate]
    let mut cur: u32 = pid as u32;
    assert(visited@.to_set() =~= Set::<u32>::empty());
    loop
        invariant
            pv == proc_views(procs@),
            walk_missing(pv, cur, visited@.to_set()) == missing_record(pv, pid),
        decreases pid_set(pv).difference(visited@.to_set()).len(),
    {
        if cur <= 1 || vec_contains(&visited, cur) {
            return None;
        }
        if find_proc(procs, cur).is_none() {
            return Some(cur);
        }
        if metadata_of(procs, cur).is_some() {
            return None;
        }
        match parent_pid(procs, cur) {
            None => {
                return None;
            },
            Some(parent) => {
                proof {
                    lemma_parent_has_entry(pv, cur);
                    lemma_unvisited_shrinks(pid_set(pv), visited@.to_set(), cur);
                }
                let ghost before = visited@.to_set();
                let ghost old_seq = visited@;
                visited.push(cur);
                proof {
                    old_seq.lemma_push_to_set_commute(cur);
                }
                assert(visited@.to_set() =~= before.insert(cur));
                cur = parent;
            },
        }
    }
}

proof fn lemma_walk_on_records(procs: Seq<ProcView>, full: Seq<ProcView>, cur: u32, visited: Set<u32>)
    requires
        forall|p: u32| #[trigger] pid_set(procs).contains(p) ==> proc_entry(full, p) == proc_entry(procs, p),
        walk_missing(procs, cur, visited) is None,
    ensures
        walk_spec(procs, cur, visited) == walk_spec(full, cur, visited),
    decreases pid_set(procs).difference(visited).len(),
{
    if cur > 1 && !visited.contains(cur) {
        lemma_entry_in_pid_set(procs, cur);
        assert(proc_entry(full, cur) == proc_entry(procs, cur));
        if metadata_at(procs, cur) is None {
            if let Some(parent) = parent_of(procs, cur) {
                lemma_unvisited_shrinks(pid_set(procs), visited, cur);
                lemma_walk_on_records(procs, full, parent, visited.insert(cur));
            }
        }
    }
}

/// Reading the process tree lazily is enough: once `next_to_read` finds
/// nothing more to read, the metadata found on the records read is the
/// metadata found on any fuller table that holds the same record for each
/// process read.
pub proof fn lemma_records_read_decide(procs: Seq<ProcView>, full: Seq<ProcView>, pid: i64)
    requires
        forall|p: u32| #[trigger] pid_set(procs).contains(p) ==> proc_entry(full, p) == proc_entry(procs, p),
        missing_record(procs, pid) is None,
    ensures
        spawn_metadata_spec(procs, pid) == spawn_metadata_spec(full, pid),
{
    lemma_walk_on_records(procs, full, pid as u32, Set::empty());
}

/// The bytes of a command line as the kernel lists it: every argument
/// followed by a NUL.
pub open spec fn nul_terminated(fields: Seq<Seq<u8>>) -> Seq<u8>
    decreases fields.len(),
{
    if fields.len() == 0 {
        Seq::empty()
    } else {
        nul_terminated(fields.drop_last()) + fields.last() + seq![0u8]
    }
}

pub open spec fn nul_free(f: Seq<u8>) -> bool {
    forall|i: int| 0 <= i < f.len() ==> #[trigger] f[i] != 0
}

proof fn lemma_nul_scan_field(d: Seq<u8>, f: Seq<u8>)
    requires
        nul_scan(d).1 == Seq::<u8>::empty(),
        nul_free(f),
    ensures
        nul_scan(d + f) == (nul_scan(d).0, f),
    decreases f.len(),
{
    if f.len() == 0 {
        assert(d + f =~= d);
    } else {
        let g = f.drop_last();
        lemma_nul_scan_field(d, g);
        assert((d + f).drop_last() =~= d + g);
        assert((d + f).last() == f.last());
        assert(g.push(f.last()) =~= f);
    }
}

/// Splitting a NUL-terminated list of NUL-free fields gives the fields back,
/// empty ones included.
pub proof fn lemma_nul_fields_roundtrip(fields: Seq<Seq<u8>>)
    requires
        forall|i: int| 0 <= i < fields.len() ==> nul_free(#[trigger] fields[i]),
    ensures
        nul_scan(nul_terminated(fields)) == (fields, Seq::<u8>::empty()),
        nul_fields(nul_terminated(fields)) == fields,
    decreases fields.len(),
{
    if fields.len() == 0 {
        assert(nul_scan(Seq::<u8>::empty()) == (Seq::<Seq<u8>>::empty(), Seq::<u8>::empty()));
        assert(fields =~= Seq::<Seq<u8>>::empty());
    } else {
        let init = fields.drop_last();
        let f = fields.last();
        assert(f == fields[fields.len() - 1]);
        lemma_nul_fields_roundtrip(init);
        let d = nul_terminated(init);
        lemma_nul_scan_field(d, f);
        let data = nul_terminated(fields);
        assert(data == d + f + seq![0u8]);
        assert(data.drop_last() =~= d + f);
        assert(data.last() == 0u8);
        assert(init.push(f) =~= fields);
    }
}

proof fn lemma_encode_scalar_nul_free(c: u32)
    requires
        vstd::utf8::is_scalar(c),
        c != 0,
    ensures
        vstd::utf8::encode_scalar(c).len() > 0,
        nul_free(vstd::utf8::encode_scalar(c)),
{
    let e = vstd::utf8::encode_scalar(c);
    if vstd::utf8::has_width_1_encoding(c) {
        assert((c & 0x7F) as u8 != 0) by (bit_vector)
            requires
                c <= 0x7F,
                c != 0,
        ;
    } else {
        let a = ((c >> 6) & 0x1F) as u8;
        let b = (c & 0x3F) as u8;
        let x = ((c >> 6) & 0x3F) as u8;
        let y = ((c >> 12) & 0x0F) as u8;
        let z = ((c >> 12) & 0x3F) as u8;
        let t = ((c >> 18) & 0x7) as u8;
        assert((0xC0u8 | a) != 0 && (0x80u8 | b) != 0 && (0x80u8 | x) != 0 && (0xE0u8 | y) != 0
            && (0x80u8 | z) != 0 && (0xF0u8 | t) != 0) by (bit_vector);
    }
}

/// Text without NUL characters encodes to NUL-free UTF-8.
pub proof fn lemma_encode_nul_free(s: Seq<char>)
    requires
        forall|i: int| 0 <= i < s.len() ==> #[trigger] s[i] != '\0',
    ensures
        nul_free(vstd::utf8::encode_utf8(s)),
        s.len() > 0 ==> vstd::utf8::encode_utf8(s).len() > 0,
    decreases s.len(),
{
    if s.len() > 0 {
        let c = s[0] as u32;
        vstd::utf8::char_is_scalar(s[0]);
        assert(c != 0) by {
            vstd::utf8::char_u32_cast(s[0], c);
            vstd::utf8::char_u32_cast('\0', 0u32);
        }
        lemma_encode_scalar_nul_free(c);
        let rest = s.drop_first();
        assert forall|i: int| 0 <= i < rest.len() implies #[trigger] rest[i] != '\0' by {
            assert(rest[i] == s[i + 1]);
        }
        lemma_encode_nul_free(rest);
        let e = vstd::utf8::encode_utf8(s);
        let h = vstd::utf8::encode_scalar(c);
        let t = vstd::utf8::encode_utf8(rest);
        assert(e == h + t);
        assert forall|i: int| 0 <= i < e.len() implies #[trigger] e[i] != 0 by {
            if i < h.len() {
                assert(e[i] == h[i]);
            } else {
                assert(e[i] == t[i - h.len()]);
            }
        }
    }
}

/// Arguments that hold no NUL (which an argument cannot) come back unchanged
/// from a command line that lists them, empty ones included.
pub proof fn lemma_cmdline_roundtrip(args: Seq<Seq<char>>)
    requires
        forall|i: int, j: int| 0 <= i < args.len() && 0 <= j < args[i].len() ==> #[trigger] args[i][j] != '\0',
    ensures
        cmdline_args(nul_terminated(args.map_values(|a: Seq<char>| vstd::utf8::encode_utf8(a)))) == args,
{
    let fields = args.map_values(|a: Seq<char>| vstd::utf8::encode_utf8(a));
    assert forall|i: int| 0 <= i < fields.len() implies nul_free(#[trigger] fields[i]) by {
        let a = args[i];
        assert forall|j: int| 0 <= j < a.len() implies #[trigger] a[j] != '\0' by {
            assert(args[i][j] != '\0');
        }
        lemma_encode_nul_free(a);
    }
    lemma_nul_fields_roundtrip(fields);
    let back = cmdline_args(nul_terminated(fields));
    assert forall|i: int| 0 <= i < args.len() implies #[trigger] back[i] == args[i] by {
        vstd::utf8::encode_utf8_valid_utf8(args[i]);
        vstd::utf8::encode_utf8_decode_utf8(args[i]);
    }
    assert(back =~= args);
}

/// The wrapper's command line, `<exe> spawn <ws> <path> <cmd>`, names a
/// spawn wrapper, and its workspace and tree position are `ws` and `path`,
/// when the executable's name mentions `sway-layout`.
pub proof fn lemma_spawn_args_roundtrip(exe: Seq<char>, ws: Seq<char>, path: Seq<char>, cmd: Seq<char>)
    requires
        has_substring(exe, "sway-layout"@),
    ensures
        spawn_marker(seq![exe, "spawn"@, ws, path, cmd]),
        spawn_args(seq![exe, "spawn"@, ws, path, cmd]) == Some((ws, path)),
{
    reveal_strlit("sway-layout");
    reveal_strlit("spawn");
    let args = seq![exe, "spawn"@, ws, path, cmd];
    assert(args[0] == exe);
    assert(args[1] == "spawn"@);
    assert(exe.len() >= 11);
    assert(exe != "spawn"@);
    let i = choose|i: int|
        0 <= i < args.len() && #[trigger] args[i] == "spawn"@ && forall|j: int|
            0 <= j < i ==> #[trigger] args[j] != "spawn"@;
    assert(0 <= 1 < args.len() && args[1] == "spawn"@ && forall|j: int| 0 <= j < 1 ==> #[trigger] args[j] != "spawn"@);
    if i > 1 {
        assert(args[1] != "spawn"@);
    }
    assert(i == 1);
}

proof fn lemma_wrapper_args_valid(exe: Seq<char>, ws: Seq<char>, path: Seq<char>, cmd: Seq<char>)
    requires
        has_substring(exe, "sway-layout"@),
        forall|j: int| 0 <= j < exe.len() ==> #[trigger] exe[j] != '\0',
        forall|j: int| 0 <= j < ws.len() ==> #[trigger] ws[j] != '\0',
        forall|j: int| 0 <= j < path.len() ==> #[trigger] path[j] != '\0',
        forall|j: int| 0 <= j < cmd.len() ==> #[trigger] cmd[j] != '\0',
    ensures
        cmdline_args(nul_terminated(seq![exe, "spawn"@, ws, path, cmd].map_values(|a: Seq<char>| vstd::utf8::encode_utf8(a)))) == seq![exe, "spawn"@, ws, path, cmd],
{
    let args = seq![exe, "spawn"@, ws, path, cmd];
    reveal_strlit("spawn");
    reveal_strlit("sway-layout");
    assert forall|i: int, j: int| 0 <= i < args.len() && 0 <= j < args[i].len() implies #[trigger] args[i][j] != '\0' by {
        if i == 0 {
            assert(exe[j] != '\0');
        } else if i == 1 {
            assert("spawn"@[j] != '\0');
        } else if i == 2 {
            assert(ws[j] != '\0');
        } else if i == 3 {
            assert(path[j] != '\0');
        } else {
            assert(cmd[j] != '\0');
        }
    }
    lemma_cmdline_roundtrip(args);
}

/// Whether `chain` is a walk up the process tree that ends at a process
/// carrying metadata `m`: distinct pids above 1, each but the last carrying
/// no metadata and having the next as its parent.
spec fn ancestry_to(procs: Seq<ProcView>, chain: Seq<u32>, m: (Seq<char>, Seq<char>)) -> bool {
    &&& chain.no_duplicates()
    &&& ancestry_path(procs, chain, m)
}

/// Like `ancestry_to`, with repeated pids allowed.
spec fn ancestry_path(procs: Seq<ProcView>, chain: Seq<u32>, m: (Seq<char>, Seq<char>)) -> bool {
    &&& chain.len() > 0
    &&& forall|i: int| 0 <= i < chain.len() ==> #[trigger] chain[i] > 1
    &&& forall|i: int|
        0 <= i < chain.len() - 1 ==> metadata_at(procs, #[trigger] chain[i]) is None && parent_of(
            procs,
            chain[i],
        ) == Some(chain[i + 1])
    &&& metadata_at(procs, chain.last()) == Some(m)
}

/// A chain whose consecutive elements are linked keeps its first and last
/// elements and its links when the stretch between two equal elements is
/// cut out; cutting every such stretch leaves a chain without repeats.
proof fn lemma_cut_repeats(chain: Seq<u32>, link: spec_fn(u32, u32) -> bool) -> (short: Seq<u32>)
    requires
        chain.len() > 0,
        forall|k: int| 0 <= k < chain.len() - 1 ==> #[trigger] link(chain[k], chain[k + 1]),
    ensures
        short.len() > 0,
        short.no_duplicates(),
        short[0] == chain[0],
        short.last() == chain.last(),
        forall|k: int| 0 <= k < short.len() - 1 ==> #[trigger] link(short[k], short[k + 1]),
        forall|k: int| 0 <= k < short.len() ==> chain.contains(#[trigger] short[k]),
    decreases chain.len(),
{
    if chain.no_duplicates() {
        assert forall|k: int| 0 <= k < chain.len() implies chain.contains(#[trigger] chain[k]) by {}
        chain
    } else {
        let (i, j) = choose|i: int, j: int|
            0 <= i < chain.len() && 0 <= j < chain.len() && i != j && chain[i] == chain[j];
        let (a, b) = if i < j {
            (i, j)
        } else {
            (j, i)
        };
        let c = chain.take(a) + chain.skip(b);
        assert forall|k: int| 0 <= k < c.len() implies #[trigger] c[k] == if k < a {
            chain[k]
        } else {
            chain[k - a + b]
        } by {}
        assert forall|k: int| 0 <= k < c.len() - 1 implies #[trigger] link(c[k], c[k + 1]) by {
            if k < a - 1 {
                assert(c[k] == chain[k] && c[k + 1] == chain[k + 1]);
            } else if k == a - 1 {
                assert(c[k] == chain[k] && c[k + 1] == chain[b]);
                assert(link(chain[k], chain[k + 1]));
            } else {
                assert(c[k] == chain[k - a + b] && c[k + 1] == chain[k - a + b + 1]);
                assert(link(chain[k - a + b], chain[k - a + b + 1]));
            }
        }
        assert(c[0] == chain[0]);
        assert(c.last() == chain.last());
        let short = lemma_cut_repeats(c, link);
        assert forall|k: int| 0 <= k < short.len() implies chain.contains(#[trigger] short[k]) by {
            assert(c.contains(short[k]));
            let x = choose|x: int| 0 <= x < c.len() && c[x] == short[k];
            if x < a {
                assert(chain[x] == short[k]);
            } else {
                assert(chain[x - a + b] == short[k]);
            }
        }
        short
    }
}

/// A walk up the tree that repeats a pid can be cut short at the repeat: a
/// repeat-free walk from the same start reaches the same metadata.
proof fn lemma_shortest_ancestry(procs: Seq<ProcView>, chain: Seq<u32>, m: (Seq<char>, Seq<char>)) -> (short: Seq<u32>)
    requires
        ancestry_path(procs, chain, m),
    ensures
        ancestry_to(procs, short, m),
        short[0] == chain[0],
{
    let link = |p: u32, q: u32| metadata_at(procs, p) is None && parent_of(procs, p) == Some(q);
    assert forall|k: int| 0 <= k < chain.len() - 1 implies #[trigger] link(chain[k], chain[k + 1]) by {}
    let short = lemma_cut_repeats(chain, link);
    assert forall|k: int| 0 <= k < short.len() implies #[trigger] short[k] > 1 by {
        let x = choose|x: int| 0 <= x < chain.len() && chain[x] == short[k];
        assert(chain[x] > 1);
    }
    assert forall|k: int|
        0 <= k < short.len() - 1 implies metadata_at(procs, #[trigger] short[k]) is None && parent_of(
            procs,
            short[k],
        ) == Some(short[k + 1]) by {
        assert(link(short[k], short[k + 1]));
    }
    short
}

#[verifier::spinoff_prover]
#[verifier::rlimit(40)]
proof fn lemma_walk_chain(procs: Seq<ProcView>, chain: Seq<u32>, m: (Seq<char>, Seq<char>), k: nat)
    requires
        ancestry_to(procs, chain, m),
        k < chain.len(),
    ensures
        walk_spec(procs, chain[k as int], chain.take(k as int).to_set()) == Some(m),
    decreases chain.len() - k,
{
    let cur = chain[k as int];
    let visited = chain.take(k as int).to_set();
    assert(cur > 1);
    assert(!visited.contains(cur)) by {
        if visited.contains(cur) {
            let j = choose|j: int| 0 <= j < k && chain.take(k as int)[j] == cur;
            assert(chain[j] == chain[k as int]);
        }
    }
    if k + 1 < chain.len() {
        let parent = chain[(k + 1) as int];
        assert(metadata_at(procs, cur) is None && parent_of(procs, cur) == Some(parent));
        lemma_walk_chain(procs, chain, m, k + 1);
        lemma_walk_step(procs, cur, visited, parent);
        assert(chain.take((k + 1) as int) =~= chain.take(k as int).push(cur));
        chain.take(k as int).lemma_push_to_set_commute(cur);
    } else {
        assert(cur == chain.last());
    }
}

/// What a window's process identifies: the workspace and tree position the
/// launcher gave its spawn wrapper. When walking up from the window's
/// process `pid` reaches the wrapper, whose command line is
/// `<exe> spawn <ws> <path> <cmd>` (arguments hold no NUL; any of `ws`,
/// `path`, `cmd` may be empty) and the executable's name mentions
/// `sway-layout`, through processes that are no wrappers, the metadata found
/// is `(ws, path)`.
#[verifier::spinoff_prover]
#[verifier::rlimit(40)]
pub proof fn lemma_wrapper_identified(procs: Seq<ProcView>, pid: i64, chain: Seq<u32>, exe: Seq<char>, ws: Seq<char>, path: Seq<char>, cmd: Seq<char>)
    requires
        chain.len() > 0,
        chain[0] == pid as u32,
        forall|i: int| 0 <= i < chain.len() ==> #[trigger] chain[i] > 1,
        forall|i: int|
            0 <= i < chain.len() - 1 ==> metadata_at(procs, #[trigger] chain[i]) is None && parent_of(
                procs,
                chain[i],
            ) == Some(chain[i + 1]),
        proc_entry(procs, chain.last()) matches Some(p) && p.cmdline == Some(
            nul_terminated(seq![exe, "spawn"@, ws, path, cmd].map_values(|a: Seq<char>| vstd::utf8::encode_utf8(a))),
        ),
        has_substring(exe, "sway-layout"@),
        forall|j: int| 0 <= j < exe.len() ==> #[trigger] exe[j] != '\0',
        forall|j: int| 0 <= j < ws.len() ==> #[trigger] ws[j] != '\0',
        forall|j: int| 0 <= j < path.len() ==> #[trigger] path[j] != '\0',
        forall|j: int| 0 <= j < cmd.len() ==> #[trigger] cmd[j] != '\0',
    ensures
        spawn_metadata_spec(procs, pid) == Some((ws, path)),
{
    let args = seq![exe, "spawn"@, ws, path, cmd];
    let data = nul_terminated(args.map_values(|a: Seq<char>| vstd::utf8::encode_utf8(a)));
    lemma_wrapper_args_valid(exe, ws, path, cmd);
    lemma_spawn_args_roundtrip(exe, ws, path, cmd);
    lemma_metadata_from_cmdline(procs, chain.last(), data, (ws, path));
    assert(ancestry_path(procs, chain, (ws, path)));
    let short = lemma_shortest_ancestry(procs, chain, (ws, path));
    lemma_walk_chain(procs, short, (ws, path), 0);
    assert(short.take(0).to_set() =~= Set::<u32>::empty());
}

proof fn lemma_metadata_from_cmdline(procs: Seq<ProcView>, pid: u32, data: Seq<u8>, m: (Seq<char>, Seq<char>))
    requires
        proc_entry(procs, pid) matches Some(p) && p.cmdline == Some(data),
        spawn_marker(cmdline_args(data)),
        spawn_args(cmdline_args(data)) == Some(m),
    ensures
        metadata_at(procs, pid) == Some(m),
{
}

} // verus!
