//! The process table: per-process samples grouped by executable, and the
//! orderings the table can be sorted by.

use vstd::multiset::Multiset;
use vstd::prelude::*;

verus! {

/// One running process as sampled: its executable's path (as bytes; absent
/// when it cannot be determined), name, ids, resident memory in bytes and
/// CPU share. The CPU share is carried as an ordering key: larger keys are
/// larger shares, and 0 is no share.
pub struct ProcessSample {
    pub exe_path: Option<Vec<u8>>,
    pub name: String,
    pub pid: u32,
    pub ppid: u32,
    pub memory: u64,
    pub cpu: u32,
}

/// One row of the table: all processes running the same executable. Name
/// and parent id come from the first of them; memory and CPU are the
/// largest among them, the id the smallest.
pub struct ProcessGroup {
    pub exe_path: Vec<u8>,
    pub memory: u64,
    pub cpu: u32,
    pub name: String,
    pub ppid: u32,
    pub pid: u32,
}

/// The sample runs the executable at `path`.
pub open spec fn runs(s: ProcessSample, path: Seq<u8>) -> bool {
    s.exe_path matches Some(p) && p@ == path
}

/// The index of the first sample that runs `path`, or the number of samples
/// if none does.
pub open spec fn first_index(samples: Seq<ProcessSample>, path: Seq<u8>) -> int
    decreases samples.len(),
{
    if samples.len() == 0 {
        0
    } else {
        let prefix = samples.drop_last();
        let f = first_index(prefix, path);
        if f < prefix.len() {
            f
        } else if runs(samples.last(), path) {
            prefix.len() as int
        } else {
            samples.len() as int
        }
    }
}

/// The largest memory among the samples that run `path` (0 if none).
pub open spec fn peak_memory(samples: Seq<ProcessSample>, path: Seq<u8>) -> u64
    decreases samples.len(),
{
    if samples.len() == 0 {
        0
    } else {
        let m = peak_memory(samples.drop_last(), path);
        let s = samples.last();
        if runs(s, path) && s.memory > m {
            s.memory
        } else {
            m
        }
    }
}

/// The largest CPU key among the samples that run `path` (0 if none).
pub open spec fn peak_cpu(samples: Seq<ProcessSample>, path: Seq<u8>) -> u32
    decreases samples.len(),
{
    if samples.len() == 0 {
        0
    } else {
        let m = peak_cpu(samples.drop_last(), path);
        let s = samples.last();
        if runs(s, path) && s.cpu > m {
            s.cpu
        } else {
            m
        }
    }
}

/// The smallest process id among the samples that run `path`
/// (`u32::MAX` if none).
pub open spec fn lowest_pid(samples: Seq<ProcessSample>, path: Seq<u8>) -> u32
    decreases samples.len(),
{
    if samples.len() == 0 {
        u32::MAX
    } else {
        let m = lowest_pid(samples.drop_last(), path);
        let s = samples.last();
        if runs(s, path) && s.pid < m {
            s.pid
        } else {
            m
        }
    }
}

/// `g` is the row for the executable at its path, made from `samples`.
pub open spec fn group_of(samples: Seq<ProcessSample>, g: ProcessGroup) -> bool {
    let path = g.exe_path@;
    let f = first_index(samples, path);
    &&& f < samples.len()
    &&& g.memory == peak_memory(samples, path)
    &&& g.cpu == peak_cpu(samples, path)
    &&& g.pid == lowest_pid(samples, path)
    &&& g.name@ == samples[f].name@
    &&& g.ppid == samples[f].ppid
}

/// `groups` holds one row per executable that some sample runs, in the
/// order the executables first appear among the samples.
pub open spec fn grouped(samples: Seq<ProcessSample>, groups: Seq<ProcessGroup>) -> bool {
    &&& forall|i: int| 0 <= i < groups.len() ==> group_of(samples, #[trigger] groups[i])
    &&& forall|i: int, j: int|
        0 <= i < j < groups.len() ==> first_index(samples, #[trigger] groups[i].exe_path@)
            < first_index(samples, #[trigger] groups[j].exe_path@)
    &&& forall|k: int|
        0 <= k < samples.len() && (#[trigger] samples[k]).exe_path is Some ==> exists|i: int|
            0 <= i < groups.len() && #[trigger] groups[i].exe_path@ == samples[k].exe_path->0@
}

pub proof fn lemma_push_sample(t: Seq<ProcessSample>, s: ProcessSample, path: Seq<u8>)
    ensures
        first_index(t.push(s), path) == (if first_index(t, path) < t.len() {
            first_index(t, path)
        } else if runs(s, path) {
            t.len() as int
        } else {
            t.len() + 1int
        }),
        peak_memory(t.push(s), path) == (if runs(s, path) && s.memory > peak_memory(t, path) {
            s.memory
        } else {
            peak_memory(t, path)
        }),
        peak_cpu(t.push(s), path) == (if runs(s, path) && s.cpu > peak_cpu(t, path) {
            s.cpu
        } else {
            peak_cpu(t, path)
        }),
        lowest_pid(t.push(s), path) == (if runs(s, path) && s.pid < lowest_pid(t, path) {
            s.pid
        } else {
            lowest_pid(t, path)
        }),
{
    assert(t.push(s).drop_last() =~= t);
}

pub proof fn lemma_first_index_bounds(t: Seq<ProcessSample>, path: Seq<u8>)
    ensures
        0 <= first_index(t, path) <= t.len(),
        first_index(t, path) < t.len() ==> runs(t[first_index(t, path)], path),
        forall|k: int| 0 <= k < first_index(t, path) ==> !runs(#[trigger] t[k], path),
    decreases t.len(),
{
    if t.len() > 0 {
        let prefix = t.drop_last();
        lemma_first_index_bounds(prefix, path);
        assert forall|k: int| 0 <= k < first_index(t, path) implies !runs(#[trigger] t[k], path) by {
            if k < prefix.len() {
                assert(t[k] == prefix[k]);
            }
        }
        if first_index(t, path) < prefix.len() {
            assert(t[first_index(t, path)] == prefix[first_index(t, path)]);
        }
    }
}

/// Compares two byte strings for equality.
fn bytes_equal(a: &[u8], b: &[u8]) -> (equal: bool)
    ensures
        equal == (a@ == b@),
{
    if a.len() != b.len() {
        return false;
    }
    let mut i: usize = 0;
    while i < a.len()
        invariant
            a@.len() == b@.len(),
            i <= a@.len(),
            forall|k: int| 0 <= k < i ==> a@[k] == b@[k],
        decreases a@.len() - i,
    {
        if a[i] != b[i] {
            return false;
        }
        i = i + 1;
    }
    assert(a@ =~= b@);
    true
}

/// The index of the row for the executable at `path`, if there is one.
fn find_group(groups: &Vec<ProcessGroup>, path: &Vec<u8>) -> (found: Option<usize>)
    ensures
        found matches Some(j) ==> j < groups@.len() && groups@[j as int].exe_path@ == path@,
        found is None ==> forall|j: int| 0 <= j < groups@.len() ==> #[trigger] groups@[j].exe_path@ != path@,
{
    let mut j: usize = 0;
    while j < groups.len()
        invariant
            j <= groups@.len(),
            forall|k: int| 0 <= k < j ==> #[trigger] groups@[k].exe_path@ != path@,
        decreases groups@.len() - j,
    {
        if bytes_equal(groups[j].exe_path.as_slice(), path.as_slice()) {
            return Some(j);
        }
        j = j + 1;
    }
    None
}

pub proof fn lemma_path_absent(t: Seq<ProcessSample>, path: Seq<u8>)
    requires
        first_index(t, path) == t.len(),
    ensures
        peak_memory(t, path) == 0,
        peak_cpu(t, path) == 0,
        lowest_pid(t, path) == u32::MAX,
    decreases t.len(),
{
    if t.len() > 0 {
        lemma_first_index_bounds(t.drop_last(), path);
        lemma_path_absent(t.drop_last(), path);
    }
}

/// Distinct rows are for distinct executables.
pub proof fn lemma_grouped_distinct(samples: Seq<ProcessSample>, groups: Seq<ProcessGroup>, i: int, j: int)
    requires
        grouped(samples, groups),
        0 <= i < groups.len(),
        0 <= j < groups.len(),
        i != j,
    ensures
        groups[i].exe_path@ != groups[j].exe_path@,
{
    if i < j {
        assert(first_index(samples, groups[i].exe_path@) < first_index(samples, groups[j].exe_path@));
    } else {
        assert(first_index(samples, groups[j].exe_path@) < first_index(samples, groups[i].exe_path@));
    }
}

/// A sample without an executable path leaves the rows as they are.
pub proof fn lemma_step_no_path(t: Seq<ProcessSample>, s: ProcessSample, groups: Seq<ProcessGroup>)
    requires
        grouped(t, groups),
        s.exe_path is None,
    ensures
        grouped(t.push(s), groups),
{
    let t2 = t.push(s);
    assert forall|i: int| 0 <= i < groups.len() implies group_of(t2, #[trigger] groups[i]) by {
        lemma_push_sample(t, s, groups[i].exe_path@);
        assert(group_of(t, groups[i]));
        let f = first_index(t, groups[i].exe_path@);
        lemma_first_index_bounds(t, groups[i].exe_path@);
        assert(t2[f] == t[f]);
    }
    assert forall|i: int, j: int| 0 <= i < j < groups.len() implies first_index(t2, #[trigger] groups[i].exe_path@)
        < first_index(t2, #[trigger] groups[j].exe_path@) by {
        lemma_push_sample(t, s, groups[i].exe_path@);
        lemma_push_sample(t, s, groups[j].exe_path@);
        assert(group_of(t, groups[i]));
        assert(group_of(t, groups[j]));
    }
    assert forall|k: int| 0 <= k < t2.len() && (#[trigger] t2[k]).exe_path is Some implies exists|i: int|
        0 <= i < groups.len() && #[trigger] groups[i].exe_path@ == t2[k].exe_path->0@ by {
        assert(t2[k] == t[k]);
    }
}

/// A sample of an executable that already has a row folds into that row.
pub proof fn lemma_step_known(
    t: Seq<ProcessSample>,
    s: ProcessSample,
    groups: Seq<ProcessGroup>,
    j: int,
    g: ProcessGroup,
)
    requires
        grouped(t, groups),
        0 <= j < groups.len(),
        s.exe_path is Some,
        groups[j].exe_path@ == s.exe_path->0@,
        g.exe_path@ == groups[j].exe_path@,
        g.name@ == groups[j].name@,
        g.ppid == groups[j].ppid,
        g.memory == (if s.memory > groups[j].memory { s.memory } else { groups[j].memory }),
        g.cpu == (if s.cpu > groups[j].cpu { s.cpu } else { groups[j].cpu }),
        g.pid == (if s.pid < groups[j].pid { s.pid } else { groups[j].pid }),
    ensures
        grouped(t.push(s), groups.update(j, g)),
{
    let t2 = t.push(s);
    let g2 = groups.update(j, g);
    assert forall|i: int| 0 <= i < g2.len() implies group_of(t2, #[trigger] g2[i]) by {
        lemma_push_sample(t, s, g2[i].exe_path@);
        assert(group_of(t, groups[i]));
        if i != j {
            lemma_grouped_distinct(t, groups, i, j);
        }
        let f = first_index(t, g2[i].exe_path@);
        assert(f == first_index(t, groups[i].exe_path@));
        lemma_first_index_bounds(t, groups[i].exe_path@);
        assert(t2[f] == t[f]);
    }
    assert forall|i: int, k: int| 0 <= i < k < g2.len() implies first_index(t2, #[trigger] g2[i].exe_path@)
        < first_index(t2, #[trigger] g2[k].exe_path@) by {
        lemma_push_sample(t, s, g2[i].exe_path@);
        lemma_push_sample(t, s, g2[k].exe_path@);
        assert(group_of(t, groups[i]));
        assert(group_of(t, groups[k]));
        assert(first_index(t, groups[i].exe_path@) < first_index(t, groups[k].exe_path@));
    }
    assert forall|k: int| 0 <= k < t2.len() && (#[trigger] t2[k]).exe_path is Some implies exists|i: int|
        0 <= i < g2.len() && #[trigger] g2[i].exe_path@ == t2[k].exe_path->0@ by {
        if k < t.len() {
            assert(t2[k] == t[k]);
            let i = choose|i: int| 0 <= i < groups.len() && #[trigger] groups[i].exe_path@ == t[k].exe_path->0@;
            assert(g2[i].exe_path@ == t2[k].exe_path->0@);
        } else {
            assert(g2[j].exe_path@ == t2[k].exe_path->0@);
        }
    }
}

/// A sample of an executable without a row starts a new row at the end.
pub proof fn lemma_step_new(t: Seq<ProcessSample>, s: ProcessSample, groups: Seq<ProcessGroup>, g: ProcessGroup)
    requires
        grouped(t, groups),
        s.exe_path is Some,
        forall|j: int| 0 <= j < groups.len() ==> #[trigger] groups[j].exe_path@ != s.exe_path->0@,
        g.exe_path@ == s.exe_path->0@,
        g.name@ == s.name@,
        g.ppid == s.ppid,
        g.memory == s.memory,
        g.cpu == s.cpu,
        g.pid == s.pid,
    ensures
        grouped(t.push(s), groups.push(g)),
{
    let t2 = t.push(s);
    let g2 = groups.push(g);
    let path = g.exe_path@;
    lemma_first_index_bounds(t, path);
    if first_index(t, path) < t.len() {
        let k = first_index(t, path);
        assert(t[k].exe_path is Some);
        let i = choose|i: int| 0 <= i < groups.len() && #[trigger] groups[i].exe_path@ == t[k].exe_path->0@;
        assert(false);
    }
    lemma_path_absent(t, path);
    lemma_push_sample(t, s, path);
    assert forall|i: int| 0 <= i < g2.len() implies group_of(t2, #[trigger] g2[i]) by {
        lemma_push_sample(t, s, g2[i].exe_path@);
        if i < groups.len() {
            assert(g2[i] == groups[i]);
            assert(group_of(t, groups[i]));
            let f = first_index(t, g2[i].exe_path@);
            lemma_first_index_bounds(t, g2[i].exe_path@);
            assert(t2[f] == t[f]);
        } else {
            assert(t2[t.len() as int] == s);
        }
    }
    assert forall|i: int, k: int| 0 <= i < k < g2.len() implies first_index(t2, #[trigger] g2[i].exe_path@)
        < first_index(t2, #[trigger] g2[k].exe_path@) by {
        lemma_push_sample(t, s, g2[i].exe_path@);
        lemma_push_sample(t, s, g2[k].exe_path@);
        assert(g2[i] == groups[i]);
        assert(group_of(t, groups[i]));
        if k < groups.len() {
            assert(g2[k] == groups[k]);
            assert(group_of(t, groups[k]));
        }
    }
    assert forall|k: int| 0 <= k < t2.len() && (#[trigger] t2[k]).exe_path is Some implies exists|i: int|
        0 <= i < g2.len() && #[trigger] g2[i].exe_path@ == t2[k].exe_path->0@ by {
        if k < t.len() {
            assert(t2[k] == t[k]);
            let i = choose|i: int| 0 <= i < groups.len() && #[trigger] groups[i].exe_path@ == t[k].exe_path->0@;
            assert(g2[i] == groups[i]);
        } else {
            assert(g2[groups.len() as int].exe_path@ == t2[k].exe_path->0@);
        }
    }
}

/// Groups the samples into one row per executable, in the order the
/// executables first appear; samples without an executable path are left
/// out. A row's name and parent id are those of the first sample of its
/// executable, its memory and CPU the largest, its id the smallest.
pub fn group_processes(samples: &Vec<ProcessSample>) -> (groups: Vec<ProcessGroup>)
    ensures
        grouped(samples@, groups@),
{
    let mut groups: Vec<ProcessGroup> = Vec::new();
    let mut i: usize = 0;
    proof {
        assert(samples@.take(0) =~= Seq::<ProcessSample>::empty());
    }
    while i < samples.len()
        invariant
            i <= samples@.len(),
            grouped(samples@.take(i as int), groups@),
        decreases samples@.len() - i,
    {
        let s = &samples[i];
        let ghost t = samples@.take(i as int);
        proof {
            assert(samples@.take(i + 1) =~= t.push(*s));
        }
        match &s.exe_path {
            None => {
                proof {
                    lemma_step_no_path(t, *s, groups@);
                }
            },
            Some(path) => {
                match find_group(&groups, path) {
                    Some(j) => {
                        let ghost before = groups@;
                        let mut g = groups.remove(j);
                        if s.memory > g.memory {
                            g.memory = s.memory;
                        }
                        if s.cpu > g.cpu {
                            g.cpu = s.cpu;
                        }
                        if s.pid < g.pid {
                            g.pid = s.pid;
                        }
                        groups.insert(j, g);
                        proof {
                            assert(groups@ =~= before.update(j as int, groups@[j as int]));
                            lemma_step_known(t, *s, before, j as int, groups@[j as int]);
                        }
                    },
                    None => {
                        let g = ProcessGroup {
                            exe_path: path.clone(),
                            memory: s.memory,
                            cpu: s.cpu,
                            name: s.name.clone(),
                            ppid: s.ppid,
                            pid: s.pid,
                        };
                        proof {
                            lemma_step_new(t, *s, groups@, g);
                        }
                        groups.push(g);
                    },
                }
            },
        }
        i = i + 1;
    }
    proof {
        assert(samples@.take(samples@.len() as int) =~= samples@);
    }
    groups
}

/// The column the table is ordered by.
#[derive(Clone, Copy, Debug, PartialEq, Eq, Structural)]
pub enum SortBy {
    Name,
    CPU,
    RAM,
    PPID,
    PID,
}

/// Byte strings in lexicographic order: `a` comes no later than `b`.
pub open spec fn bytes_le(a: Seq<u8>, b: Seq<u8>) -> bool
    decreases a.len(),
{
    if a.len() == 0 {
        true
    } else if b.len() == 0 {
        false
    } else if a[0] != b[0] {
        a[0] < b[0]
    } else {
        bytes_le(a.drop_first(), b.drop_first())
    }
}

pub proof fn lemma_bytes_le_total(a: Seq<u8>, b: Seq<u8>)
    ensures
        bytes_le(a, b) || bytes_le(b, a),
    decreases a.len(),
{
    if a.len() > 0 && b.len() > 0 && a[0] == b[0] {
        lemma_bytes_le_total(a.drop_first(), b.drop_first());
    }
}

pub proof fn lemma_bytes_le_transitive(a: Seq<u8>, b: Seq<u8>, c: Seq<u8>)
    requires
        bytes_le(a, b),
        bytes_le(b, c),
    ensures
        bytes_le(a, c),
    decreases a.len(),
{
    if a.len() > 0 && b.len() > 0 && c.len() > 0 && a[0] == b[0] && b[0] == c[0] {
        lemma_bytes_le_transitive(a.drop_first(), b.drop_first(), c.drop_first());
    }
}

/// `a` comes no later than `b` in dictionary order: `a` is a prefix of `b`,
/// or at the first position where they differ `a` has the smaller byte.
pub open spec fn dictionary_le(a: Seq<u8>, b: Seq<u8>) -> bool {
    ||| (a.len() <= b.len() && a =~= b.take(a.len() as int))
    ||| exists|k: int| 0 <= k < a.len() && k < b.len() && a.take(k) =~= b.take(k) && #[trigger] a[k] < b[k]
}

/// The byte order that names are sorted by is dictionary order.
pub proof fn lemma_bytes_le_is_dictionary_order(a: Seq<u8>, b: Seq<u8>)
    ensures
        bytes_le(a, b) <==> dictionary_le(a, b),
    decreases a.len(),
{
    if a.len() == 0 {
        assert(a =~= b.take(0));
    } else if b.len() == 0 {
    } else if a[0] != b[0] {
        if a.len() <= b.len() && a =~= b.take(a.len() as int) {
            assert(a[0] == b.take(a.len() as int)[0]);
        }
        if a[0] < b[0] {
            assert(a.take(0) =~= b.take(0));
            assert(a[0] < b[0]);
        }
        assert forall|k: int| 0 <= k < a.len() && k < b.len() && a.take(k) =~= b.take(k) && #[trigger] a[k] < b[k]
            implies a[0] < b[0] by {
            if k > 0 {
                assert(a.take(k)[0] == b.take(k)[0]);
            }
        }
    } else {
        let a1 = a.drop_first();
        let b1 = b.drop_first();
        lemma_bytes_le_is_dictionary_order(a1, b1);
        if a1.len() <= b1.len() && a1 =~= b1.take(a1.len() as int) {
            assert forall|i: int| 0 <= i < a.len() implies #[trigger] a[i] == b.take(a.len() as int)[i] by {
                if i > 0 {
                    assert(a1[i - 1] == b1.take(a1.len() as int)[i - 1]);
                }
            }
            assert(a =~= b.take(a.len() as int));
        }
        if a.len() <= b.len() && a =~= b.take(a.len() as int) {
            assert forall|i: int| 0 <= i < a1.len() implies #[trigger] a1[i] == b1.take(a1.len() as int)[i] by {
                assert(a[i + 1] == b.take(a.len() as int)[i + 1]);
            }
            assert(a1 =~= b1.take(a1.len() as int));
        }
        if exists|k: int| 0 <= k < a1.len() && k < b1.len() && a1.take(k) =~= b1.take(k) && #[trigger] a1[k] < b1[k] {
            let k = choose|k: int| 0 <= k < a1.len() && k < b1.len() && a1.take(k) =~= b1.take(k) && #[trigger] a1[k] < b1[k];
            assert forall|i: int| 0 <= i < k + 1 implies #[trigger] a.take(k + 1)[i] == b.take(k + 1)[i] by {
                if i > 0 {
                    assert(a1.take(k)[i - 1] == b1.take(k)[i - 1]);
                }
            }
            assert(a.take(k + 1) =~= b.take(k + 1));
            assert(a[k + 1] < b[k + 1]);
        }
        if exists|k: int| 0 <= k < a.len() && k < b.len() && a.take(k) =~= b.take(k) && #[trigger] a[k] < b[k] {
            let k = choose|k: int| 0 <= k < a.len() && k < b.len() && a.take(k) =~= b.take(k) && #[trigger] a[k] < b[k];
            assert(k > 0);
            assert forall|i: int| 0 <= i < k - 1 implies #[trigger] a1.take(k - 1)[i] == b1.take(k - 1)[i] by {
                assert(a.take(k)[i + 1] == b.take(k)[i + 1]);
            }
            assert(a1.take(k - 1) =~= b1.take(k - 1));
            assert(a1[k - 1] < b1[k - 1]);
        }
    }
}

/// A row's name as the UTF-8 bytes that names are ordered by.
pub open spec fn name_bytes(g: ProcessGroup) -> Seq<u8> {
    vstd::utf8::encode_utf8(g.name@)
}

/// Row `a` comes no later than row `b` in ascending order of column `by`.
pub open spec fn key_le(by: SortBy, a: ProcessGroup, b: ProcessGroup) -> bool {
    match by {
        SortBy::Name => bytes_le(name_bytes(a), name_bytes(b)),
        SortBy::CPU => a.cpu <= b.cpu,
        SortBy::RAM => a.memory <= b.memory,
        SortBy::PPID => a.ppid <= b.ppid,
        SortBy::PID => a.pid <= b.pid,
    }
}

/// Row `a` may come before row `b` when ordering by column `by`, ascending
/// or descending.
pub open spec fn in_order(by: SortBy, ascending: bool, a: ProcessGroup, b: ProcessGroup) -> bool {
    if ascending {
        key_le(by, a, b)
    } else {
        key_le(by, b, a)
    }
}

/// The rows are ordered by column `by`, ascending or descending.
pub open spec fn sorted_by(rows: Seq<ProcessGroup>, by: SortBy, ascending: bool) -> bool {
    forall|i: int, j: int| 0 <= i < j < rows.len() ==> in_order(by, ascending, #[trigger] rows[i], #[trigger] rows[j])
}

pub proof fn lemma_in_order_total(by: SortBy, ascending: bool, a: ProcessGroup, b: ProcessGroup)
    ensures
        in_order(by, ascending, a, b) || in_order(by, ascending, b, a),
{
    lemma_bytes_le_total(name_bytes(a), name_bytes(b));
}

pub proof fn lemma_in_order_transitive(
    by: SortBy,
    ascending: bool,
    a: ProcessGroup,
    b: ProcessGroup,
    c: ProcessGroup,
)
    requires
        in_order(by, ascending, a, b),
        in_order(by, ascending, b, c),
    ensures
        in_order(by, ascending, a, c),
{
    if by == SortBy::Name {
        if ascending {
            lemma_bytes_le_transitive(name_bytes(a), name_bytes(b), name_bytes(c));
        } else {
            lemma_bytes_le_transitive(name_bytes(c), name_bytes(b), name_bytes(a));
        }
    }
}

/// Compares byte strings lexicographically.
fn bytes_le_exec(a: &[u8], b: &[u8]) -> (le: bool)
    ensures
        le == bytes_le(a@, b@),
{
    let mut i: usize = 0;
    assert(a@.skip(0) =~= a@);
    assert(b@.skip(0) =~= b@);
    while i < a.len() && i < b.len()
        invariant
            i <= a@.len(),
            i <= b@.len(),
            bytes_le(a@, b@) == bytes_le(a@.skip(i as int), b@.skip(i as int)),
        decreases a@.len() - i,
    {
        assert(a@.skip(i as int).drop_first() =~= a@.skip(i + 1));
        assert(b@.skip(i as int).drop_first() =~= b@.skip(i + 1));
        if a[i] != b[i] {
            return a[i] < b[i];
        }
        i = i + 1;
    }
    a.len() <= b.len()
}

/// Whether row `a` may come before row `b` when ordering by column `by`.
fn comes_before(a: &ProcessGroup, b: &ProcessGroup, by: SortBy, ascending: bool) -> (before: bool)
    ensures
        before == in_order(by, ascending, *a, *b),
{
    let (first, second) = if ascending {
        (a, b)
    } else {
        (b, a)
    };
    match by {
        SortBy::Name => bytes_le_exec(first.name.as_str().as_bytes(), second.name.as_str().as_bytes()),
        SortBy::CPU => first.cpu <= second.cpu,
        SortBy::RAM => first.memory <= second.memory,
        SortBy::PPID => first.ppid <= second.ppid,
        SortBy::PID => first.pid <= second.pid,
    }
}

/// `idx` tells, for each of the first `idx.len()` rows of `result`, the
/// position in `initial` that the row came from; no position twice.
pub open spec fn drawn_from(initial: Seq<ProcessGroup>, result: Seq<ProcessGroup>, idx: Seq<int>) -> bool {
    &&& idx.len() <= result.len()
    &&& forall|k: int|
        0 <= k < idx.len() ==> 0 <= #[trigger] idx[k] < initial.len() && result[k] == initial[idx[k]]
    &&& forall|a: int, b: int| 0 <= a < b < idx.len() ==> #[trigger] idx[a] != #[trigger] idx[b]
}

/// Rows that tie under the ordering keep the order they had in `initial`.
pub open spec fn ties_kept(result: Seq<ProcessGroup>, idx: Seq<int>, by: SortBy, ascending: bool) -> bool {
    forall|a: int, b: int|
        0 <= a < b < result.len() && in_order(by, ascending, #[trigger] result[b], #[trigger] result[a])
            ==> idx[a] < idx[b]
}

/// Orders the rows by column `by`, ascending or descending; rows that tie
/// keep their relative order.
pub fn sort_processes(groups: &mut Vec<ProcessGroup>, sort_by: SortBy, ascending: bool)
    ensures
        final(groups)@.to_multiset() == old(groups)@.to_multiset(),
        sorted_by(final(groups)@, sort_by, ascending),
        forall|i: int, j: int|
            #![trigger final(groups)@[i], final(groups)@[j]]
            0 <= i < j < final(groups)@.len() ==> {
                let a = if ascending { final(groups)@[i] } else { final(groups)@[j] };
                let b = if ascending { final(groups)@[j] } else { final(groups)@[i] };
                &&& sort_by == SortBy::PPID ==> a.ppid <= b.ppid
                &&& sort_by == SortBy::PID ==> a.pid <= b.pid
                &&& sort_by == SortBy::RAM ==> a.memory <= b.memory
                &&& sort_by == SortBy::CPU ==> a.cpu <= b.cpu
                &&& sort_by == SortBy::Name ==> dictionary_le(name_bytes(a), name_bytes(b))
            },
        exists|idx: Seq<int>|
            {
                &&& idx.len() == old(groups)@.len()
                &&& #[trigger] drawn_from(old(groups)@, final(groups)@, idx)
                &&& ties_kept(final(groups)@, idx, sort_by, ascending)
            },
{
    broadcast use vstd::seq_lib::group_to_multiset_ensures;
    broadcast use vstd::multiset::group_multiset_axioms;

    let ghost initial = groups@;
    let mut input: Vec<ProcessGroup> = Vec::new();
    std::mem::swap(groups, &mut input);
    let mut out: Vec<ProcessGroup> = Vec::new();
    let ghost mut idx: Seq<int> = Seq::empty();
    assert(input@ =~= initial.skip(0));
    assert(out@.to_multiset() =~= Multiset::empty());
    assert(out@.to_multiset().add(input@.to_multiset()) =~= initial.to_multiset());
    while input.len() > 0
        invariant
            out@.to_multiset().add(input@.to_multiset()) == initial.to_multiset(),
            sorted_by(out@, sort_by, ascending),
            out@.len() <= initial.len(),
            input@ == initial.skip(out@.len() as int),
            idx.len() == out@.len(),
            drawn_from(initial, out@, idx),
            forall|k: int| 0 <= k < idx.len() ==> #[trigger] idx[k] < out@.len(),
            ties_kept(out@, idx, sort_by, ascending),
        decreases input@.len(),
    {
        let ghost before_input = input@;
        let e = input.remove(0);
        let mut j: usize = 0;
        while j < out.len() && comes_before(&out[j], &e, sort_by, ascending)
            invariant
                j <= out@.len(),
                forall|k: int| 0 <= k < j ==> in_order(sort_by, ascending, #[trigger] out@[k], e),
            decreases out@.len() - j,
        {
            j = j + 1;
        }
        proof {
            assert forall|k: int| j <= k < out@.len() implies in_order(sort_by, ascending, e, #[trigger] out@[k])
                && !in_order(sort_by, ascending, out@[k], e) by {
                if in_order(sort_by, ascending, out@[k], e) {
                    if k > j {
                        assert(in_order(sort_by, ascending, out@[j as int], out@[k]));
                        lemma_in_order_transitive(sort_by, ascending, out@[j as int], out@[k], e);
                    }
                }
                lemma_in_order_total(sort_by, ascending, e, out@[k]);
            }
        }
        let ghost before_out = out@;
        let ghost before_idx = idx;
        let ghost m = before_out.len() as int;
        out.insert(j, e);
        proof {
            assert(e == initial[m]);
            idx = before_idx.insert(j as int, m);
            assert(input@ =~= initial.skip(out@.len() as int));
            assert forall|k: int| 0 <= k < idx.len() implies 0 <= #[trigger] idx[k] < initial.len() && out@[k]
                == initial[idx[k]] && idx[k] < out@.len() by {
                if k < j {
                    assert(idx[k] == before_idx[k]);
                    assert(out@[k] == before_out[k]);
                } else if k > j {
                    assert(idx[k] == before_idx[k - 1]);
                    assert(out@[k] == before_out[k - 1]);
                }
            }
            assert forall|a: int, b: int| 0 <= a < b < idx.len() implies #[trigger] idx[a] != #[trigger] idx[b] by {
                if a < j && b < j {
                    assert(idx[a] == before_idx[a] && idx[b] == before_idx[b]);
                } else if a < j && b > j {
                    assert(idx[a] == before_idx[a] && idx[b] == before_idx[b - 1]);
                } else if a < j && b == j {
                    assert(idx[a] == before_idx[a]);
                } else if a == j {
                    assert(idx[b] == before_idx[b - 1]);
                } else {
                    assert(idx[a] == before_idx[a - 1] && idx[b] == before_idx[b - 1]);
                }
            }
            assert forall|a: int, b: int|
                0 <= a < b < out@.len() && in_order(sort_by, ascending, #[trigger] out@[b], #[trigger] out@[a])
                implies idx[a] < idx[b] by {
                if a < j && b < j {
                    assert(idx[a] == before_idx[a] && idx[b] == before_idx[b]);
                    assert(out@[a] == before_out[a] && out@[b] == before_out[b]);
                } else if a < j && b > j {
                    assert(idx[a] == before_idx[a] && idx[b] == before_idx[b - 1]);
                    assert(out@[a] == before_out[a] && out@[b] == before_out[b - 1]);
                } else if a < j && b == j {
                    assert(idx[a] == before_idx[a]);
                } else if a == j {
                    assert(out@[b] == before_out[b - 1]);
                    assert(out@[a] == e);
                    assert(!in_order(sort_by, ascending, before_out[b - 1], e));
                } else {
                    assert(idx[a] == before_idx[a - 1] && idx[b] == before_idx[b - 1]);
                    assert(out@[a] == before_out[a - 1] && out@[b] == before_out[b - 1]);
                }
            }
            vstd::seq_lib::to_multiset_remove(before_input, 0);
            vstd::seq_lib::to_multiset_insert(before_out, j as int, e);
            vstd::seq_lib::to_multiset_contains(before_input, e);
            assert(before_input[0] == e);
            assert(out@.to_multiset().add(input@.to_multiset()) =~= before_out.to_multiset().add(
                before_input.to_multiset(),
            ));
            assert forall|a: int, b: int| 0 <= a < b < out@.len() implies in_order(
                sort_by,
                ascending,
                #[trigger] out@[a],
                #[trigger] out@[b],
            ) by {
                if a < j && b > j {
                    assert(out@[a] == before_out[a]);
                    assert(out@[b] == before_out[b - 1]);
                    lemma_in_order_transitive(sort_by, ascending, out@[a], e, out@[b]);
                } else if a < j && b < j {
                    assert(out@[a] == before_out[a]);
                    assert(out@[b] == before_out[b]);
                } else if a > j {
                    assert(out@[a] == before_out[a - 1]);
                    assert(out@[b] == before_out[b - 1]);
                } else if a == j {
                    assert(out@[b] == before_out[b - 1]);
                } else {
                    assert(out@[a] == before_out[a]);
                }
            }
        }
    }
    assert(input@.to_multiset() =~= Multiset::empty());
    assert(out@.to_multiset().add(input@.to_multiset()) =~= out@.to_multiset());
    assert(out@.len() == initial.len());
    assert(drawn_from(initial, out@, idx));
    proof {
        crate::laws::law_sorted_rows_follow_the_column(out@, sort_by, ascending);
    }
    *groups = out;
}

} // verus!
