//! Process rows from a snapshot, watch-pattern filtering and grouping by name.

use vstd::prelude::*;
use crate::text::{lower_of, name_matches, lowercase, matches_pattern};
use crate::names::{resolved, resolve_process_name};

verus! {

/// One live process. `cpu` is in tenths of a percent of the whole machine
/// (the per-core reading divided by the number of cores).
pub struct ProcRow {
    pub pid: u32,
    pub name: String,
    pub cpu: u64,
    pub memory_kb: u64,
}

/// Processes that share one exact name, with summed usage.
pub struct ProcessGroup {
    pub name: String,
    pub process_count: u32,
    pub pids: Vec<u32>,
    pub total_cpu: u64,
    pub total_memory_kb: u64,
}

impl ProcRow {
    /// A copy with every field equal.
    pub fn duplicate(&self) -> (r: ProcRow)
        ensures
            r == *self,
    {
        ProcRow { pid: self.pid, name: self.name.clone(), cpu: self.cpu, memory_kb: self.memory_kb }
    }
}

/// The non-empty canonical tokens of the watch names, in order.
pub open spec fn watch_tokens(names: Seq<String>) -> Seq<Seq<char>>
    decreases names.len(),
{
    if names.len() == 0 {
        seq![]
    } else {
        let rest = watch_tokens(names.drop_last());
        let t = resolved(names.last()@);
        if t.len() > 0 { rest.push(t) } else { rest }
    }
}

/// A lowercase process name matches one of the tokens.
pub open spec fn matches_any(name: Seq<char>, tokens: Seq<Seq<char>>) -> bool {
    exists|k: int| 0 <= k < tokens.len() && name_matches(name, #[trigger] tokens[k])
}

/// A process is watched under the tokens.
pub open spec fn watched(p: ProcRow, tokens: Seq<Seq<char>>) -> bool {
    matches_any(lower_of(p.name@), tokens)
}

/// The watched processes, in snapshot order.
pub open spec fn watched_rows(procs: Seq<ProcRow>, tokens: Seq<Seq<char>>) -> Seq<ProcRow>
    decreases procs.len(),
{
    if procs.len() == 0 {
        seq![]
    } else {
        let rest = watched_rows(procs.drop_last(), tokens);
        if watched(procs.last(), tokens) { rest.push(procs.last()) } else { rest }
    }
}

/// The canonical tokens of `names`, skipping those that resolve to nothing.
pub fn watch_list(names: &Vec<String>) -> (r: Vec<String>)
    ensures
        r@.len() == watch_tokens(names@).len(),
        forall|k: int| 0 <= k < r@.len() ==> (#[trigger] r@[k])@ == watch_tokens(names@)[k],
{
    let mut r: Vec<String> = Vec::new();
    let mut i: usize = 0;
    while i < names.len()
        invariant
            i <= names@.len(),
            r@.len() == watch_tokens(names@.subrange(0, i as int)).len(),
            forall|k: int| 0 <= k < r@.len() ==> (#[trigger] r@[k])@ == watch_tokens(
                names@.subrange(0, i as int),
            )[k],
        decreases names@.len() - i,
    {
        let ghost q = names@.subrange(0, i as int + 1);
        assert(q.drop_last() =~= names@.subrange(0, i as int));
        let t = resolve_process_name(names[i].as_str());
        if t.as_str().unicode_len() > 0 {
            r.push(t);
        }
        i = i + 1;
    }
    assert(names@.subrange(0, i as int) =~= names@);
    r
}

/// Whether the lowercase name matches one of the tokens.
fn matches_watch(name: &String, watch: &Vec<String>, tokens: Ghost<Seq<Seq<char>>>) -> (r: bool)
    requires
        watch@.len() == tokens@.len(),
        forall|k: int| 0 <= k < watch@.len() ==> (#[trigger] watch@[k])@ == tokens@[k],
    ensures
        r == matches_any(name@, tokens@),
{
    let mut k: usize = 0;
    while k < watch.len()
        invariant
            k <= watch@.len(),
            watch@.len() == tokens@.len(),
            forall|m: int| 0 <= m < watch@.len() ==> (#[trigger] watch@[m])@ == tokens@[m],
            forall|m: int| 0 <= m < k ==> !name_matches(name@, #[trigger] tokens@[m]),
        decreases watch@.len() - k,
    {
        if matches_pattern(name.as_str(), watch[k].as_str()) {
            assert(name_matches(name@, tokens@[k as int]));
            return true;
        }
        k = k + 1;
    }
    false
}

/// The processes whose lowercase name contains, or equals, the canonical
/// token of one of `names`. No tokens, no rows.
pub fn watched_processes(names: &Vec<String>, procs: &Vec<ProcRow>) -> (r: Vec<ProcRow>)
    ensures
        r@ == watched_rows(procs@, watch_tokens(names@)),
{
    let watch = watch_list(names);
    let ghost tokens = watch_tokens(names@);
    let mut r: Vec<ProcRow> = Vec::new();
    let mut i: usize = 0;
    while i < procs.len()
        invariant
            i <= procs@.len(),
            tokens == watch_tokens(names@),
            watch@.len() == tokens.len(),
            forall|k: int| 0 <= k < watch@.len() ==> (#[trigger] watch@[k])@ == tokens[k],
            r@ == watched_rows(procs@.subrange(0, i as int), tokens),
        decreases procs@.len() - i,
    {
        let ghost q = procs@.subrange(0, i as int + 1);
        assert(q.drop_last() =~= procs@.subrange(0, i as int));
        let lower = lowercase(procs[i].name.as_str());
        if matches_watch(&lower, &watch, Ghost(tokens)) {
            r.push(procs[i].duplicate());
        }
        i = i + 1;
    }
    assert(procs@.subrange(0, i as int) =~= procs@);
    r
}

/// The pids of the rows named exactly `n`, in order.
pub open spec fn pids_named(m: Seq<ProcRow>, n: Seq<char>) -> Seq<u32>
    decreases m.len(),
{
    if m.len() == 0 {
        seq![]
    } else {
        let rest = pids_named(m.drop_last(), n);
        if m.last().name@ == n { rest.push(m.last().pid) } else { rest }
    }
}

/// The summed CPU of the rows named exactly `n`.
pub open spec fn cpu_named(m: Seq<ProcRow>, n: Seq<char>) -> nat
    decreases m.len(),
{
    if m.len() == 0 {
        0
    } else {
        cpu_named(m.drop_last(), n) + if m.last().name@ == n { m.last().cpu as nat } else { 0nat }
    }
}

/// The summed memory of the rows named exactly `n`.
pub open spec fn mem_named(m: Seq<ProcRow>, n: Seq<char>) -> nat
    decreases m.len(),
{
    if m.len() == 0 {
        0
    } else {
        mem_named(m.drop_last(), n) + if m.last().name@ == n {
            m.last().memory_kb as nat
        } else {
            0nat
        }
    }
}

/// The summed CPU of all rows.
pub open spec fn cpu_all(m: Seq<ProcRow>) -> nat
    decreases m.len(),
{
    if m.len() == 0 { 0 } else { cpu_all(m.drop_last()) + m.last().cpu as nat }
}

/// The summed memory of all rows.
pub open spec fn mem_all(m: Seq<ProcRow>) -> nat
    decreases m.len(),
{
    if m.len() == 0 { 0 } else { mem_all(m.drop_last()) + m.last().memory_kb as nat }
}

/// `g` is the group of the rows of `m` that carry its name, and there is at
/// least one.
pub open spec fn group_ok(m: Seq<ProcRow>, g: ProcessGroup) -> bool {
    &&& g.pids@ == pids_named(m, g.name@)
    &&& g.pids@.len() > 0
    &&& g.process_count == g.pids@.len()
    &&& g.total_cpu == cpu_named(m, g.name@)
    &&& g.total_memory_kb == mem_named(m, g.name@)
}

/// `r` holds exactly one group for each name among the rows `m`.
pub open spec fn is_grouping(m: Seq<ProcRow>, r: Seq<ProcessGroup>) -> bool {
    &&& forall|k: int| 0 <= k < r.len() ==> group_ok(m, #[trigger] r[k])
    &&& forall|j: int| 0 <= j < m.len() ==> exists|k: int| 0 <= k < r.len() && (#[trigger] r[k]).name@
        == (#[trigger] m[j]).name@
    &&& forall|a: int, b: int| 0 <= a < b < r.len() ==> (#[trigger] r[a]).name@ != (#[trigger] r[b]).name@
}

/// Groups are ordered by descending total CPU.
pub open spec fn cpu_descending(r: Seq<ProcessGroup>) -> bool {
    forall|a: int, b: int| 0 <= a < b < r.len() ==> (#[trigger] r[a]).total_cpu >= (#[trigger] r[b]).total_cpu
}

/// Index of the first row named `n`, or the number of rows.
pub open spec fn first_seen(m: Seq<ProcRow>, n: Seq<char>) -> int
    decreases m.len(),
{
    if m.len() == 0 {
        0
    } else {
        let d = first_seen(m.drop_last(), n);
        if d < m.len() - 1 {
            d
        } else if m.last().name@ == n {
            m.len() - 1
        } else {
            m.len() as int
        }
    }
}

/// Groups stand in the order in which their names first appear.
pub open spec fn in_first_seen_order(m: Seq<ProcRow>, r: Seq<ProcessGroup>) -> bool {
    forall|a: int, b: int| 0 <= a < b < r.len() ==> first_seen(m, (#[trigger] r[a]).name@) < first_seen(
        m,
        (#[trigger] r[b]).name@,
    )
}

/// Groups with equal total CPU stand in the order in which their names first
/// appear.
pub open spec fn ties_in_first_seen_order(m: Seq<ProcRow>, r: Seq<ProcessGroup>) -> bool {
    forall|a: int, b: int| 0 <= a < b < r.len() && (#[trigger] r[a]).total_cpu == (#[trigger] r[b]).total_cpu
        ==> first_seen(m, r[a].name@) < first_seen(m, r[b].name@)
}

proof fn lemma_first_seen(m: Seq<ProcRow>, n: Seq<char>)
    ensures
        0 <= first_seen(m, n) <= m.len(),
        first_seen(m, n) < m.len() ==> m[first_seen(m, n)].name@ == n,
        forall|j: int| 0 <= j < m.len() && (#[trigger] m[j]).name@ == n ==> first_seen(m, n) <= j,
    decreases m.len(),
{
    if m.len() > 0 {
        let d = m.drop_last();
        lemma_first_seen(d, n);
        assert forall|j: int| 0 <= j < m.len() && (#[trigger] m[j]).name@ == n implies first_seen(m, n) <= j by {
            if j < d.len() {
                assert(d[j] == m[j]);
            }
        }
        if first_seen(d, n) < d.len() {
            assert(d[first_seen(d, n)] == m[first_seen(d, n)]);
        }
    }
}

proof fn lemma_named_facts(m: Seq<ProcRow>, n: Seq<char>)
    ensures
        cpu_named(m, n) <= cpu_all(m),
        mem_named(m, n) <= mem_all(m),
        pids_named(m, n).len() <= m.len(),
        pids_named(m, n).len() > 0 ==> exists|j: int| 0 <= j < m.len() && (#[trigger] m[j]).name@ == n,
        pids_named(m, n).len() == 0 ==> cpu_named(m, n) == 0 && mem_named(m, n) == 0,
    decreases m.len(),
{
    if m.len() > 0 {
        let d = m.drop_last();
        lemma_named_facts(d, n);
        if pids_named(d, n).len() > 0 {
            let j = choose|j: int| 0 <= j < d.len() && (#[trigger] d[j]).name@ == n;
            assert(m[j] == d[j]);
        }
        if m.last().name@ == n {
            assert(m[m.len() - 1].name@ == n);
        }
    }
}

proof fn lemma_prefix_totals(m: Seq<ProcRow>, i: int)
    requires
        0 <= i <= m.len(),
    ensures
        cpu_all(m.subrange(0, i)) <= cpu_all(m),
        mem_all(m.subrange(0, i)) <= mem_all(m),
    decreases m.len(),
{
    if i < m.len() {
        let d = m.drop_last();
        assert(d.subrange(0, i) =~= m.subrange(0, i));
        lemma_prefix_totals(d, i);
    } else {
        assert(m.subrange(0, i) =~= m);
    }
}

proof fn lemma_watched_totals(procs: Seq<ProcRow>, tokens: Seq<Seq<char>>)
    ensures
        cpu_all(watched_rows(procs, tokens)) <= cpu_all(procs),
        mem_all(watched_rows(procs, tokens)) <= mem_all(procs),
        watched_rows(procs, tokens).len() <= procs.len(),
    decreases procs.len(),
{
    if procs.len() > 0 {
        lemma_watched_totals(procs.drop_last(), tokens);
        let rest = watched_rows(procs.drop_last(), tokens);
        if watched(procs.last(), tokens) {
            assert(rest.push(procs.last()).drop_last() =~= rest);
        }
    }
}

fn copy_pids(v: &Vec<u32>) -> (r: Vec<u32>)
    ensures
        r@ == v@,
{
    let mut r: Vec<u32> = Vec::new();
    let mut i: usize = 0;
    while i < v.len()
        invariant
            i <= v@.len(),
            r@ == v@.subrange(0, i as int),
        decreases v@.len() - i,
    {
        r.push(v[i]);
        i = i + 1;
    }
    assert(r@ =~= v@);
    r
}

/// One group per exact process name, in order of first appearance.
pub fn group_rows(m: &Vec<ProcRow>) -> (r: Vec<ProcessGroup>)
    requires
        cpu_all(m@) <= u64::MAX,
        mem_all(m@) <= u64::MAX,
        m@.len() <= u32::MAX,
    ensures
        is_grouping(m@, r@),
        in_first_seen_order(m@, r@),
{
    let mut r: Vec<ProcessGroup> = Vec::new();
    let mut i: usize = 0;
    while i < m.len()
        invariant
            i <= m@.len(),
            cpu_all(m@) <= u64::MAX,
            mem_all(m@) <= u64::MAX,
            m@.len() <= u32::MAX,
            is_grouping(m@.subrange(0, i as int), r@),
            in_first_seen_order(m@.subrange(0, i as int), r@),
        decreases m@.len() - i,
    {
        let ghost p = m@.subrange(0, i as int);
        let ghost q = m@.subrange(0, i as int + 1);
        assert(q.drop_last() =~= p);
        let ghost x = m@[i as int];
        assert(q.last() == x);
        let ghost n = x.name@;
        proof {
            lemma_prefix_totals(m@, i as int + 1);
            lemma_named_facts(q, n);
        }
        let ghost r0 = r@;
        let row = &m[i];
        let mut k: usize = 0;
        while k < r.len() && r[k].name != row.name
            invariant
                k <= r@.len(),
                i < m@.len(),
                *row == m@[i as int],
                forall|a: int| 0 <= a < k ==> r@[a].name@ != m@[i as int].name@,
            decreases r@.len() - k,
        {
            k = k + 1;
        }
        if k < r.len() {
            let mut pids = copy_pids(&r[k].pids);
            pids.push(row.pid);
            let g = ProcessGroup {
                name: r[k].name.clone(),
                process_count: r[k].process_count + 1,
                pids,
                total_cpu: r[k].total_cpu + row.cpu,
                total_memory_kb: r[k].total_memory_kb + row.memory_kb,
            };
            r.set(k, g);
        } else {
            proof {
                lemma_named_facts(p, n);
                if pids_named(p, n).len() > 0 {
                    let j = choose|j: int| 0 <= j < p.len() && (#[trigger] p[j]).name@ == n;
                    let a = choose|a: int| 0 <= a < r0.len() && (#[trigger] r0[a]).name@ == p[j].name@;
                }
            }
            let mut pids: Vec<u32> = Vec::new();
            pids.push(row.pid);
            let g = ProcessGroup {
                name: row.name.clone(),
                process_count: 1,
                pids,
                total_cpu: row.cpu,
                total_memory_kb: row.memory_kb,
            };
            r.push(g);
        }
        proof {
            assert forall|a: int| 0 <= a < r@.len() implies group_ok(q, #[trigger] r@[a]) by {
                if a != k {
                    assert(r@[a] == r0[a]);
                    if k < r0.len() {
                        assert(r0[k as int].name@ == n);
                        if a < k {
                            assert(r0[a].name@ != r0[k as int].name@);
                        } else {
                            assert(r0[k as int].name@ != r0[a].name@);
                        }
                    }
                    assert(r0[a].name@ != n);
                    assert(group_ok(p, r0[a]));
                } else {
                    assert(r@[a].name@ == n);
                    assert(pids_named(q, n) == pids_named(p, n).push(x.pid));
                    assert(cpu_named(q, n) == cpu_named(p, n) + x.cpu);
                    assert(mem_named(q, n) == mem_named(p, n) + x.memory_kb);
                    if k < r0.len() {
                        assert(group_ok(p, r0[a]));
                        assert(r@[a].pids@ == r0[a].pids@.push(x.pid));
                    } else {
                        assert(pids_named(p, n).len() == 0);
                        assert(r@[a].pids@ =~= pids_named(q, n));
                    }
                }
            }
            assert forall|j: int| 0 <= j < q.len() implies exists|a: int| 0 <= a < r@.len()
                && (#[trigger] r@[a]).name@ == (#[trigger] q[j]).name@ by {
                if j < i {
                    assert(q[j] == p[j]);
                    let a = choose|a: int| 0 <= a < r0.len() && (#[trigger] r0[a]).name@ == (#[trigger] p[j]).name@;
                    assert(r@[a].name@ == r0[a].name@);
                } else {
                    assert(r@[k as int].name@ == q[j].name@);
                }
            }
            assert forall|a: int, b: int| 0 <= a < b < r@.len() implies (#[trigger] r@[a]).name@
                != (#[trigger] r@[b]).name@ by {
                if b < r0.len() {
                    assert(r@[a].name@ == r0[a].name@ && r@[b].name@ == r0[b].name@);
                }
            }
            assert forall|a: int| 0 <= a < r0.len() implies first_seen(q, (#[trigger] r0[a]).name@)
                == first_seen(p, r0[a].name@) && first_seen(p, r0[a].name@) < p.len() by {
                lemma_named_facts(p, r0[a].name@);
                assert(group_ok(p, r0[a]));
                let w = choose|w: int| 0 <= w < p.len() && (#[trigger] p[w]).name@ == r0[a].name@;
                lemma_first_seen(p, r0[a].name@);
            }
            if k == r0.len() {
                lemma_first_seen(p, n);
                if first_seen(p, n) < p.len() {
                    let a = choose|a: int| 0 <= a < r0.len() && (#[trigger] r0[a]).name@ == p[first_seen(p, n)].name@;
                }
                assert(first_seen(q, n) == p.len());
            }
            assert forall|a: int, b: int| 0 <= a < b < r@.len() implies first_seen(q, (#[trigger] r@[a]).name@)
                < first_seen(q, (#[trigger] r@[b]).name@) by {
                assert(r@[a].name@ == r0[a].name@);
                if b < r0.len() {
                    assert(r@[b].name@ == r0[b].name@);
                }
            }
        }
        i = i + 1;
    }
    assert(m@.subrange(0, i as int) =~= m@);
    r
}

proof fn lemma_swap_keeps_grouping(m: Seq<ProcRow>, v: Seq<ProcessGroup>, j: int)
    requires
        0 < j < v.len(),
        is_grouping(m, v),
    ensures
        is_grouping(m, v.update(j, v[j - 1]).update(j - 1, v[j])),
{
    let w = v.update(j, v[j - 1]).update(j - 1, v[j]);
    assert forall|k: int| 0 <= k < w.len() implies group_ok(m, #[trigger] w[k]) by {
        if k == j {
            assert(group_ok(m, v[j - 1]));
        } else if k == j - 1 {
            assert(group_ok(m, v[j]));
        } else {
            assert(w[k] == v[k]);
        }
    }
    assert forall|i: int| 0 <= i < m.len() implies exists|k: int| 0 <= k < w.len()
        && (#[trigger] w[k]).name@ == (#[trigger] m[i]).name@ by {
        let k = choose|k: int| 0 <= k < v.len() && (#[trigger] v[k]).name@ == (#[trigger] m[i]).name@;
        if k == j {
            assert(w[j - 1].name@ == m[i].name@);
        } else if k == j - 1 {
            assert(w[j].name@ == m[i].name@);
        } else {
            assert(w[k] == v[k]);
        }
    }
    assert forall|a: int, b: int| 0 <= a < b < w.len() implies (#[trigger] w[a]).name@
        != (#[trigger] w[b]).name@ by {
        let fa = if a == j { j - 1 } else if a == j - 1 { j } else { a };
        let fb = if b == j { j - 1 } else if b == j - 1 { j } else { b };
        assert(w[a] == v[fa] && w[b] == v[fb]);
        if fa < fb {
            assert(v[fa].name@ != v[fb].name@);
        } else {
            assert(v[fb].name@ != v[fa].name@);
        }
    }
}

/// Orders groups by descending total CPU; equal totals keep their order.
pub fn sort_groups(v: &mut Vec<ProcessGroup>, m: Ghost<Seq<ProcRow>>)
    requires
        is_grouping(m@, old(v)@),
        in_first_seen_order(m@, old(v)@),
    ensures
        is_grouping(m@, final(v)@),
        cpu_descending(final(v)@),
        ties_in_first_seen_order(m@, final(v)@),
        final(v)@.len() == old(v)@.len(),
{
    let ghost v0 = v@;
    let n = v.len();
    let mut i: usize = 1;
    if n == 0 {
        return;
    }
    while i < n
        invariant
            1 <= i <= n,
            n == v@.len(),
            v0.len() == n,
            in_first_seen_order(m@, v0),
            is_grouping(m@, v@),
            forall|a: int, b: int| 0 <= a < b < i ==> (#[trigger] v@[a]).total_cpu >= (#[trigger] v@[b]).total_cpu,
            forall|a: int, b: int| 0 <= a < b < i && (#[trigger] v@[a]).total_cpu == (#[trigger] v@[b]).total_cpu
                ==> first_seen(m@, v@[a].name@) < first_seen(m@, v@[b].name@),
            forall|k: int| i <= k < n ==> #[trigger] v@[k] == v0[k],
            forall|a: int, k: int| 0 <= a < i <= k < n ==> first_seen(m@, (#[trigger] v@[a]).name@)
                < first_seen(m@, (#[trigger] v@[k]).name@),
        decreases n - i,
    {
        let mut j: usize = i;
        while j > 0 && v[j - 1].total_cpu < v[j].total_cpu
            invariant
                0 <= j <= i < n,
                n == v@.len(),
                v0.len() == n,
                in_first_seen_order(m@, v0),
                is_grouping(m@, v@),
                forall|a: int, b: int| 0 <= a < b <= i && a != j && b != j ==> (#[trigger] v@[a]).total_cpu
                    >= (#[trigger] v@[b]).total_cpu,
                forall|b: int| j < b <= i ==> v@[j as int].total_cpu > (#[trigger] v@[b]).total_cpu,
                forall|a: int, b: int| 0 <= a < b <= i && a != j && b != j && (#[trigger] v@[a]).total_cpu
                    == (#[trigger] v@[b]).total_cpu ==> first_seen(m@, v@[a].name@) < first_seen(m@, v@[b].name@),
                forall|a: int| 0 <= a <= i && a != j ==> first_seen(m@, (#[trigger] v@[a]).name@)
                    < first_seen(m@, v@[j as int].name@),
                forall|k: int| i < k < n ==> #[trigger] v@[k] == v0[k],
                forall|a: int, k: int| 0 <= a <= i < k < n ==> first_seen(m@, (#[trigger] v@[a]).name@)
                    < first_seen(m@, (#[trigger] v@[k]).name@),
            decreases j,
        {
            let ghost before = v@;
            proof {
                lemma_swap_keeps_grouping(m@, v@, j as int);
            }
            let upper = v.remove(j);
            v.insert(j - 1, upper);
            assert(v@ =~= before.update(j as int, before[j - 1]).update(j - 1, before[j as int]));
            proof {
                let w = v@;
                assert forall|a: int, k: int| 0 <= a <= i < k < n implies first_seen(m@, (#[trigger] w[a]).name@)
                    < first_seen(m@, (#[trigger] w[k]).name@) by {
                    let src = if a == j { j - 1 } else if a == j - 1 { j as int } else { a };
                    assert(w[a] == before[src]);
                    assert(w[k] == before[k]);
                }
                assert forall|a: int| 0 <= a <= i && a != j - 1 implies first_seen(m@, (#[trigger] w[a]).name@)
                    < first_seen(m@, w[j - 1].name@) by {
                    if a == j {
                        assert(w[a] == before[j - 1]);
                    } else {
                        assert(w[a] == before[a]);
                    }
                }
                assert forall|a: int, b: int| 0 <= a < b <= i && a != j - 1 && b != j - 1 implies (#[trigger] w[a]).total_cpu
                    >= (#[trigger] w[b]).total_cpu && (w[a].total_cpu == w[b].total_cpu ==> first_seen(m@, w[a].name@)
                    < first_seen(m@, w[b].name@)) by {
                    let sa = if a == j { j - 1 } else { a };
                    let sb = if b == j { j - 1 } else { b };
                    assert(w[a] == before[sa] && w[b] == before[sb]);
                }
                assert forall|b: int| j - 1 < b <= i implies w[j - 1].total_cpu > (#[trigger] w[b]).total_cpu by {
                    if b == j {
                        assert(w[b] == before[j - 1]);
                    } else {
                        assert(w[b] == before[b]);
                    }
                }
            }
            j = j - 1;
        }
        proof {
            let w = v@;
            assert forall|a: int, b: int| 0 <= a < b < i + 1 && (#[trigger] w[a]).total_cpu == (#[trigger] w[b]).total_cpu
                implies first_seen(m@, w[a].name@) < first_seen(m@, w[b].name@) by {
                if b == j {
                    if a < j as int - 1 {
                        assert(w[a].total_cpu >= w[j - 1].total_cpu);
                    }
                } else if a == j {
                    assert(w[j as int].total_cpu > w[b].total_cpu);
                }
            }
            assert forall|a: int, b: int| 0 <= a < b < i + 1 implies (#[trigger] w[a]).total_cpu
                >= (#[trigger] w[b]).total_cpu by {
                if b == j && a < j as int - 1 {
                    assert(w[a].total_cpu >= w[j - 1].total_cpu);
                } else if a == j {
                    assert(w[j as int].total_cpu > w[b].total_cpu);
                }
            }
            assert forall|a: int, k: int| 0 <= a < i + 1 <= k < n implies first_seen(m@, (#[trigger] w[a]).name@)
                < first_seen(m@, (#[trigger] w[k]).name@) by {
                assert(w[k] == v0[k]);
            }
        }
        i = i + 1;
    }
}

/// The watched processes grouped by exact name, ordered by descending total
/// CPU.
pub fn grouped_processes(names: &Vec<String>, procs: &Vec<ProcRow>) -> (r: Vec<ProcessGroup>)
    requires
        cpu_all(procs@) <= u64::MAX,
        mem_all(procs@) <= u64::MAX,
        procs@.len() <= u32::MAX,
    ensures
        is_grouping(watched_rows(procs@, watch_tokens(names@)), r@),
        cpu_descending(r@),
        ties_in_first_seen_order(watched_rows(procs@, watch_tokens(names@)), r@),
{
    let rows = watched_processes(names, procs);
    proof {
        lemma_watched_totals(procs@, watch_tokens(names@));
    }
    let mut groups = group_rows(&rows);
    sort_groups(&mut groups, Ghost(rows@));
    groups
}

} // verus!
