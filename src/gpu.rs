//! GPU utilization per process: decoding counter instance names and summing
//! the engine readings of each process.

use vstd::prelude::*;
use crate::text::chars_of;

verus! {

/// The counter session. When it could not be opened it stays disabled and
/// every sample is empty. `query` and `counter` are the OS handles.
pub struct GpuMonitor {
    query: isize,
    counter: isize,
    initialized: bool,
}

/// One counter instance as the OS reports it; `value` is in hundredths of a
/// percent.
pub struct CounterSample {
    pub instance: String,
    pub value: u64,
}

/// The summed GPU utilization of one process, in hundredths of a percent.
#[derive(PartialEq, Eq, Structural, Clone, Copy, Debug)]
pub struct GpuUsage {
    pub pid: u32,
    pub usage: u64,
}

pub open spec fn is_digit(c: char) -> bool {
    '0' <= c && c <= '9'
}

/// The number that a run of decimal digits spells.
pub open spec fn digits_value(s: Seq<char>) -> nat
    decreases s.len(),
{
    if s.len() == 0 {
        0
    } else {
        digits_value(s.drop_last()) * 10 + ((s.last() as nat) - ('0' as nat)) as nat
    }
}

/// A `u32` written as a non-empty run of ASCII decimal digits, nothing else.
pub open spec fn u32_of(s: Seq<char>) -> Option<u32> {
    if s.len() > 0 && (forall|i: int| 0 <= i < s.len() ==> is_digit(#[trigger] s[i]))
        && digits_value(s) <= u32::MAX {
        Some(digits_value(s) as u32)
    } else {
        None
    }
}

/// `i` is where `needle` first occurs in `hay`.
pub open spec fn first_at(hay: Seq<char>, needle: Seq<char>, i: int) -> bool {
    &&& 0 <= i && i + needle.len() <= hay.len()
    &&& hay.subrange(i, i + needle.len()) == needle
    &&& forall|j: int| 0 <= j < i ==> #[trigger] hay.subrange(j, j + needle.len()) != needle
}

/// Index of the first `_` in `s`, or its length.
pub open spec fn field_end(s: Seq<char>) -> int {
    if exists|i: int| 0 <= i < s.len() && s[i] == '_' {
        choose|i: int| 0 <= i < s.len() && s[i] == '_' && forall|j: int| 0 <= j < i ==> s[j] != '_'
    } else {
        s.len() as int
    }
}

/// Where the first `pid_` of `name` starts, or -1.
pub open spec fn token_index(name: Seq<char>) -> int {
    if exists|i: int| first_at(name, "pid_"@, i) {
        choose|i: int| first_at(name, "pid_"@, i)
    } else {
        -1
    }
}

/// The number in the field that starts at `start`: up to the next `_` or
/// the end.
pub open spec fn field_number(name: Seq<char>, start: int) -> Option<u32> {
    let rest = name.subrange(start, name.len() as int);
    u32_of(rest.subrange(0, field_end(rest)))
}

/// The process id that a counter instance name carries: the digits after
/// its first `pid_`, up to the next `_` or the end.
pub open spec fn pid_of_instance(name: Seq<char>) -> Option<u32> {
    let i = token_index(name);
    if i < 0 { None } else { field_number(name, i + 4) }
}

/// Parses a run of ASCII decimal digits as a `u32`.
fn parse_u32(s: &Vec<char>, from: usize, to: usize) -> (r: Option<u32>)
    requires
        from <= to <= s@.len(),
    ensures
        r == u32_of(s@.subrange(from as int, to as int)),
{
    let start = from;
    let ghost d = s@.subrange(start as int, to as int);
    if start == to {
        return None;
    }
    let mut v: u64 = 0;
    let mut k: usize = start;
    while k < to
        invariant
            from == start,
            from <= start <= k <= to <= s@.len(),
            d == s@.subrange(start as int, to as int),
            v == digits_value(s@.subrange(start as int, k as int)),
            v <= u32::MAX,
            forall|j: int| start <= j < k ==> is_digit(#[trigger] s@[j]),
        decreases to - k,
    {
        let c = s[k];
        if !('0' <= c && c <= '9') {
            assert(d[k - start] == c);
            assert(!is_digit(d[k - start]));
            return None;
        }
        let ghost pre = s@.subrange(start as int, k as int + 1);
        assert(pre.drop_last() =~= s@.subrange(start as int, k as int));
        let next = v * 10 + ((c as u32) - ('0' as u32)) as u64;
        assert(next == digits_value(pre));
        k = k + 1;
        if next > u32::MAX as u64 {
            proof {
                if forall|j: int| 0 <= j < d.len() ==> is_digit(#[trigger] d[j]) {
                    assert(d.subrange(0, k - start) =~= s@.subrange(start as int, k as int));
                    lemma_digits_grow(d, k - start);
                }
            }
            return None;
        }
        v = next;
    }
    assert(d =~= s@.subrange(start as int, k as int));
    Some(v as u32)
}

/// A longer run of digits spells at least as much as its prefix.
proof fn lemma_digits_grow(d: Seq<char>, n: int)
    requires
        0 <= n <= d.len(),
        forall|i: int| 0 <= i < d.len() ==> is_digit(#[trigger] d[i]),
    ensures
        digits_value(d) >= digits_value(d.subrange(0, n)),
    decreases d.len(),
{
    if d.len() > n {
        let e = d.drop_last();
        assert(e.subrange(0, n) =~= d.subrange(0, n));
        assert forall|i: int| 0 <= i < e.len() implies is_digit(#[trigger] e[i]) by {
            assert(e[i] == d[i]);
        }
        lemma_digits_grow(e, n);
    } else {
        assert(d.subrange(0, n) =~= d);
    }
}

proof fn lemma_first_at_unique(hay: Seq<char>, needle: Seq<char>, a: int, b: int)
    requires
        first_at(hay, needle, a),
        first_at(hay, needle, b),
    ensures
        a == b,
{
    if a < b {
        assert(hay.subrange(a, a + needle.len()) == needle);
    } else if b < a {
        assert(hay.subrange(b, b + needle.len()) == needle);
    }
}

/// Where `pid_` first occurs in `s`.
fn find_pid_token(s: &Vec<char>) -> (r: Option<usize>)
    ensures
        match r {
            Some(i) => i == token_index(s@) && i + 4 <= s@.len() <= usize::MAX,
            None => token_index(s@) == -1,
        },
{
    proof { reveal_strlit("pid_"); }
    let n = s.len();
    if n < 4 {
        return None;
    }
    let mut i: usize = 0;
    while i <= n - 4
        invariant
            n >= 4,
            n == s@.len(),
            "pid_"@ == seq!['p', 'i', 'd', '_'],
            forall|j: int| 0 <= j < i ==> #[trigger] s@.subrange(j, j + 4) != "pid_"@,
        decreases n - i,
    {
        let ghost w = s@.subrange(i as int, i + 4);
        assert(w[0] == s@[i as int] && w[1] == s@[i + 1] && w[2] == s@[i + 2] && w[3] == s@[i + 3]);
        if s[i] == 'p' && s[i + 1] == 'i' && s[i + 2] == 'd' && s[i + 3] == '_' {
            assert(w =~= "pid_"@);
            proof {
                assert(first_at(s@, "pid_"@, i as int));
                let c = choose|c: int| first_at(s@, "pid_"@, c);
                lemma_first_at_unique(s@, "pid_"@, c, i as int);
            }
            return Some(i);
        }
        i = i + 1;
    }
    proof {
        if exists|c: int| first_at(s@, "pid_"@, c) {
            let c = choose|c: int| first_at(s@, "pid_"@, c);
            assert(s@.subrange(c, c + 4) == "pid_"@);
        }
    }
    None
}

/// Index of the first `_` at or after `start`, or the length.
fn find_field_end(s: &Vec<char>, start: usize) -> (r: usize)
    requires
        start <= s@.len(),
    ensures
        start + field_end(s@.subrange(start as int, s@.len() as int)) == r,
        start <= r <= s@.len(),
        field_number(s@, start as int) == u32_of(s@.subrange(start as int, r as int)),
{
    let n = s.len();
    let ghost rest = s@.subrange(start as int, n as int);
    let mut e: usize = start;
    while e < n && s[e] != '_'
        invariant
            start <= e <= n,
            n == s@.len(),
            rest == s@.subrange(start as int, n as int),
            forall|j: int| start <= j < e ==> s@[j] != '_',
        decreases n - e,
    {
        e = e + 1;
    }
    proof {
        if e < n {
            assert(rest[e - start] == '_');
            let f = choose|f: int|
                0 <= f < rest.len() && rest[f] == '_' && forall|j: int| 0 <= j < f ==> rest[j] != '_';
            if f < e - start {
                assert(s@[start + f] == '_');
            } else if f > e - start {
                assert(rest[e - start] == '_');
            }
        } else {
            assert forall|f: int| 0 <= f < rest.len() implies rest[f] != '_' by {
                assert(rest[f] == s@[start + f]);
            }
        }
        assert(rest.subrange(0, field_end(rest)) =~= s@.subrange(start as int, e as int));
    }
    e
}

/// The process id in a counter instance name such as
/// `pid_1234_engtype_3D_eng_0`.
pub fn parse_pid_from_instance(name: &str) -> (r: Option<u32>)
    ensures
        r == pid_of_instance(name@),
{
    let s = chars_of(name);
    match find_pid_token(&s) {
        None => None,
        Some(i) => {
            let start = i + 4;
            let e = find_field_end(&s, start);
            parse_u32(&s, start, e)
        },
    }
}

/// The process a counter sample belongs to.
pub open spec fn sample_pid(c: CounterSample) -> Option<u32> {
    pid_of_instance(c.instance@)
}

/// The summed readings of the samples that belong to `pid`.
pub open spec fn usage_for(samples: Seq<CounterSample>, pid: u32) -> nat
    decreases samples.len(),
{
    if samples.len() == 0 {
        0
    } else {
        usage_for(samples.drop_last(), pid) + if sample_pid(samples.last()) == Some(pid) {
            samples.last().value as nat
        } else {
            0nat
        }
    }
}

/// The sum of all readings.
pub open spec fn value_total(samples: Seq<CounterSample>) -> nat
    decreases samples.len(),
{
    if samples.len() == 0 {
        0
    } else {
        value_total(samples.drop_last()) + samples.last().value as nat
    }
}

/// Some sample belongs to `pid`.
pub open spec fn mentions(samples: Seq<CounterSample>, pid: u32) -> bool {
    exists|i: int| 0 <= i < samples.len() && sample_pid(#[trigger] samples[i]) == Some(pid)
}

/// The per-process sums that a list of samples gives: one entry for each
/// process that some sample belongs to, with the sum of its readings.
pub open spec fn is_attribution(samples: Seq<CounterSample>, r: Seq<GpuUsage>) -> bool {
    &&& forall|k: int| 0 <= k < r.len() ==> (#[trigger] r[k]).usage == usage_for(samples, r[k].pid)
        && mentions(samples, r[k].pid)
    &&& forall|i: int| 0 <= i < samples.len() && (#[trigger] sample_pid(samples[i])) is Some
        ==> exists|k: int| 0 <= k < r.len() && r[k].pid == sample_pid(samples[i])->Some_0
    &&& forall|a: int, b: int| 0 <= a < b < r.len() ==> (#[trigger] r[a]).pid != (#[trigger] r[b]).pid
}

proof fn lemma_usage_bounded(samples: Seq<CounterSample>, pid: u32)
    ensures
        usage_for(samples, pid) <= value_total(samples),
    decreases samples.len(),
{
    if samples.len() > 0 {
        lemma_usage_bounded(samples.drop_last(), pid);
    }
}

proof fn lemma_total_prefix(samples: Seq<CounterSample>, i: int)
    requires
        0 <= i <= samples.len(),
    ensures
        value_total(samples.subrange(0, i)) <= value_total(samples),
    decreases samples.len(),
{
    if i < samples.len() {
        let d = samples.drop_last();
        assert(d.subrange(0, i) =~= samples.subrange(0, i));
        lemma_total_prefix(d, i);
    } else {
        assert(samples.subrange(0, i) =~= samples);
    }
}

/// Sums the readings of each process. Samples whose instance name carries no
/// process id are left out.
pub fn attribute_usage(samples: &Vec<CounterSample>) -> (r: Vec<GpuUsage>)
    requires
        value_total(samples@) <= u64::MAX,
    ensures
        is_attribution(samples@, r@),
{
    let mut r: Vec<GpuUsage> = Vec::new();
    let mut i: usize = 0;
    while i < samples.len()
        invariant
            i <= samples@.len(),
            value_total(samples@) <= u64::MAX,
            is_attribution(samples@.subrange(0, i as int), r@),
        decreases samples@.len() - i,
    {
        let ghost p = samples@.subrange(0, i as int);
        let ghost q = samples@.subrange(0, i as int + 1);
        assert(q.drop_last() =~= p);
        assert(q.last() == samples@[i as int]);
        proof {
            lemma_total_prefix(samples@, i as int + 1);
        }
        let ghost r0 = r@;
        match parse_pid_from_instance(samples[i].instance.as_str()) {
            None => {
                assert forall|k: int| 0 <= k < r@.len() implies (#[trigger] r@[k]).usage == usage_for(
                    q, r@[k].pid) && mentions(q, r@[k].pid) by {
                    let w = choose|w: int| 0 <= w < p.len() && sample_pid(#[trigger] p[w]) == Some(r@[k].pid);
                    assert(q[w] == p[w]);
                }
                assert forall|j: int| 0 <= j < q.len() && (#[trigger] sample_pid(q[j])) is Some
                    implies exists|k: int| 0 <= k < r@.len() && r@[k].pid == sample_pid(q[j])->Some_0 by {
                    assert(q[j] == p[j]);
                }
            },
            Some(pid) => {
                let value = samples[i].value;
                let mut k: usize = 0;
                while k < r.len() && r[k].pid != pid
                    invariant
                        k <= r@.len(),
                        forall|m: int| 0 <= m < k ==> r@[m].pid != pid,
                    decreases r@.len() - k,
                {
                    k = k + 1;
                }
                proof {
                    lemma_usage_bounded(q, pid);
                }
                if k < r.len() {
                    let old_usage = r[k].usage;
                    r.set(k, GpuUsage { pid, usage: old_usage + value });
                } else {
                    r.push(GpuUsage { pid, usage: value });
                    assert(usage_for(p, pid) == 0) by {
                        if usage_for(p, pid) != 0 {
                            lemma_usage_zero(p, pid);
                            let w = choose|w: int| 0 <= w < p.len() && sample_pid(#[trigger] p[w]) == Some(pid);
                            assert(exists|m: int| 0 <= m < r0.len() && r0[m].pid == sample_pid(p[w])->Some_0);
                        }
                    }
                }
                assert(sample_pid(q[i as int]) == Some(pid));
                assert forall|m: int| 0 <= m < r@.len() implies (#[trigger] r@[m]).usage == usage_for(
                    q, r@[m].pid) && mentions(q, r@[m].pid) by {
                    if r@[m].pid != pid {
                        assert(r@[m] == r0[m]);
                        let w = choose|w: int| 0 <= w < p.len() && sample_pid(#[trigger] p[w]) == Some(r@[m].pid);
                        assert(q[w] == p[w]);
                    } else {
                        assert(sample_pid(q[i as int]) == Some(r@[m].pid));
                    }
                }
                assert forall|j: int| 0 <= j < q.len() && (#[trigger] sample_pid(q[j])) is Some
                    implies exists|m: int| 0 <= m < r@.len() && r@[m].pid == sample_pid(q[j])->Some_0 by {
                    if j < i {
                        assert(q[j] == p[j]);
                        let m = choose|m: int| 0 <= m < r0.len() && r0[m].pid == sample_pid(p[j])->Some_0;
                        assert(r@[m].pid == r0[m].pid);
                    } else {
                        assert(r@[k as int].pid == pid);
                    }
                }
                assert forall|a: int, b: int| 0 <= a < b < r@.len() implies (#[trigger] r@[a]).pid
                    != (#[trigger] r@[b]).pid by {
                    if b < r0.len() {
                        assert(r@[a].pid == r0[a].pid && r@[b].pid == r0[b].pid);
                    }
                }
            },
        }
        i = i + 1;
    }
    assert(samples@.subrange(0, i as int) =~= samples@);
    r
}

/// A process that no sample belongs to has nothing attributed.
proof fn lemma_usage_zero(samples: Seq<CounterSample>, pid: u32)
    ensures
        usage_for(samples, pid) != 0 ==> mentions(samples, pid),
    decreases samples.len(),
{
    if samples.len() > 0 {
        let d = samples.drop_last();
        lemma_usage_zero(d, pid);
        if usage_for(d, pid) != 0 {
            let w = choose|w: int| 0 <= w < d.len() && sample_pid(#[trigger] d[w]) == Some(pid);
            assert(samples[w] == d[w]);
        } else if usage_for(samples, pid) != 0 {
            assert(sample_pid(samples[samples.len() - 1]) == Some(pid));
        }
    }
}

impl GpuMonitor {
    /// The session is open.
    pub closed spec fn ready_spec(&self) -> bool {
        self.initialized
    }

    /// A session that could not be opened.
    pub fn disabled() -> (r: GpuMonitor)
        ensures
            !r.ready_spec(),
    {
        GpuMonitor { query: 0, counter: 0, initialized: false }
    }

    /// An open session with its query and counter handles.
    pub fn ready(query: isize, counter: isize) -> (r: GpuMonitor)
        ensures
            r.ready_spec(),
            r.query() == query,
            r.counter() == counter,
    {
        GpuMonitor { query, counter, initialized: true }
    }

    pub fn is_ready(&self) -> (r: bool)
        ensures
            r == self.ready_spec(),
    {
        self.initialized
    }

    #[verifier::when_used_as_spec(query_spec)]
    pub fn query(&self) -> (r: isize)
        ensures
            r == self.query_spec(),
    {
        self.query
    }

    pub closed spec fn query_spec(&self) -> isize {
        self.query
    }

    #[verifier::when_used_as_spec(counter_spec)]
    pub fn counter(&self) -> (r: isize)
        ensures
            r == self.counter_spec(),
    {
        self.counter
    }

    pub closed spec fn counter_spec(&self) -> isize {
        self.counter
    }

    /// Per-process GPU utilization from one collection of counter samples;
    /// empty when the session is disabled.
    pub fn get_usage(&self, samples: &Vec<CounterSample>) -> (r: Vec<GpuUsage>)
        requires
            value_total(samples@) <= u64::MAX,
        ensures
            !self.ready_spec() ==> r@.len() == 0,
            self.ready_spec() ==> is_attribution(samples@, r@),
    {
        if self.initialized {
            attribute_usage(samples)
        } else {
            Vec::new()
        }
    }
}

} // verus!
