//! Summaries of benchmark measurements: grouping by architecture, engine,
//! benchmark file, phase and event, with the minimum, maximum and median of
//! each group's counts; and the layout of the human-readable report.
use vstd::prelude::*;
use vstd::relations::{sorted_by, total_ordering};

verus! {

broadcast use vstd::seq_lib::group_to_multiset_ensures;

/// The phase of a benchmark that a measurement was taken in.
#[derive(Clone, Copy, Debug, PartialEq, Eq, Structural)]
pub enum Phase {
    Compilation,
    Instantiation,
    Execution,
}

impl Phase {
    /// The lower-case name of the phase.
    pub fn as_str(&self) -> (r: &'static str)
        ensures
            r@ == phase_name(*self),
    {
        match self {
            Phase::Compilation => "compilation",
            Phase::Instantiation => "instantiation",
            Phase::Execution => "execution",
        }
    }
}

/// The lower-case name of a phase.
pub open spec fn phase_name(p: Phase) -> Seq<char> {
    match p {
        Phase::Compilation => "compilation"@,
        Phase::Instantiation => "instantiation"@,
        Phase::Execution => "execution"@,
    }
}

/// One measured count of one event in one run of a benchmark.
pub struct Measurement {
    pub arch: String,
    pub engine: String,
    pub wasm: String,
    pub process: u32,
    pub iteration: u32,
    pub phase: Phase,
    pub event: String,
    pub count: u64,
}

/// The grouping key of a measurement: architecture, engine, benchmark
/// file, phase, event.
pub type Key = (Seq<char>, Seq<char>, Seq<char>, Phase, Seq<char>);

pub open spec fn key_of(m: Measurement) -> Key {
    (m.arch@, m.engine@, m.wasm@, m.phase, m.event@)
}

/// The keys of the measurements, in order.
pub open spec fn keys_of(ms: Seq<Measurement>) -> Seq<Key> {
    ms.map_values(|m: Measurement| key_of(m))
}

/// The keys of `ks` without repeats, each where it first occurs.
pub open spec fn distinct_keys(ks: Seq<Key>) -> Seq<Key>
    decreases ks.len(),
{
    if ks.len() == 0 {
        Seq::empty()
    } else {
        let d = distinct_keys(ks.drop_last());
        if d.contains(ks.last()) {
            d
        } else {
            d.push(ks.last())
        }
    }
}

/// The counts of the measurements with key `k`, in order.
pub open spec fn group_counts(ms: Seq<Measurement>, k: Key) -> Seq<u64>
    decreases ms.len(),
{
    if ms.len() == 0 {
        Seq::empty()
    } else if key_of(ms.last()) == k {
        group_counts(ms.drop_last(), k).push(ms.last().count)
    } else {
        group_counts(ms.drop_last(), k)
    }
}

/// The least of the counts (0 for none).
pub open spec fn seq_min(s: Seq<u64>) -> u64
    decreases s.len(),
{
    if s.len() == 0 {
        0
    } else if s.len() == 1 || s.last() < seq_min(s.drop_last()) {
        s.last()
    } else {
        seq_min(s.drop_last())
    }
}

/// The greatest of the counts (0 for none).
pub open spec fn seq_max(s: Seq<u64>) -> u64
    decreases s.len(),
{
    if s.len() == 0 {
        0
    } else if s.len() == 1 || s.last() > seq_max(s.drop_last()) {
        s.last()
    } else {
        seq_max(s.drop_last())
    }
}

/// The order of counts.
pub open spec fn count_leq() -> spec_fn(u64, u64) -> bool {
    |a: u64, b: u64| a <= b
}

/// The counts in ascending order.
pub open spec fn sorted_counts(s: Seq<u64>) -> Seq<u64> {
    s.sort_by(count_leq())
}

/// The median of the counts: the middle one in ascending order, the upper
/// of the two middle ones for an even number.
pub open spec fn median_of(s: Seq<u64>) -> u64 {
    sorted_counts(s)[(s.len() / 2) as int]
}

pub proof fn lemma_count_leq_total()
    ensures
        total_ordering(count_leq()),
{
}

proof fn lemma_seq_min_max(s: Seq<u64>)
    ensures
        forall|i: int| 0 <= i < s.len() ==> seq_min(s) <= #[trigger] s[i] <= seq_max(s),
        s.len() > 0 ==> s.contains(seq_min(s)) && s.contains(seq_max(s)),
    decreases s.len(),
{
    if s.len() > 0 {
        let t = s.drop_last();
        lemma_seq_min_max(t);
        assert forall|i: int| 0 <= i < s.len() implies seq_min(s) <= #[trigger] s[i] <= seq_max(s) by {
            if i < s.len() - 1 {
                assert(s[i] == t[i]);
            }
        }
        if s.len() > 1 {
            if !(s.last() < seq_min(t)) {
                let j = choose|j: int| 0 <= j < t.len() && t[j] == seq_min(t);
                assert(s[j] == t[j]);
            }
            if !(s.last() > seq_max(t)) {
                let j = choose|j: int| 0 <= j < t.len() && t[j] == seq_max(t);
                assert(s[j] == t[j]);
            }
        }
        assert(s[s.len() - 1] == s.last());
    }
}

/// Law: the median of a nonempty group is one of its counts, between the
/// group's minimum and maximum.
pub proof fn lemma_median_between(s: Seq<u64>)
    requires
        s.len() > 0,
    ensures
        s.contains(median_of(s)),
        seq_min(s) <= median_of(s) <= seq_max(s),
{
    lemma_count_leq_total();
    s.lemma_sort_by_ensures(count_leq());
    let t = sorted_counts(s);
    assert(t.to_multiset().len() == s.to_multiset().len());
    assert(t.contains(t[(s.len() / 2) as int]));
    assert(s.contains(median_of(s)));
    lemma_seq_min_max(s);
}

/// How many of the counts lie below `m`.
pub open spec fn count_below(s: Seq<u64>, m: u64) -> nat
    decreases s.len(),
{
    if s.len() == 0 {
        0
    } else {
        count_below(s.drop_last(), m) + if s.last() < m {
            1nat
        } else {
            0nat
        }
    }
}

/// How many of the counts lie above `m`.
pub open spec fn count_above(s: Seq<u64>, m: u64) -> nat
    decreases s.len(),
{
    if s.len() == 0 {
        0
    } else {
        count_above(s.drop_last(), m) + if s.last() > m {
            1nat
        } else {
            0nat
        }
    }
}

proof fn lemma_counts_remove(t: Seq<u64>, j: int, m: u64)
    requires
        0 <= j < t.len(),
    ensures
        count_below(t, m) == count_below(t.remove(j), m) + if t[j] < m {
            1nat
        } else {
            0nat
        },
        count_above(t, m) == count_above(t.remove(j), m) + if t[j] > m {
            1nat
        } else {
            0nat
        },
    decreases t.len(),
{
    let u = t.drop_last();
    if j == t.len() - 1 {
        assert(t.remove(j) =~= u);
    } else {
        lemma_counts_remove(u, j, m);
        assert(t.remove(j) =~= u.remove(j).push(t.last()));
        assert(t.remove(j).drop_last() =~= u.remove(j));
        assert(u[j] == t[j]);
    }
}

proof fn lemma_counts_permutation(s: Seq<u64>, t: Seq<u64>, m: u64)
    requires
        s.to_multiset() == t.to_multiset(),
    ensures
        count_below(s, m) == count_below(t, m),
        count_above(s, m) == count_above(t, m),
    decreases s.len(),
{
    broadcast use vstd::seq_lib::group_to_multiset_ensures;

    if s.len() == 0 {
        assert(t.to_multiset().len() == 0);
        assert(t.len() == 0);
    } else {
        let x = s.last();
        let u = s.drop_last();
        assert(u.push(x) =~= s);
        assert(s.to_multiset() == u.to_multiset().insert(x));
        assert(s.to_multiset().count(x) > 0);
        assert(t.contains(x));
        let j = choose|j: int| 0 <= j < t.len() && t[j] == x;
        let v = t.remove(j);
        assert(v.to_multiset() == t.to_multiset().remove(x));
        assert(u.to_multiset() =~= v.to_multiset());
        lemma_counts_permutation(u, v, m);
        lemma_counts_remove(t, j, m);
    }
}

proof fn lemma_count_below_bound(t: Seq<u64>, m: u64, k: int)
    requires
        0 <= k <= t.len(),
        forall|i: int| k <= i < t.len() ==> !(#[trigger] t[i] < m),
    ensures
        count_below(t, m) <= k,
    decreases t.len(),
{
    if t.len() > 0 {
        let u = t.drop_last();
        assert forall|i: int| u.len() <= i < u.len() implies !(#[trigger] u[i] < m) by {}
        if k < t.len() {
            assert(!(t[t.len() - 1] < m));
            assert forall|i: int| k <= i < u.len() implies !(#[trigger] u[i] < m) by {
                assert(u[i] == t[i]);
            }
            lemma_count_below_bound(u, m, k);
        } else {
            lemma_count_below_bound(u, m, u.len() as int);
        }
    }
}

proof fn lemma_count_above_bound(t: Seq<u64>, m: u64, k: int)
    requires
        0 <= k <= t.len(),
        forall|i: int| 0 <= i < k ==> !(#[trigger] t[i] > m),
    ensures
        count_above(t, m) <= t.len() - k,
    decreases t.len(),
{
    if t.len() > 0 {
        let u = t.drop_last();
        if k < t.len() {
            assert forall|i: int| 0 <= i < k implies !(#[trigger] u[i] > m) by {
                assert(u[i] == t[i]);
            }
            lemma_count_above_bound(u, m, k);
        } else {
            assert(!(t[t.len() - 1] > m));
            assert forall|i: int| 0 <= i < u.len() implies !(#[trigger] u[i] > m) by {
                assert(u[i] == t[i]);
            }
            lemma_count_above_bound(u, m, u.len() as int);
        }
    }
}

/// Law: the median splits its group: at most half of the counts lie below
/// it and at most half above it; for an odd number `2p + 1` of counts at
/// most `p` on each side (the median), for an even number `2p` at most `p`
/// below and `p - 1` above (the upper of the two middle counts).
pub proof fn lemma_median_splits(s: Seq<u64>)
    requires
        s.len() > 0,
    ensures
        count_below(s, median_of(s)) <= s.len() / 2,
        count_above(s, median_of(s)) <= (s.len() - 1) - s.len() / 2,
{
    lemma_count_leq_total();
    s.lemma_sort_by_ensures(count_leq());
    let t = sorted_counts(s);
    let n = s.len();
    assert(t.len() == n) by {
        broadcast use vstd::seq_lib::group_to_multiset_ensures;

        assert(t.to_multiset().len() == s.to_multiset().len());
    }
    let h = (n / 2) as int;
    let m = median_of(s);
    assert(m == t[h]);
    assert forall|i: int| h <= i < t.len() implies !(#[trigger] t[i] < m) by {
        if i > h {
            assert(count_leq()(t[h], t[i]));
        }
    }
    assert forall|i: int| 0 <= i < h + 1 implies !(#[trigger] t[i] > m) by {
        if i < h {
            assert(count_leq()(t[i], t[h]));
        }
    }
    lemma_count_below_bound(t, m, h);
    lemma_count_above_bound(t, m, h + 1);
    lemma_counts_permutation(s, t, m);
}

/// The counts, sorted (insertion sort).
fn sort_counts(s: &Vec<u64>) -> (r: Vec<u64>)
    ensures
        r@ == sorted_counts(s@),
{
    let mut out: Vec<u64> = Vec::new();
    let mut i: usize = 0;
    while i < s.len()
        invariant
            i <= s.len(),
            sorted_by(out@, count_leq()),
            out@.to_multiset() == s@.take(i as int).to_multiset(),
        decreases s.len() - i,
    {
        let x = s[i];
        let mut p: usize = 0;
        while p < out.len() && out[p] <= x
            invariant
                p <= out.len(),
                forall|j: int| 0 <= j < p ==> out@[j] <= x,
            decreases out.len() - p,
        {
            p = p + 1;
        }
        let ghost old_out = out@;
        out.insert(p, x);
        proof {
            assert(out@ == old_out.insert(p as int, x));
            assert forall|a: int, b: int| 0 <= a < b < out@.len() implies #[trigger] count_leq()(
                out@[a],
                out@[b],
            ) by {
                if b < p {
                    assert(count_leq()(old_out[a], old_out[b]));
                } else if b == p {
                } else if a < p {
                    assert(out@[b] == old_out[b - 1]);
                    if p < old_out.len() {
                        assert(count_leq()(old_out[p as int], old_out[b - 1]) || p == b - 1);
                    }
                } else if a == p {
                    assert(out@[b] == old_out[b - 1]);
                    assert(count_leq()(old_out[p as int], old_out[b - 1]) || p == b - 1);
                } else {
                    assert(count_leq()(old_out[a - 1], old_out[b - 1]));
                }
            }
            assert(s@.take(i + 1) =~= s@.take(i as int).push(x));
        }
        i = i + 1;
    }
    proof {
        assert(s@.take(s.len() as int) =~= s@);
        lemma_count_leq_total();
        s@.lemma_sort_by_ensures(count_leq());
        vstd::seq_lib::lemma_sorted_unique(out@, sorted_counts(s@), count_leq());
    }
    out
}

/// Returns the median value of a group, sorting the group.
pub fn median(numbers: &mut Vec<u64>) -> (m: u64)
    requires
        old(numbers).len() > 0,
    ensures
        final(numbers)@ == sorted_counts(old(numbers)@),
        m == median_of(old(numbers)@),
{
    let sorted = sort_counts(numbers);
    proof {
        lemma_count_leq_total();
        numbers@.lemma_sort_by_ensures(count_leq());
        assert(sorted@.to_multiset().len() == numbers@.to_multiset().len());
    }
    *numbers = sorted;
    numbers[numbers.len() / 2]
}


/// The summary of the measurements that share a key: the key, the group's
/// counts in the order of the measurements, and their minimum, maximum and
/// median. The mean and mean deviation are derived from `counts`.
pub struct Summary {
    pub arch: String,
    pub engine: String,
    pub wasm: String,
    pub phase: Phase,
    pub event: String,
    pub min: u64,
    pub max: u64,
    pub median: u64,
    pub counts: Vec<u64>,
}

pub open spec fn summary_key(s: Summary) -> Key {
    (s.arch@, s.engine@, s.wasm@, s.phase, s.event@)
}

/// `s` summarizes the group of `ms` with key `k`.
pub open spec fn summarizes(s: Summary, ms: Seq<Measurement>, k: Key) -> bool {
    let counts = group_counts(ms, k);
    &&& summary_key(s) == k
    &&& s.counts@ == counts
    &&& s.min == seq_min(counts)
    &&& s.max == seq_max(counts)
    &&& s.median == median_of(counts)
}

fn same_key(a: &Measurement, b: &Measurement) -> (r: bool)
    ensures
        r == (key_of(*a) == key_of(*b)),
{
    a.arch == b.arch && a.engine == b.engine && a.wasm == b.wasm && a.phase == b.phase && a.event
        == b.event
}

fn min_of(s: &Vec<u64>) -> (m: u64)
    requires
        s.len() > 0,
    ensures
        m == seq_min(s@),
{
    let mut m = s[0];
    let mut i: usize = 1;
    assert(s@.take(1).drop_last() =~= Seq::<u64>::empty());
    while i < s.len()
        invariant
            1 <= i <= s.len(),
            m == seq_min(s@.take(i as int)),
        decreases s.len() - i,
    {
        assert(s@.take(i + 1).drop_last() =~= s@.take(i as int));
        if s[i] < m {
            m = s[i];
        }
        i = i + 1;
    }
    assert(s@.take(s.len() as int) =~= s@);
    m
}

fn max_of(s: &Vec<u64>) -> (m: u64)
    requires
        s.len() > 0,
    ensures
        m == seq_max(s@),
{
    let mut m = s[0];
    let mut i: usize = 1;
    assert(s@.take(1).drop_last() =~= Seq::<u64>::empty());
    while i < s.len()
        invariant
            1 <= i <= s.len(),
            m == seq_max(s@.take(i as int)),
        decreases s.len() - i,
    {
        assert(s@.take(i + 1).drop_last() =~= s@.take(i as int));
        if s[i] > m {
            m = s[i];
        }
        i = i + 1;
    }
    assert(s@.take(s.len() as int) =~= s@);
    m
}

/// The counts of the measurements that share the key of `ms[first]`.
fn counts_with_key_of(ms: &Vec<Measurement>, first: usize) -> (r: Vec<u64>)
    requires
        first < ms.len(),
    ensures
        r@ == group_counts(ms@, key_of(ms@[first as int])),
        r.len() > 0,
{
    let ghost k = key_of(ms@[first as int]);
    let mut r: Vec<u64> = Vec::new();
    let mut j: usize = 0;
    while j < ms.len()
        invariant
            j <= ms.len(),
            first < ms.len(),
            k == key_of(ms@[first as int]),
            r@ == group_counts(ms@.take(j as int), k),
            j > first ==> r.len() > 0,
        decreases ms.len() - j,
    {
        assert(ms@.take(j + 1).drop_last() =~= ms@.take(j as int));
        assert(ms@.take(j + 1).last() == ms@[j as int]);
        if same_key(&ms[j], &ms[first]) {
            r.push(ms[j].count);
        }
        j = j + 1;
    }
    assert(ms@.take(ms.len() as int) =~= ms@);
    r
}

fn copy_counts(s: &Vec<u64>) -> (r: Vec<u64>)
    ensures
        r@ == s@,
{
    let mut r: Vec<u64> = Vec::new();
    let mut i: usize = 0;
    while i < s.len()
        invariant
            i <= s.len(),
            r@ == s@.take(i as int),
        decreases s.len() - i,
    {
        r.push(s[i]);
        i = i + 1;
        assert(r@ =~= s@.take(i as int));
    }
    assert(s@.take(s.len() as int) =~= s@);
    r
}

/// The indices of the measurements whose key first occurs there.
fn first_occurrences(ms: &Vec<Measurement>) -> (firsts: Vec<usize>)
    ensures
        firsts@.map_values(|f: usize| key_of(ms@[f as int])) == distinct_keys(keys_of(ms@)),
        forall|i: int| 0 <= i < firsts.len() ==> firsts@[i] < ms.len(),
{
    let mut firsts: Vec<usize> = Vec::new();
    let mut i: usize = 0;
    let ghost ks = keys_of(ms@);
    assert(ks.take(0) =~= Seq::<Key>::empty());
    assert(firsts@.map_values(|f: usize| key_of(ms@[f as int])) =~= Seq::<Key>::empty());
    while i < ms.len()
        invariant
            i <= ms.len(),
            ks == keys_of(ms@),
            firsts@.map_values(|f: usize| key_of(ms@[f as int])) == distinct_keys(
                ks.take(i as int),
            ),
            forall|j: int| 0 <= j < firsts.len() ==> firsts@[j] < i,
        decreases ms.len() - i,
    {
        let ghost d = distinct_keys(ks.take(i as int));
        let ghost fv = firsts@.map_values(|f: usize| key_of(ms@[f as int]));
        assert(ks.take(i + 1).drop_last() =~= ks.take(i as int));
        assert(ks.take(i + 1).last() == key_of(ms@[i as int]));
        let mut found = false;
        let mut j: usize = 0;
        while j < firsts.len()
            invariant
                j <= firsts.len(),
                i < ms.len(),
                fv == firsts@.map_values(|f: usize| key_of(ms@[f as int])),
                forall|q: int| 0 <= q < firsts.len() ==> firsts@[q] < i,
                found ==> d.contains(key_of(ms@[i as int])),
                fv == d,
                !found ==> forall|q: int| 0 <= q < j ==> fv[q] != key_of(ms@[i as int]),
            decreases firsts.len() - j,
        {
            if same_key(&ms[firsts[j]], &ms[i]) {
                assert(fv[j as int] == key_of(ms@[i as int]));
                found = true;
            }
            j = j + 1;
        }
        if !found {
            assert(!d.contains(key_of(ms@[i as int])));
            firsts.push(i);
            assert(firsts@.map_values(|f: usize| key_of(ms@[f as int])) =~= fv.push(
                key_of(ms@[i as int]),
            ));
        }
        i = i + 1;
    }
    assert(ks.take(ms.len() as int) =~= ks);
    firsts
}

/// Law: every key has one summary and no two summaries share a key: the
/// summary keys are distinct, each measurement's key is among them, and
/// each of them is the key of some measurement.
pub proof fn lemma_distinct_keys(ks: Seq<Key>)
    ensures
        forall|a: int, b: int|
            0 <= a < b < distinct_keys(ks).len() ==> distinct_keys(ks)[a] != distinct_keys(ks)[b],
        forall|i: int| 0 <= i < ks.len() ==> distinct_keys(ks).contains(#[trigger] ks[i]),
        forall|a: int| 0 <= a < distinct_keys(ks).len() ==> ks.contains(#[trigger] distinct_keys(ks)[a]),
    decreases ks.len(),
{
    if ks.len() > 0 {
        let t = ks.drop_last();
        lemma_distinct_keys(t);
        let d = distinct_keys(t);
        let e = distinct_keys(ks);
        assert forall|i: int| 0 <= i < ks.len() implies e.contains(#[trigger] ks[i]) by {
            if i < ks.len() - 1 {
                assert(ks[i] == t[i]);
                assert(d.contains(t[i]));
                let j = choose|j: int| 0 <= j < d.len() && d[j] == t[i];
                assert(e[j] == d[j]);
            } else if !d.contains(ks.last()) {
                assert(e[d.len() as int] == ks.last());
            }
        }
        assert forall|a: int| 0 <= a < e.len() implies ks.contains(#[trigger] e[a]) by {
            if a < d.len() {
                assert(e[a] == d[a]);
                assert(t.contains(d[a]));
                let j = choose|j: int| 0 <= j < t.len() && t[j] == d[a];
                assert(ks[j] == t[j]);
            } else {
                assert(ks[ks.len() - 1] == e[a]);
            }
        }
    }
}

/// The number of counts in the groups of the keys `ks`.
pub open spec fn grouped_total(ms: Seq<Measurement>, ks: Seq<Key>) -> nat
    decreases ks.len(),
{
    if ks.len() == 0 {
        0
    } else {
        grouped_total(ms, ks.drop_last()) + group_counts(ms, ks.last()).len()
    }
}

proof fn lemma_group_counts_absent(ms: Seq<Measurement>, k: Key)
    requires
        !keys_of(ms).contains(k),
    ensures
        group_counts(ms, k).len() == 0,
    decreases ms.len(),
{
    if ms.len() > 0 {
        let t = ms.drop_last();
        assert(keys_of(ms)[ms.len() - 1] == key_of(ms.last()));
        assert forall|i: int| 0 <= i < t.len() implies keys_of(t)[i] != k by {
            assert(keys_of(t)[i] == keys_of(ms)[i]);
        }
        lemma_group_counts_absent(t, k);
    }
}

proof fn lemma_grouped_total_push(ms: Seq<Measurement>, m: Measurement, ks: Seq<Key>)
    requires
        forall|a: int, b: int| 0 <= a < b < ks.len() ==> ks[a] != ks[b],
    ensures
        grouped_total(ms.push(m), ks) == grouped_total(ms, ks) + if ks.contains(key_of(m)) {
            1int
        } else {
            0int
        },
    decreases ks.len(),
{
    if ks.len() > 0 {
        let t = ks.drop_last();
        lemma_grouped_total_push(ms, m, t);
        assert(ms.push(m).drop_last() =~= ms);
        if ks.last() == key_of(m) {
            assert(ks.contains(key_of(m)));
            assert(!t.contains(key_of(m)));
        } else {
            assert(ks.contains(key_of(m)) == t.contains(key_of(m))) by {
                if ks.contains(key_of(m)) {
                    let j = choose|j: int| 0 <= j < ks.len() && ks[j] == key_of(m);
                    assert(j < ks.len() - 1);
                    assert(t[j] == ks[j]);
                }
                if t.contains(key_of(m)) {
                    let j = choose|j: int| 0 <= j < t.len() && t[j] == key_of(m);
                    assert(ks[j] == t[j]);
                }
            }
        }
    }
}

/// Law: the summaries account for every measurement exactly once: the
/// groups of the distinct keys together hold as many counts as there are
/// measurements.
pub proof fn lemma_every_measurement_counted_once(ms: Seq<Measurement>)
    ensures
        grouped_total(ms, distinct_keys(keys_of(ms))) == ms.len(),
    decreases ms.len(),
{
    if ms.len() > 0 {
        let t = ms.drop_last();
        let m = ms.last();
        lemma_every_measurement_counted_once(t);
        assert(t.push(m) =~= ms);
        assert(keys_of(ms) =~= keys_of(t).push(key_of(m)));
        assert(keys_of(ms).drop_last() =~= keys_of(t));
        let d = distinct_keys(keys_of(t));
        lemma_distinct_keys(keys_of(t));
        lemma_grouped_total_push(t, m, d);
        if !d.contains(key_of(m)) {
            assert(!keys_of(t).contains(key_of(m))) by {
                if keys_of(t).contains(key_of(m)) {
                    let j = choose|j: int| 0 <= j < keys_of(t).len() && keys_of(t)[j] == key_of(m);
                    assert(d.contains(keys_of(t)[j]));
                }
            }
            lemma_group_counts_absent(t, key_of(m));
            assert(d.push(key_of(m)).drop_last() =~= d);
            assert(group_counts(ms, key_of(m)) == group_counts(t, key_of(m)).push(m.count));
        }
    }
}

/// Summarize measurements grouped by: architecture, engine, benchmark file,
/// phase and event; one summary per key, in the order in which keys first
/// occur.
pub fn calculate(measurements: &Vec<Measurement>) -> (r: Vec<Summary>)
    ensures
        r.len() == distinct_keys(keys_of(measurements@)).len(),
        forall|i: int|
            0 <= i < r.len() ==> summarizes(
                #[trigger] r@[i],
                measurements@,
                distinct_keys(keys_of(measurements@))[i],
            ),
{
    let firsts = first_occurrences(measurements);
    let ghost ks = distinct_keys(keys_of(measurements@));
    let mut summaries: Vec<Summary> = Vec::new();
    let mut i: usize = 0;
    while i < firsts.len()
        invariant
            i <= firsts.len(),
            ks == distinct_keys(keys_of(measurements@)),
            firsts@.map_values(|f: usize| key_of(measurements@[f as int])) == ks,
            forall|q: int| 0 <= q < firsts.len() ==> firsts@[q] < measurements.len(),
            summaries.len() == i,
            forall|q: int| 0 <= q < i ==> summarizes(#[trigger] summaries@[q], measurements@, ks[q]),
        decreases firsts.len() - i,
    {
        let f = firsts[i];
        assert(ks[i as int] == key_of(measurements@[f as int]));
        let counts = counts_with_key_of(measurements, f);
        let mut sorted = copy_counts(&counts);
        let m = &measurements[f];
        let s = Summary {
            arch: m.arch.clone(),
            engine: m.engine.clone(),
            wasm: m.wasm.clone(),
            phase: m.phase,
            event: m.event.clone(),
            min: min_of(&counts),
            max: max_of(&counts),
            median: median(&mut sorted),
            counts,
        };
        summaries.push(s);
        i = i + 1;
    }
    summaries
}


/// The order of texts: lexicographic by character (the order of `str`).
pub open spec fn text_compare(a: Seq<char>, b: Seq<char>) -> int
    decreases a.len(),
{
    if a.len() == 0 {
        if b.len() == 0 {
            0
        } else {
            -1
        }
    } else if b.len() == 0 {
        1
    } else if (a[0] as int) < (b[0] as int) {
        -1
    } else if (a[0] as int) > (b[0] as int) {
        1
    } else {
        text_compare(a.drop_first(), b.drop_first())
    }
}

pub proof fn lemma_text_compare(a: Seq<char>, b: Seq<char>)
    ensures
        -1 <= text_compare(a, b) <= 1,
        text_compare(a, b) == -text_compare(b, a),
        text_compare(a, b) == 0 <==> a == b,
    decreases a.len(),
{
    if a.len() == 0 || b.len() == 0 {
        if a.len() == 0 && b.len() == 0 {
            assert(a =~= b);
        } else {
            assert(a.len() != b.len());
        }
    } else if a[0] == b[0] {
        lemma_text_compare(a.drop_first(), b.drop_first());
        if a.drop_first() == b.drop_first() {
            assert(a =~= seq![a[0]] + a.drop_first());
            assert(b =~= seq![b[0]] + b.drop_first());
        } else {
            if a == b {
                assert(a.drop_first() =~= b.drop_first());
            }
        }
    } else {
        assert((a[0] as int) != (b[0] as int));
        if a == b {
            assert(a[0] == b[0]);
        }
    }
}

pub proof fn lemma_text_compare_trans(a: Seq<char>, b: Seq<char>, c: Seq<char>)
    requires
        text_compare(a, b) <= 0,
        text_compare(b, c) <= 0,
    ensures
        text_compare(a, c) <= 0,
    decreases a.len(),
{
    if a.len() > 0 && b.len() > 0 && c.len() > 0 && a[0] == b[0] && b[0] == c[0] {
        lemma_text_compare_trans(a.drop_first(), b.drop_first(), c.drop_first());
    }
}

/// The rank of a phase in the order of phases.
pub open spec fn phase_rank(p: Phase) -> int {
    match p {
        Phase::Compilation => 0,
        Phase::Instantiation => 1,
        Phase::Execution => 2,
    }
}

/// The order of summaries in the report: by phase, then benchmark file,
/// then event, then engine.
pub open spec fn report_compare(x: Summary, y: Summary) -> int {
    if phase_rank(x.phase) < phase_rank(y.phase) {
        -1
    } else if phase_rank(x.phase) > phase_rank(y.phase) {
        1
    } else if text_compare(x.wasm@, y.wasm@) != 0 {
        text_compare(x.wasm@, y.wasm@)
    } else if text_compare(x.event@, y.event@) != 0 {
        text_compare(x.event@, y.event@)
    } else {
        text_compare(x.engine@, y.engine@)
    }
}

proof fn lemma_report_compare(x: Summary, y: Summary, z: Summary)
    ensures
        report_compare(x, y) == -report_compare(y, x),
        report_compare(x, y) <= 0 && report_compare(y, z) <= 0 ==> report_compare(x, z) <= 0,
        report_compare(x, y) < 0 && report_compare(y, z) <= 0 ==> report_compare(x, z) < 0,
{
    lemma_text_compare(x.wasm@, y.wasm@);
    lemma_text_compare(y.wasm@, z.wasm@);
    lemma_text_compare(x.wasm@, z.wasm@);
    lemma_text_compare(x.event@, y.event@);
    lemma_text_compare(y.event@, z.event@);
    lemma_text_compare(x.event@, z.event@);
    lemma_text_compare(x.engine@, y.engine@);
    lemma_text_compare(y.engine@, z.engine@);
    lemma_text_compare(x.engine@, z.engine@);
    if text_compare(x.wasm@, y.wasm@) <= 0 && text_compare(y.wasm@, z.wasm@) <= 0 {
        lemma_text_compare_trans(x.wasm@, y.wasm@, z.wasm@);
    }
    if text_compare(x.event@, y.event@) <= 0 && text_compare(y.event@, z.event@) <= 0 {
        lemma_text_compare_trans(x.event@, y.event@, z.event@);
    }
    if text_compare(x.engine@, y.engine@) <= 0 && text_compare(y.engine@, z.engine@) <= 0 {
        lemma_text_compare_trans(x.engine@, y.engine@, z.engine@);
    }
}

/// Summary `i` comes before summary `j` in the report: by the report order,
/// and by position among equals (the sort is stable).
pub open spec fn comes_before(ss: Seq<Summary>, i: int, j: int) -> bool {
    report_compare(ss[i], ss[j]) < 0 || (report_compare(ss[i], ss[j]) == 0 && i < j)
}

/// `o` lists every summary once, in report order.
pub open spec fn is_report_order(ss: Seq<Summary>, o: Seq<usize>) -> bool {
    &&& o.len() == ss.len()
    &&& forall|a: int| 0 <= a < o.len() ==> o[a] < ss.len()
    &&& forall|a: int, b: int| 0 <= a < b < o.len() ==> o[a] != o[b]
    &&& forall|a: int, b: int| 0 <= a < b < o.len() ==> comes_before(ss, #[trigger] o[a] as int, #[trigger] o[b] as int)
}

proof fn lemma_order_is_onto(n: nat, o: Seq<usize>)
    requires
        o.len() == n,
        forall|a: int| 0 <= a < o.len() ==> o[a] < n,
        forall|a: int, b: int| 0 <= a < b < o.len() ==> o[a] != o[b],
    ensures
        forall|v: usize| v < n ==> o.contains(v),
{
    broadcast use vstd::seq_lib::seq_to_set_is_finite;

    let oi = o.map_values(|x: usize| x as int);
    assert(oi.no_duplicates()) by {
        assert forall|i: int, j: int| 0 <= i < oi.len() && 0 <= j < oi.len() && i != j implies oi[i]
            != oi[j] by {
            if i < j {
                assert(o[i] != o[j]);
            } else {
                assert(o[j] != o[i]);
            }
        }
    }
    oi.unique_seq_to_set();
    vstd::set_lib::lemma_int_range(0, n as int);
    let range = vstd::set_lib::set_int_range(0, n as int);
    assert(oi.to_set().subset_of(range)) by {
        assert forall|v: int| oi.to_set().contains(v) implies range.contains(v) by {
            let a = choose|a: int| 0 <= a < oi.len() && oi[a] == v;
            assert(o[a] < n);
        }
    }
    vstd::set_lib::lemma_subset_equality(oi.to_set(), range);
    assert forall|v: usize| v < n implies o.contains(v) by {
        assert(range.contains(v as int));
        assert(oi.to_set().contains(v as int));
        let a = choose|a: int| 0 <= a < oi.len() && oi[a] == v as int;
        assert(o[a] == v);
    }
}

proof fn lemma_sorted_orders_equal(ss: Seq<Summary>, o1: Seq<usize>, o2: Seq<usize>)
    requires
        o1.len() == o2.len(),
        forall|a: int, b: int| 0 <= a < b < o1.len() ==> o1[a] != o1[b],
        forall|a: int, b: int| 0 <= a < b < o2.len() ==> o2[a] != o2[b],
        forall|v: usize| o1.contains(v) <==> o2.contains(v),
        forall|a: int, b: int|
            0 <= a < b < o1.len() ==> comes_before(ss, #[trigger] o1[a] as int, #[trigger] o1[b] as int),
        forall|a: int, b: int|
            0 <= a < b < o2.len() ==> comes_before(ss, #[trigger] o2[a] as int, #[trigger] o2[b] as int),
    ensures
        o1 == o2,
    decreases o1.len(),
{
    if o1.len() > 0 {
        let x = o1[0];
        let y = o2[0];
        if x != y {
            assert(o1.contains(x));
            assert(o2.contains(x));
            let q = choose|q: int| 0 <= q < o2.len() && o2[q] == x;
            assert(q > 0);
            assert(comes_before(ss, y as int, x as int));
            assert(o2.contains(y));
            let p = choose|p: int| 0 <= p < o1.len() && o1[p] == y;
            assert(p > 0);
            assert(comes_before(ss, x as int, y as int));
            lemma_report_compare(ss[x as int], ss[y as int], ss[x as int]);
            assert(false);
        }
        let t1 = o1.drop_first();
        let t2 = o2.drop_first();
        assert forall|v: usize| t1.contains(v) <==> t2.contains(v) by {
            if t1.contains(v) {
                let a = choose|a: int| 0 <= a < t1.len() && t1[a] == v;
                assert(o1[a + 1] == v);
                assert(v != x);
                assert(o2.contains(v));
                let b = choose|b: int| 0 <= b < o2.len() && o2[b] == v;
                assert(b > 0);
                assert(t2[b - 1] == v);
            }
            if t2.contains(v) {
                let a = choose|a: int| 0 <= a < t2.len() && t2[a] == v;
                assert(o2[a + 1] == v);
                assert(v != y);
                assert(o1.contains(v));
                let b = choose|b: int| 0 <= b < o1.len() && o1[b] == v;
                assert(b > 0);
                assert(t1[b - 1] == v);
            }
        }
        assert forall|a: int, b: int| 0 <= a < b < t1.len() implies comes_before(
            ss,
            #[trigger] t1[a] as int,
            #[trigger] t1[b] as int,
        ) by {
            assert(t1[a] == o1[a + 1] && t1[b] == o1[b + 1]);
        }
        assert forall|a: int, b: int| 0 <= a < b < t2.len() implies comes_before(
            ss,
            #[trigger] t2[a] as int,
            #[trigger] t2[b] as int,
        ) by {
            assert(t2[a] == o2[a + 1] && t2[b] == o2[b + 1]);
        }
        assert forall|a: int, b: int| 0 <= a < b < t1.len() implies t1[a] != t1[b] by {
            assert(t1[a] == o1[a + 1] && t1[b] == o1[b + 1]);
        }
        assert forall|a: int, b: int| 0 <= a < b < t2.len() implies t2[a] != t2[b] by {
            assert(t2[a] == o2[a + 1] && t2[b] == o2[b + 1]);
        }
        lemma_sorted_orders_equal(ss, t1, t2);
        assert(o1 =~= seq![x] + t1);
        assert(o2 =~= seq![y] + t2);
    }
}

/// Law: the report order is unique: the sort is stable, so any two orders
/// that list every summary once in report order are the same, and the
/// report's lines are determined by the summaries alone.
pub proof fn lemma_report_order_unique(ss: Seq<Summary>, o1: Seq<usize>, o2: Seq<usize>)
    requires
        is_report_order(ss, o1),
        is_report_order(ss, o2),
    ensures
        o1 == o2,
{
    lemma_order_is_onto(ss.len(), o1);
    lemma_order_is_onto(ss.len(), o2);
    assert forall|v: usize| o1.contains(v) <==> o2.contains(v) by {
        if o1.contains(v) {
            let a = choose|a: int| 0 <= a < o1.len() && o1[a] == v;
            assert(v < ss.len());
        }
        if o2.contains(v) {
            let a = choose|a: int| 0 <= a < o2.len() && o2[a] == v;
            assert(v < ss.len());
        }
    }
    lemma_sorted_orders_equal(ss, o1, o2);
}

/// The fields that place a summary in the report.
pub open spec fn report_key(s: Summary) -> (Phase, Seq<char>, Seq<char>, Seq<char>) {
    (s.phase, s.wasm@, s.event@, s.engine@)
}

/// No two summaries share phase, benchmark file, event and engine.
pub open spec fn report_keys_distinct(ss: Seq<Summary>) -> bool {
    forall|i: int, j: int| 0 <= i < j < ss.len() ==> report_key(ss[i]) != report_key(ss[j])
}

/// `ss2` holds the summaries of `ss1` in another order: `ss2[j]` is
/// `ss1[perm[j]]`, each position of `ss1` taken once.
pub open spec fn is_permutation_by(ss1: Seq<Summary>, ss2: Seq<Summary>, perm: Seq<int>) -> bool {
    &&& ss1.len() == ss2.len()
    &&& perm.len() == ss2.len()
    &&& forall|j: int| 0 <= j < perm.len() ==> 0 <= #[trigger] perm[j] < ss1.len()
    &&& forall|a: int, b: int| 0 <= a < b < perm.len() ==> perm[a] != perm[b]
    &&& forall|j: int| 0 <= j < ss2.len() ==> #[trigger] ss2[j] == ss1[perm[j]]
}

/// A report line with the summary of a row in place of its position.
pub enum ReportEntry {
    Phase(Phase),
    Wasm(Seq<char>),
    Event(Seq<char>),
    Row(Summary),
}

/// What the lines show: each row resolved to its summary.
pub open spec fn resolve_lines(ss: Seq<Summary>, ls: Seq<ReportLineView>) -> Seq<ReportEntry> {
    ls.map_values(
        |l: ReportLineView|
            match l {
                ReportLineView::Phase(p) => ReportEntry::Phase(p),
                ReportLineView::Wasm(w) => ReportEntry::Wasm(w),
                ReportLineView::Event(e) => ReportEntry::Event(e),
                ReportLineView::Row(i) => ReportEntry::Row(ss[i as int]),
            },
    )
}

proof fn lemma_report_compare_zero(x: Summary, y: Summary)
    requires
        report_compare(x, y) == 0,
    ensures
        report_key(x) == report_key(y),
{
    lemma_text_compare(x.wasm@, y.wasm@);
    lemma_text_compare(x.event@, y.event@);
    lemma_text_compare(x.engine@, y.engine@);
    assert(x.phase == y.phase);
}

proof fn lemma_resolve_prefix(
    ss1: Seq<Summary>,
    o1: Seq<usize>,
    ss2: Seq<Summary>,
    o2: Seq<usize>,
    n: int,
)
    requires
        0 <= n <= o1.len(),
        o1.len() == o2.len(),
        forall|k: int| 0 <= k < o1.len() ==> #[trigger] ss1[o1[k] as int] == ss2[o2[k] as int],
    ensures
        resolve_lines(ss1, report_prefix(ss1, o1, n)) == resolve_lines(ss2, report_prefix(ss2, o2, n)),
    decreases n,
{
    if n > 0 {
        let k = n - 1;
        lemma_resolve_prefix(ss1, o1, ss2, o2, k);
        assert(ss1[o1[k] as int] == ss2[o2[k] as int]);
        if k > 0 {
            assert(ss1[o1[k - 1] as int] == ss2[o2[k - 1] as int]);
        }
        let b1 = report_block(ss1, o1, k);
        let b2 = report_block(ss2, o2, k);
        assert(resolve_lines(ss1, b1) =~= resolve_lines(ss2, b2));
        let p1 = report_prefix(ss1, o1, k);
        let p2 = report_prefix(ss2, o2, k);
        assert(resolve_lines(ss1, p1 + b1) =~= resolve_lines(ss1, p1) + resolve_lines(ss1, b1));
        assert(resolve_lines(ss2, p2 + b2) =~= resolve_lines(ss2, p2) + resolve_lines(ss2, b2));
    }
}

/// Law: the report does not depend on the order of its input when no two
/// summaries share phase, benchmark file, event and engine: the same
/// summaries in another order give the same lines, row for row the same
/// summaries.
pub proof fn lemma_report_ignores_input_order(
    ss1: Seq<Summary>,
    ss2: Seq<Summary>,
    perm: Seq<int>,
    o1: Seq<usize>,
    o2: Seq<usize>,
)
    requires
        is_permutation_by(ss1, ss2, perm),
        ss1.len() <= usize::MAX,
        report_keys_distinct(ss1),
        is_report_order(ss1, o1),
        is_report_order(ss2, o2),
    ensures
        resolve_lines(ss1, report_prefix(ss1, o1, o1.len() as int)) == resolve_lines(
            ss2,
            report_prefix(ss2, o2, o2.len() as int),
        ),
{
    let n = ss1.len();
    let q = Seq::new(n, |k: int| perm[o2[k] as int] as usize);
    assert forall|a: int| 0 <= a < q.len() implies q[a] < ss1.len() && q[a] as int == perm[o2[a] as int] by {
        assert(o2[a] < ss2.len());
        assert(0 <= perm[o2[a] as int] < ss1.len());
    }
    assert forall|a: int, b: int| 0 <= a < b < q.len() implies q[a] != q[b] by {
        assert(o2[a] != o2[b]);
        let x = o2[a] as int;
        let y = o2[b] as int;
        assert(0 <= perm[x] < ss1.len() && 0 <= perm[y] < ss1.len());
        if x < y {
            assert(perm[x] != perm[y]);
        } else {
            assert(perm[y] != perm[x]);
        }
    }
    assert forall|a: int, b: int| 0 <= a < b < q.len() implies comes_before(
        ss1,
        #[trigger] q[a] as int,
        #[trigger] q[b] as int,
    ) by {
        let x = o2[a] as int;
        let y = o2[b] as int;
        assert(comes_before(ss2, o2[a] as int, o2[b] as int));
        assert(ss2[x] == ss1[perm[x]]);
        assert(ss2[y] == ss1[perm[y]]);
        assert(0 <= perm[x] < ss1.len() && 0 <= perm[y] < ss1.len());
        assert(q[a] != q[b]);
        if report_compare(ss2[x], ss2[y]) == 0 {
            lemma_report_compare_zero(ss2[x], ss2[y]);
            let i = perm[x];
            let j = perm[y];
            if i < j {
                assert(report_key(ss1[i]) != report_key(ss1[j]));
            } else {
                assert(report_key(ss1[j]) != report_key(ss1[i]));
            }
        }
    }
    assert(is_report_order(ss1, q));
    lemma_report_order_unique(ss1, o1, q);
    assert forall|k: int| 0 <= k < o1.len() implies #[trigger] ss1[o1[k] as int] == ss2[o2[k] as int] by {
        assert(o1[k] == q[k]);
        assert(o2[k] < ss2.len());
        assert(ss2[o2[k] as int] == ss1[perm[o2[k] as int]]);
        assert(0 <= perm[o2[k] as int] < ss1.len());
    }
    lemma_resolve_prefix(ss1, o1, ss2, o2, o1.len() as int);
}

fn text_compare_exec(a: &String, b: &String) -> (r: i8)
    ensures
        r == text_compare(a@, b@),
{
    let av = crate::text::chars_of(a.as_str());
    let bv = crate::text::chars_of(b.as_str());
    let mut i: usize = 0;
    assert(a@.skip(0) =~= a@);
    assert(b@.skip(0) =~= b@);
    while i < av.len() && i < bv.len() && av[i] == bv[i]
        invariant
            i <= av.len(),
            i <= bv.len(),
            av@ == a@,
            bv@ == b@,
            text_compare(a@, b@) == text_compare(a@.skip(i as int), b@.skip(i as int)),
        decreases av.len() - i,
    {
        assert(a@.skip(i as int).drop_first() =~= a@.skip(i + 1));
        assert(b@.skip(i as int).drop_first() =~= b@.skip(i + 1));
        i = i + 1;
    }
    let ghost x = a@.skip(i as int);
    let ghost y = b@.skip(i as int);
    if i == av.len() {
        if i == bv.len() {
            0
        } else {
            -1
        }
    } else if i == bv.len() {
        1
    } else {
        assert(x[0] == av@[i as int] && y[0] == bv@[i as int]);
        if av[i] < bv[i] {
            -1
        } else {
            1
        }
    }
}

fn phase_rank_exec(p: Phase) -> (r: u8)
    ensures
        r == phase_rank(p),
{
    match p {
        Phase::Compilation => 0,
        Phase::Instantiation => 1,
        Phase::Execution => 2,
    }
}

fn report_compare_exec(x: &Summary, y: &Summary) -> (r: i8)
    ensures
        r == report_compare(*x, *y),
{
    let rx = phase_rank_exec(x.phase);
    let ry = phase_rank_exec(y.phase);
    if rx < ry {
        return -1;
    }
    if rx > ry {
        return 1;
    }
    let w = text_compare_exec(&x.wasm, &y.wasm);
    if w != 0 {
        return w;
    }
    let e = text_compare_exec(&x.event, &y.event);
    if e != 0 {
        return e;
    }
    text_compare_exec(&x.engine, &y.engine)
}

/// The positions of the summaries in report order (a stable sort).
pub fn report_order(summaries: &Vec<Summary>) -> (o: Vec<usize>)
    ensures
        is_report_order(summaries@, o@),
{
    let ghost ss = summaries@;
    let mut out: Vec<usize> = Vec::new();
    let mut i: usize = 0;
    while i < summaries.len()
        invariant
            i <= summaries.len(),
            ss == summaries@,
            out.len() == i,
            forall|a: int| 0 <= a < out.len() ==> out@[a] < i,
            forall|a: int, b: int| 0 <= a < b < out.len() ==> out@[a] != out@[b],
            forall|a: int, b: int|
                0 <= a < b < out.len() ==> comes_before(ss, #[trigger] out@[a] as int, #[trigger] out@[b] as int),
        decreases summaries.len() - i,
    {
        let mut p: usize = 0;
        while p < out.len() && report_compare_exec(&summaries[i], &summaries[out[p]]) >= 0
            invariant
                p <= out.len(),
                i < summaries.len(),
                ss == summaries@,
                forall|a: int| 0 <= a < out.len() ==> out@[a] < i,
                forall|a: int| 0 <= a < p ==> report_compare(ss[i as int], ss[out@[a] as int]) >= 0,
            decreases out.len() - p,
        {
            p = p + 1;
        }
        let ghost old_out = out@;
        out.insert(p, i);
        proof {
            assert(out@ == old_out.insert(p as int, i));
            assert forall|a: int, b: int| 0 <= a < b < out@.len() implies comes_before(
                ss,
                #[trigger] out@[a] as int,
                #[trigger] out@[b] as int,
            ) by {
                if b < p {
                    assert(comes_before(ss, old_out[a] as int, old_out[b] as int));
                } else if b == p {
                    lemma_report_compare(ss[i as int], ss[old_out[a] as int], ss[i as int]);
                } else if a < p {
                    assert(comes_before(ss, old_out[a] as int, old_out[b - 1] as int));
                } else if a == p {
                    let q = old_out[p as int] as int;
                    let t = old_out[b - 1] as int;
                    if b - 1 > p {
                        assert(comes_before(ss, q, t));
                    }
                    lemma_report_compare(ss[i as int], ss[q], ss[t]);
                } else {
                    assert(comes_before(ss, old_out[a - 1] as int, old_out[b - 1] as int));
                }
            }
            assert forall|a: int, b: int| 0 <= a < b < out@.len() implies out@[a] != out@[b] by {
                if a != p && b != p {
                    let a2 = if a < p { a } else { a - 1 };
                    let b2 = if b < p { b } else { b - 1 };
                    assert(old_out[a2] != old_out[b2]);
                }
            }
        }
        i = i + 1;
    }
    out
}

/// A line of the report: a header for a phase, a benchmark file or an
/// event, or the row of the summary at the given position.
pub enum ReportLine {
    Phase(Phase),
    Wasm(String),
    Event(String),
    Row(usize),
}

pub enum ReportLineView {
    Phase(Phase),
    Wasm(Seq<char>),
    Event(Seq<char>),
    Row(usize),
}

impl View for ReportLine {
    type V = ReportLineView;

    open spec fn view(&self) -> ReportLineView {
        match self {
            ReportLine::Phase(p) => ReportLineView::Phase(*p),
            ReportLine::Wasm(w) => ReportLineView::Wasm(w@),
            ReportLine::Event(e) => ReportLineView::Event(e@),
            ReportLine::Row(i) => ReportLineView::Row(*i),
        }
    }
}

pub open spec fn line_views(v: Seq<ReportLine>) -> Seq<ReportLineView> {
    v.map_values(|l: ReportLine| l@)
}

/// The `k`-th summary in report order opens a new phase.
pub open spec fn opens_phase(ss: Seq<Summary>, o: Seq<usize>, k: int) -> bool {
    k == 0 || ss[o[k] as int].phase != ss[o[k - 1] as int].phase
}

/// ... a new benchmark file (a new phase opens one too).
pub open spec fn opens_wasm(ss: Seq<Summary>, o: Seq<usize>, k: int) -> bool {
    opens_phase(ss, o, k) || ss[o[k] as int].wasm@ != ss[o[k - 1] as int].wasm@
}

/// ... a new event (a new benchmark file opens one too).
pub open spec fn opens_event(ss: Seq<Summary>, o: Seq<usize>, k: int) -> bool {
    opens_wasm(ss, o, k) || ss[o[k] as int].event@ != ss[o[k - 1] as int].event@
}

/// The lines for the `k`-th summary in report order: the headers it opens,
/// then its row.
pub open spec fn report_block(ss: Seq<Summary>, o: Seq<usize>, k: int) -> Seq<ReportLineView> {
    let s = ss[o[k] as int];
    (if opens_phase(ss, o, k) {
        seq![ReportLineView::Phase(s.phase)]
    } else {
        Seq::empty()
    }) + (if opens_wasm(ss, o, k) {
        seq![ReportLineView::Wasm(s.wasm@)]
    } else {
        Seq::empty()
    }) + (if opens_event(ss, o, k) {
        seq![ReportLineView::Event(s.event@)]
    } else {
        Seq::empty()
    }) + seq![ReportLineView::Row(o[k])]
}

/// Law: the lines of the `k`-th summary in report order. The first summary,
/// and one whose phase differs from the previous one, opens a phase, its
/// benchmark file and its event; one in the same phase with another
/// benchmark file opens the file and, whatever the previous event, its
/// event; one that only changes the event opens the event; otherwise only
/// the row follows.
pub proof fn lemma_report_block_headers(ss: Seq<Summary>, o: Seq<usize>, k: int)
    requires
        0 <= k < o.len(),
    ensures
        ({
            let s = ss[o[k] as int];
            let p = ss[o[k - 1] as int];
            let row = ReportLineView::Row(o[k]);
            &&& (k == 0 || s.phase != p.phase) ==> report_block(ss, o, k) == seq![
                ReportLineView::Phase(s.phase),
                ReportLineView::Wasm(s.wasm@),
                ReportLineView::Event(s.event@),
                row,
            ]
            &&& (k > 0 && s.phase == p.phase && s.wasm@ != p.wasm@) ==> report_block(ss, o, k)
                == seq![ReportLineView::Wasm(s.wasm@), ReportLineView::Event(s.event@), row]
            &&& (k > 0 && s.phase == p.phase && s.wasm@ == p.wasm@ && s.event@ != p.event@)
                ==> report_block(ss, o, k) == seq![ReportLineView::Event(s.event@), row]
            &&& (k > 0 && s.phase == p.phase && s.wasm@ == p.wasm@ && s.event@ == p.event@)
                ==> report_block(ss, o, k) == seq![row]
        }),
{
    let s = ss[o[k] as int];
    let row = ReportLineView::Row(o[k]);
    let b = report_block(ss, o, k);
    if opens_phase(ss, o, k) {
        assert(b =~= seq![
            ReportLineView::Phase(s.phase),
            ReportLineView::Wasm(s.wasm@),
            ReportLineView::Event(s.event@),
            row,
        ]);
    } else if opens_wasm(ss, o, k) {
        assert(b =~= seq![ReportLineView::Wasm(s.wasm@), ReportLineView::Event(s.event@), row]);
    } else if opens_event(ss, o, k) {
        assert(b =~= seq![ReportLineView::Event(s.event@), row]);
    } else {
        assert(b =~= seq![row]);
    }
}

/// The lines for the first `n` summaries in report order.
pub open spec fn report_prefix(ss: Seq<Summary>, o: Seq<usize>, n: int) -> Seq<ReportLineView>
    decreases n,
{
    if n <= 0 {
        Seq::empty()
    } else {
        report_prefix(ss, o, n - 1) + report_block(ss, o, n - 1)
    }
}

/// The lines of the human-readable report of the summaries: sorted by
/// phase, benchmark file, event and engine, with a header line whenever the
/// phase, the benchmark file or the event changes.
pub fn report_lines(summaries: &Vec<Summary>) -> (r: Vec<ReportLine>)
    ensures
        exists|o: Seq<usize>|
            is_report_order(summaries@, o) && line_views(r@) == report_prefix(
                summaries@,
                o,
                o.len() as int,
            ),
{
    let order = report_order(summaries);
    let ghost ss = summaries@;
    let ghost o = order@;
    let mut r: Vec<ReportLine> = Vec::new();
    let mut k: usize = 0;
    assert(line_views(r@) =~= Seq::<ReportLineView>::empty());
    while k < order.len()
        invariant
            k <= order.len(),
            ss == summaries@,
            o == order@,
            is_report_order(ss, o),
            line_views(r@) == report_prefix(ss, o, k as int),
        decreases order.len() - k,
    {
        let s = &summaries[order[k]];
        let new_phase = k == 0 || s.phase != summaries[order[k - 1]].phase;
        let new_wasm = new_phase || s.wasm != summaries[order[k - 1]].wasm;
        let new_event = new_wasm || s.event != summaries[order[k - 1]].event;
        let ghost old_r = line_views(r@);
        if new_phase {
            r.push(ReportLine::Phase(s.phase));
        }
        if new_wasm {
            r.push(ReportLine::Wasm(s.wasm.clone()));
        }
        if new_event {
            r.push(ReportLine::Event(s.event.clone()));
        }
        r.push(ReportLine::Row(order[k]));
        assert(line_views(r@) =~= old_r + report_block(ss, o, k as int));
        k = k + 1;
    }
    r
}


/// The row positions among the lines, in order.
pub open spec fn rows_of(ls: Seq<ReportLineView>) -> Seq<usize>
    decreases ls.len(),
{
    if ls.len() == 0 {
        Seq::empty()
    } else {
        match ls.last() {
            ReportLineView::Row(i) => rows_of(ls.drop_last()).push(i),
            _ => rows_of(ls.drop_last()),
        }
    }
}

proof fn lemma_rows_of_concat(a: Seq<ReportLineView>, b: Seq<ReportLineView>)
    ensures
        rows_of(a + b) == rows_of(a) + rows_of(b),
    decreases b.len(),
{
    if b.len() == 0 {
        assert(a + b =~= a);
        assert(rows_of(a) + rows_of(b) =~= rows_of(a));
    } else {
        lemma_rows_of_concat(a, b.drop_last());
        assert((a + b).drop_last() =~= a + b.drop_last());
        assert((a + b).last() == b.last());
        match b.last() {
            ReportLineView::Row(i) => {
                assert(rows_of(a) + rows_of(b) =~= (rows_of(a) + rows_of(b.drop_last())).push(i));
            },
            _ => {},
        }
    }
}

proof fn lemma_rows_of_headers(h: Seq<ReportLineView>)
    requires
        forall|k: int| 0 <= k < h.len() ==> !(#[trigger] h[k] is Row),
    ensures
        rows_of(h) == Seq::<usize>::empty(),
    decreases h.len(),
{
    if h.len() > 0 {
        assert(!(h[h.len() - 1] is Row));
        let t = h.drop_last();
        assert forall|k: int| 0 <= k < t.len() implies !(#[trigger] t[k] is Row) by {
            assert(t[k] == h[k]);
        }
        lemma_rows_of_headers(t);
    }
}

/// Law: the rows of the report list the summaries in report order, each
/// exactly once (the order being a permutation of the positions).
pub proof fn lemma_report_rows(ss: Seq<Summary>, o: Seq<usize>, n: int)
    requires
        0 <= n <= o.len(),
    ensures
        rows_of(report_prefix(ss, o, n)) == o.take(n),
    decreases n,
{
    if n == 0 {
        assert(o.take(0) =~= Seq::<usize>::empty());
    } else {
        lemma_report_rows(ss, o, n - 1);
        let k = n - 1;
        let b = report_block(ss, o, k);
        let s = ss[o[k] as int];
        let h = (if opens_phase(ss, o, k) {
            seq![ReportLineView::Phase(s.phase)]
        } else {
            Seq::empty()
        }) + (if opens_wasm(ss, o, k) {
            seq![ReportLineView::Wasm(s.wasm@)]
        } else {
            Seq::empty()
        }) + (if opens_event(ss, o, k) {
            seq![ReportLineView::Event(s.event@)]
        } else {
            Seq::empty()
        });
        assert(b == h + seq![ReportLineView::Row(o[k])]);
        assert forall|q: int| 0 <= q < h.len() implies !(#[trigger] h[q] is Row) by {}
        lemma_rows_of_headers(h);
        lemma_rows_of_concat(h, seq![ReportLineView::Row(o[k])]);
        let one = seq![ReportLineView::Row(o[k])];
        assert(one.len() == 1);
        assert(one.last() == ReportLineView::Row(o[k]));
        assert(one.drop_last() =~= Seq::<ReportLineView>::empty());
        assert(rows_of(one.drop_last()) =~= Seq::<usize>::empty());
        assert(rows_of(one) =~= seq![o[k]]);
        lemma_rows_of_concat(report_prefix(ss, o, n - 1), b);
        assert(o.take(n) =~= o.take(n - 1).push(o[k]));
    }
}

} // verus!
