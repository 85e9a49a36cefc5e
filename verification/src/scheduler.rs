//! The scheduler's decisions: validating a topology DSL string, placing a
//! job on the cluster graph, and the GPU reservations of placed jobs.
//!
//! ```text
//! schedule(job) -> solver assigns gpu_ids -> reserved += gpu_ids
//!                                            jobs[job] = gpu_ids
//! release(job)  -> reserved -= jobs[job]
//!                  jobs.remove(job)
//! ```
//!
//! A placement that names a GPU some job already holds is refused, so no GPU
//! is ever held by two jobs.

use vstd::prelude::*;
use crate::checker::{check_errors, check_fits, counts_checkable, strs, type_check};
use crate::graph::{string_views, ClusterGraph};
use crate::parser::{parse, parse_spec};
use crate::solver::{placement, rejection, solve_on, PlacementResult};
use crate::text::{push_str, string_from_chars};

verus! {

/// The result of validating a DSL string.
pub struct ValidationResult {
    pub valid: bool,
    pub errors: Vec<String>,
}

/// `ss` joined with `sep` between consecutive items.
pub open spec fn joined(ss: Seq<Seq<char>>, sep: Seq<char>) -> Seq<char>
    decreases ss.len(),
{
    if ss.len() == 0 {
        Seq::empty()
    } else if ss.len() == 1 {
        ss[0]
    } else {
        joined(ss.drop_last(), sep) + sep + ss.last()
    }
}

/// `joined(strs(items), sep)` as a `String`.
pub fn join_strings(items: &Vec<String>, sep: &str) -> (s: String)
    ensures
        s@ == joined(strs(items@), sep@),
{
    let mut v: Vec<char> = Vec::new();
    let mut i: usize = 0;
    assert(strs(items@).take(0) =~= Seq::<Seq<char>>::empty());
    while i < items.len()
        invariant
            i <= items@.len(),
            v@ == joined(strs(items@).take(i as int), sep@),
        decreases items@.len() - i,
    {
        let ghost next = strs(items@).take(i + 1);
        assert(next.drop_last() =~= strs(items@).take(i as int));
        assert(next.last() == items@[i as int]@);
        if i > 0 {
            push_str(&mut v, sep);
        }
        push_str(&mut v, items[i].as_str());
        i = i + 1;
        assert(v@ =~= joined(next, sep@));
    }
    assert(strs(items@).take(items@.len() as int) =~= strs(items@));
    string_from_chars(&v)
}

/// Parse and type-check a DSL string without placing it: a parse error is
/// the only error of an invalid result; otherwise the type errors are
/// reported and the spec is valid when there are none.
pub fn validate(dsl: &str) -> (r: ValidationResult)
    requires
        parse_spec(dsl@) matches Ok(s) ==> check_fits(s),
    ensures
        match parse_spec(dsl@) {
            Err(e) => !r.valid && strs(r.errors@) == seq![e],
            Ok(s) => strs(r.errors@) == check_errors(s) && r.valid == (check_errors(s).len() == 0),
        },
{
    match parse(dsl) {
        Err(e) => {
            let mut errors: Vec<String> = Vec::new();
            errors.push(e);
            assert(strs(errors@) =~= seq![errors@[0]@]);
            ValidationResult { valid: false, errors }
        },
        Ok(spec) => {
            let errors = type_check(&spec);
            ValidationResult { valid: errors.len() == 0, errors }
        },
    }
}

/// `validate`, where the spec's GPU counts can be checked: `None` exactly
/// when `dsl` parses to a spec whose counts overflow `u32`.
pub fn validate_checked(dsl: &str) -> (r: Option<ValidationResult>)
    ensures
        r is None <==> (parse_spec(dsl@) matches Ok(s) && !check_fits(s)),
        r matches Some(v) ==> match parse_spec(dsl@) {
            Err(e) => !v.valid && strs(v.errors@) == seq![e],
            Ok(s) => strs(v.errors@) == check_errors(s) && v.valid == (check_errors(s).len() == 0),
        },
{
    if let Ok(spec) = parse(dsl) {
        if !counts_checkable(&spec) {
            return None;
        }
    }
    Some(validate(dsl))
}

pub open spec fn conflict_message() -> Seq<char> {
    "GPUs already reserved by a concurrent job"@
}

/// The job's GPUs in a list of (job id, gpu ids) entries.
pub open spec fn find_job(es: Seq<(Seq<char>, Seq<Seq<char>>)>, j: Seq<char>) -> Option<Seq<Seq<char>>> {
    if exists|i: int| 0 <= i < es.len() && (#[trigger] es[i]).0 == j {
        Some(es[choose|i: int| 0 <= i < es.len() && (#[trigger] es[i]).0 == j].1)
    } else {
        None
    }
}

/// GPU reservations of placed jobs.
pub struct Reservations {
    reserved: Vec<String>,
    jobs: Vec<(String, Vec<String>)>,
}

pub open spec fn entry_view(e: (String, Vec<String>)) -> (Seq<char>, Seq<Seq<char>>) {
    (e.0@, string_views(e.1@))
}

/// `new` is `old` with `ids`, none of them reserved in `old`, reserved for
/// job `j`, whose previous entry (if any) is replaced.
pub open spec fn reserved_for(old: Reservations, new: Reservations, j: Seq<char>, ids: Seq<Seq<char>>) -> bool {
    &&& forall|k: int| 0 <= k < ids.len() ==> !old.reserved_set().contains(#[trigger] ids[k])
    &&& new.reserved_set() == old.reserved_set() + ids.to_set()
    &&& new.job(j) == Some(ids)
    &&& forall|k: Seq<char>| k != j ==> #[trigger] new.job(k) == old.job(k)
}

/// `new` is `old` without job `j` and its GPUs.
pub open spec fn released(old: Reservations, new: Reservations, j: Seq<char>) -> bool {
    match old.job(j) {
        Some(g) => {
            &&& new.reserved_set() == old.reserved_set().difference(g.to_set())
            &&& new.job(j) is None
            &&& forall|k: Seq<char>| k != j ==> #[trigger] new.job(k) == old.job(k)
        },
        None => new == old,
    }
}

impl Reservations {
    /// The reserved gpu_ids, in the order they were reserved.
    pub closed spec fn reserved_seq(&self) -> Seq<Seq<char>> {
        string_views(self.reserved@)
    }

    /// The reserved gpu_ids.
    pub open spec fn reserved_set(&self) -> Set<Seq<char>> {
        self.reserved_seq().to_set()
    }

    /// The recorded (job id, gpu ids) entries.
    pub closed spec fn entries(&self) -> Seq<(Seq<char>, Seq<Seq<char>>)> {
        self.jobs@.map_values(|e: (String, Vec<String>)| entry_view(e))
    }

    /// The GPUs recorded for job `j`.
    pub open spec fn job(&self, j: Seq<char>) -> Option<Seq<Seq<char>>> {
        find_job(self.entries(), j)
    }

    /// Every GPU of a recorded job is reserved, and no GPU belongs to two
    /// recorded jobs.
    pub open spec fn allocation_ok(&self) -> bool {
        &&& forall|j: Seq<char>, x: Seq<char>| self.job(j) is Some && #[trigger] self.job(j).unwrap().contains(x)
            ==> self.reserved_set().contains(x)
        &&& forall|j: Seq<char>, k: Seq<char>, x: Seq<char>|
            j != k && self.job(j) is Some && self.job(k) is Some && #[trigger] self.job(j).unwrap().contains(x)
            ==> !#[trigger] self.job(k).unwrap().contains(x)
    }

    /// Internal consistency: no gpu_id reserved twice, no job recorded twice,
    /// and `allocation_ok`.
    pub open spec fn wf(&self) -> bool {
        &&& self.reserved_seq().no_duplicates()
        &&& forall|i: int, k: int| 0 <= i < k < self.entries().len()
            ==> (#[trigger] self.entries()[i]).0 != (#[trigger] self.entries()[k]).0
        &&& forall|i: int, x: Seq<char>| 0 <= i < self.entries().len() && #[trigger] self.entries()[i].1.contains(x)
            ==> self.reserved_set().contains(x)
        &&& forall|i: int, k: int, x: Seq<char>| 0 <= i < self.entries().len() && 0 <= k < self.entries().len() && i != k
            && #[trigger] self.entries()[i].1.contains(x) ==> !#[trigger] self.entries()[k].1.contains(x)
    }

    /// No reservations.
    pub fn new() -> (r: Self)
        ensures
            r.wf(),
            r.reserved_set() == Set::<Seq<char>>::empty(),
            forall|j: Seq<char>| r.job(j) is None,
    {
        let r = Reservations { reserved: Vec::new(), jobs: Vec::new() };
        assert(r.reserved_seq() =~= Seq::<Seq<char>>::empty());
        assert(r.reserved_set() =~= Set::<Seq<char>>::empty());
        r
    }
}

pub proof fn lemma_find_job(es: Seq<(Seq<char>, Seq<Seq<char>>)>, i: int)
    requires
        0 <= i < es.len(),
        forall|a: int, b: int| 0 <= a < b < es.len() ==> (#[trigger] es[a]).0 != (#[trigger] es[b]).0,
    ensures
        find_job(es, es[i].0) == Some(es[i].1),
{
    let k = choose|k: int| 0 <= k < es.len() && (#[trigger] es[k]).0 == es[i].0;
    if k < i {
        assert(es[k].0 != es[i].0);
    } else if i < k {
        assert(es[i].0 != es[k].0);
    }
}

pub proof fn lemma_find_job_same(e1: Seq<(Seq<char>, Seq<Seq<char>>)>, e2: Seq<(Seq<char>, Seq<Seq<char>>)>, j: Seq<char>)
    requires
        forall|a: int, b: int| 0 <= a < b < e1.len() ==> (#[trigger] e1[a]).0 != (#[trigger] e1[b]).0,
        forall|a: int, b: int| 0 <= a < b < e2.len() ==> (#[trigger] e2[a]).0 != (#[trigger] e2[b]).0,
        forall|a: int| 0 <= a < e1.len() && (#[trigger] e1[a]).0 == j ==> e2.contains(e1[a]),
        forall|b: int| 0 <= b < e2.len() && (#[trigger] e2[b]).0 == j ==> e1.contains(e2[b]),
    ensures
        find_job(e1, j) == find_job(e2, j),
{
    if exists|a: int| 0 <= a < e1.len() && (#[trigger] e1[a]).0 == j {
        let a = choose|a: int| 0 <= a < e1.len() && (#[trigger] e1[a]).0 == j;
        assert(e2.contains(e1[a]));
        let b = choose|b: int| 0 <= b < e2.len() && e2[b] == e1[a];
        lemma_find_job(e1, a);
        lemma_find_job(e2, b);
    } else if exists|b: int| 0 <= b < e2.len() && (#[trigger] e2[b]).0 == j {
        let b = choose|b: int| 0 <= b < e2.len() && (#[trigger] e2[b]).0 == j;
        assert(e1.contains(e2[b]));
        let a = choose|a: int| 0 <= a < e1.len() && e1[a] == e2[b];
        assert(e1[a].0 == j);
    }
}

pub proof fn lemma_push_to_set<A>(s: Seq<A>, x: A)
    ensures
        s.push(x).to_set() == s.to_set().insert(x),
{
    assert forall|y: A| #[trigger] s.push(x).to_set().contains(y) == s.to_set().insert(x).contains(y) by {
        if s.push(x).contains(y) && y != x {
            let i = choose|i: int| 0 <= i < s.push(x).len() && s.push(x)[i] == y;
            assert(s[i] == y);
        }
        if s.contains(y) {
            let i = choose|i: int| 0 <= i < s.len() && s[i] == y;
            assert(s.push(x)[i] == y);
        }
        if y == x {
            assert(s.push(x)[s.len() as int] == x);
        }
    }
    assert(s.push(x).to_set() =~= s.to_set().insert(x));
}

fn copy_strings(v: &Vec<String>) -> (r: Vec<String>)
    ensures
        r@ == v@,
{
    let mut r: Vec<String> = Vec::new();
    let mut i: usize = 0;
    while i < v.len()
        invariant
            i <= v@.len(),
            r@ == v@.take(i as int),
        decreases v@.len() - i,
    {
        r.push(v[i].clone());
        assert(r@ =~= v@.take(i + 1));
        i = i + 1;
    }
    assert(v@.take(v@.len() as int) =~= v@);
    r
}

/// Whether `id` is in `v`.
fn holds(v: &Vec<String>, id: &String) -> (b: bool)
    ensures
        b == string_views(v@).contains(id@),
{
    let mut i: usize = 0;
    while i < v.len()
        invariant
            i <= v@.len(),
            forall|k: int| 0 <= k < i ==> (#[trigger] v@[k])@ != id@,
        decreases v@.len() - i,
    {
        if v[i] == *id {
            assert(string_views(v@)[i as int] == id@);
            return true;
        }
        i = i + 1;
    }
    assert(!string_views(v@).contains(id@)) by {
        if string_views(v@).contains(id@) {
            let k = choose|k: int| 0 <= k < string_views(v@).len() && string_views(v@)[k] == id@;
            assert(v@[k]@ == id@);
        }
    }
    false
}

impl Reservations {
    proof fn lemma_wf_allocation_ok(&self)
        requires
            self.wf(),
        ensures
            self.allocation_ok(),
    {
        let es = self.entries();
        assert forall|j: Seq<char>, x: Seq<char>| self.job(j) is Some && #[trigger] self.job(j).unwrap().contains(x)
            implies self.reserved_set().contains(x) by {
            let i = choose|i: int| 0 <= i < es.len() && (#[trigger] es[i]).0 == j;
            assert(es[i].1.contains(x));
        }
        assert forall|j: Seq<char>, k: Seq<char>, x: Seq<char>|
            j != k && self.job(j) is Some && self.job(k) is Some && #[trigger] self.job(j).unwrap().contains(x)
            implies !#[trigger] self.job(k).unwrap().contains(x) by {
            let a = choose|i: int| 0 <= i < es.len() && (#[trigger] es[i]).0 == j;
            let b = choose|i: int| 0 <= i < es.len() && (#[trigger] es[i]).0 == k;
            assert(es[a].1.contains(x));
            assert(a != b);
        }
    }

    fn find_entry(&self, job_id: &str) -> (r: Option<usize>)
        ensures
            match r {
                Some(i) => i < self.entries().len() && self.entries()[i as int].0 == job_id@,
                None => forall|i: int| 0 <= i < self.entries().len() ==> (#[trigger] self.entries()[i]).0 != job_id@,
            },
    {
        let key = String::from_str(job_id);
        let mut i: usize = 0;
        while i < self.jobs.len()
            invariant
                i <= self.jobs@.len(),
                key@ == job_id@,
                forall|k: int| 0 <= k < i ==> (#[trigger] self.entries()[k]).0 != job_id@,
            decreases self.jobs@.len() - i,
        {
            assert(self.entries()[i as int] == entry_view(self.jobs@[i as int]));
            if self.jobs[i].0 == key {
                return Some(i);
            }
            i = i + 1;
        }
        None
    }

    /// Whether some of `ids` is reserved.
    fn any_reserved(&self, ids: &Vec<String>) -> (b: bool)
        ensures
            b == exists|k: int| 0 <= k < ids@.len() && self.reserved_set().contains((#[trigger] ids@[k])@),
    {
        let mut k: usize = 0;
        while k < ids.len()
            invariant
                k <= ids@.len(),
                forall|m: int| 0 <= m < k ==> !self.reserved_set().contains((#[trigger] ids@[m])@),
            decreases ids@.len() - k,
        {
            if holds(&self.reserved, &ids[k]) {
                return true;
            }
            k = k + 1;
        }
        false
    }

    /// Reserve `ids` for `job_id`, replacing the job's previous entry.
    fn reserve(&mut self, job_id: &str, ids: &Vec<String>)
        requires
            old(self).wf(),
            forall|k: int| 0 <= k < ids@.len() ==> !old(self).reserved_set().contains((#[trigger] ids@[k])@),
        ensures
            final(self).wf(),
            reserved_for(*old(self), *final(self), job_id@, string_views(ids@)),
    {
        let ghost old_set = self.reserved_set();
        let mut k: usize = 0;
        while k < ids.len()
            invariant
                k <= ids@.len(),
                self.jobs@ == old(self).jobs@,
                self.reserved_seq().no_duplicates(),
                self.reserved_set() == old_set + string_views(ids@.take(k as int)).to_set(),
                old_set == old(self).reserved_set(),
            decreases ids@.len() - k,
        {
            let ghost before = self.reserved_seq();
            if !holds(&self.reserved, &ids[k]) {
                self.reserved.push(ids[k].clone());
                assert(self.reserved_seq() =~= before.push(ids@[k as int]@));
                assert(self.reserved_seq().no_duplicates()) by {
                    assert forall|a: int, b: int| 0 <= a < self.reserved_seq().len() && 0 <= b < self.reserved_seq().len() && a != b
                        implies self.reserved_seq()[a] != self.reserved_seq()[b] by {
                        if a == before.len() as int {
                            assert(!before.contains(ids@[k as int]@));
                            assert(before[b] == self.reserved_seq()[b]);
                        } else if b == before.len() as int {
                            assert(!before.contains(ids@[k as int]@));
                            assert(before[a] == self.reserved_seq()[a]);
                        }
                    }
                }
            }
            proof {
                let x = ids@[k as int]@;
                assert(string_views(ids@.take(k + 1)) =~= string_views(ids@.take(k as int)).push(x));
                lemma_push_to_set(string_views(ids@.take(k as int)), x);
                if self.reserved_seq() == before {
                    assert(before.contains(x));
                    assert(self.reserved_set() =~= self.reserved_set().insert(x));
                } else {
                    lemma_push_to_set(before, x);
                }
                assert(self.reserved_set() =~= old_set + string_views(ids@.take(k + 1)).to_set());
            }
            k = k + 1;
        }
        assert(ids@.take(ids@.len() as int) =~= ids@);
        let ghost mid = self.entries();
        match self.find_entry(job_id) {
            Some(i) => {
                let _ = self.jobs.remove(i);
                assert(self.entries() =~= mid.remove(i as int));
            },
            None => {},
        }
        let ghost kept = self.entries();
        assert(kept == mid || exists|i: int| 0 <= i < mid.len() && kept == mid.remove(i) && mid[i].0 == job_id@);
        assert(kept.len() == mid.len() ==> kept == mid);
        assert(kept.len() < mid.len() ==> exists|i: int| 0 <= i < mid.len() && kept == mid.remove(i) && mid[i].0 == job_id@);
        assert(forall|a: int| 0 <= a < kept.len() ==> (#[trigger] kept[a]).0 != job_id@) by {
            if kept.len() < mid.len() {
                let i = choose|i: int| 0 <= i < mid.len() && kept == mid.remove(i) && mid[i].0 == job_id@;
                assert forall|a: int| 0 <= a < kept.len() implies (#[trigger] kept[a]).0 != job_id@ by {
                    if a < i {
                        assert(kept[a] == mid[a]);
                        assert(mid[a].0 != mid[i].0);
                    } else {
                        assert(kept[a] == mid[a + 1]);
                        assert(mid[i].0 != mid[a + 1].0);
                    }
                }
            }
        }
        let entry = (String::from_str(job_id), copy_strings(ids));
        self.jobs.push(entry);
        proof {
            let es = self.entries();
            let new_e = (job_id@, string_views(ids@));
            assert(es =~= kept.push(new_e));
            assert forall|a: int, b: int| 0 <= a < b < es.len() implies (#[trigger] es[a]).0 != (#[trigger] es[b]).0 by {
                if b == kept.len() as int {
                    assert(kept[a].0 != job_id@);
                }
            }
            assert forall|a: int, x: Seq<char>| 0 <= a < es.len() && #[trigger] es[a].1.contains(x)
                implies self.reserved_set().contains(x) by {
                if a == kept.len() as int {
                    let m = choose|m: int| 0 <= m < string_views(ids@).len() && string_views(ids@)[m] == x;
                    assert(string_views(ids@).to_set().contains(x));
                }
            }
            assert forall|a: int, b: int, x: Seq<char>| 0 <= a < es.len() && 0 <= b < es.len() && a != b
                && #[trigger] es[a].1.contains(x) implies !#[trigger] es[b].1.contains(x) by {
                if a == kept.len() as int {
                    let m = choose|m: int| 0 <= m < string_views(ids@).len() && string_views(ids@)[m] == x;
                    assert(!old_set.contains(ids@[m]@));
                } else if b == kept.len() as int {
                    if es[b].1.contains(x) {
                        let m = choose|m: int| 0 <= m < string_views(ids@).len() && string_views(ids@)[m] == x;
                        assert(!old_set.contains(ids@[m]@));
                    }
                }
            }
            lemma_find_job(es, kept.len() as int);
            let oe = old(self).entries();
            assert(mid == oe);
            assert forall|a: int| 0 <= a < kept.len() implies #[trigger] oe.contains(kept[a]) by {
                if kept.len() < oe.len() {
                    let i = choose|i: int| 0 <= i < oe.len() && kept == oe.remove(i);
                    if a < i {
                        assert(kept[a] == oe[a]);
                    } else {
                        assert(kept[a] == oe[a + 1]);
                    }
                } else {
                    assert(kept[a] == oe[a]);
                }
            }
            assert forall|j: Seq<char>| j != job_id@ implies #[trigger] self.job(j) == old(self).job(j) by {
                assert forall|a: int| 0 <= a < oe.len() && (#[trigger] oe[a]).0 == j implies es.contains(oe[a]) by {
                    if kept.len() < oe.len() {
                        let i = choose|i: int| 0 <= i < mid.len() && kept == mid.remove(i) && mid[i].0 == job_id@;
                        if a < i {
                            assert(es[a] == oe[a]);
                        } else if a > i {
                            assert(es[a - 1] == oe[a]);
                        }
                    } else {
                        assert(es[a] == oe[a]);
                    }
                }
                assert forall|b: int| 0 <= b < es.len() && (#[trigger] es[b]).0 == j implies oe.contains(es[b]) by {
                    assert(b < kept.len());
                    assert(es[b] == kept[b]);
                }
                lemma_find_job_same(es, oe, j);
            }
        }
    }

    /// Release the GPUs of `job_id`. Releasing a job that holds nothing is a
    /// no-op.
    pub fn release(&mut self, job_id: &str)
        requires
            old(self).wf(),
        ensures
            final(self).wf(),
            released(*old(self), *final(self), job_id@),
    {
        let ghost oe = self.entries();
        match self.find_entry(job_id) {
            None => {
                assert(old(self).job(job_id@) is None);
            },
            Some(i) => {
                proof {
                    lemma_find_job(oe, i as int);
                }
                let (_, gpus) = self.jobs.remove(i);
                let ghost g = string_views(gpus@);
                assert(g == oe[i as int].1);
                let ghost rs = self.reserved_seq();
                let mut kept: Vec<String> = Vec::new();
                let mut k: usize = 0;
                assert(rs.take(0).to_set() =~= Set::<Seq<char>>::empty());
                assert(string_views(kept@) =~= Seq::<Seq<char>>::empty());
                while k < self.reserved.len()
                    invariant
                        k <= self.reserved@.len(),
                        rs == string_views(self.reserved@),
                        rs.no_duplicates(),
                        g == string_views(gpus@),
                        string_views(kept@).no_duplicates(),
                        string_views(kept@).to_set() == rs.take(k as int).to_set().difference(g.to_set()),
                        forall|m: int| 0 <= m < kept@.len() ==> rs.take(k as int).contains(#[trigger] string_views(kept@)[m]),
                    decreases self.reserved@.len() - k,
                {
                    let ghost before = string_views(kept@);
                    let x = &self.reserved[k];
                    assert(rs[k as int] == x@);
                    assert(rs.take(k + 1) =~= rs.take(k as int).push(x@));
                    proof {
                        lemma_push_to_set(rs.take(k as int), x@);
                    }
                    if !holds(&gpus, x) {
                        kept.push(x.clone());
                        proof {
                            assert(string_views(kept@) =~= before.push(x@));
                            lemma_push_to_set(before, x@);
                            assert(!rs.take(k as int).contains(x@)) by {
                                if rs.take(k as int).contains(x@) {
                                    let m = choose|m: int| 0 <= m < k && rs.take(k as int)[m] == x@;
                                    assert(rs[m] == rs[k as int]);
                                }
                            }
                            assert(!before.contains(x@)) by {
                                if before.contains(x@) {
                                    let m = choose|m: int| 0 <= m < before.len() && before[m] == x@;
                                    assert(rs.take(k as int).contains(before[m]));
                                }
                            }
                            assert forall|a: int, b: int| 0 <= a < string_views(kept@).len() && 0 <= b < string_views(kept@).len() && a != b
                                implies string_views(kept@)[a] != string_views(kept@)[b] by {
                                if a == before.len() as int {
                                    assert(before[b] == string_views(kept@)[b]);
                                } else if b == before.len() as int {
                                    assert(before[a] == string_views(kept@)[a]);
                                }
                            }
                            assert(string_views(kept@).to_set() =~= rs.take(k + 1).to_set().difference(g.to_set()));
                            assert forall|m: int| 0 <= m < kept@.len() implies rs.take(k + 1).contains(#[trigger] string_views(kept@)[m]) by {
                                if m < before.len() {
                                    assert(string_views(kept@)[m] == before[m]);
                                    let q = choose|q: int| 0 <= q < k && rs.take(k as int)[q] == before[m];
                                    assert(rs.take(k + 1)[q] == before[m]);
                                } else {
                                    assert(rs.take(k + 1)[k as int] == x@);
                                }
                            }
                        }
                    } else {
                        proof {
                            assert(string_views(kept@).to_set() =~= rs.take(k + 1).to_set().difference(g.to_set()));
                            assert forall|m: int| 0 <= m < kept@.len() implies rs.take(k + 1).contains(#[trigger] string_views(kept@)[m]) by {
                                let q = choose|q: int| 0 <= q < k && rs.take(k as int)[q] == string_views(kept@)[m];
                                assert(rs.take(k + 1)[q] == string_views(kept@)[m]);
                            }
                        }
                    }
                    k = k + 1;
                }
                assert(rs.take(rs.len() as int) =~= rs);
                self.reserved = kept;
                proof {
                    let es = self.entries();
                    assert(es =~= oe.remove(i as int));
                    assert forall|a: int, b: int| 0 <= a < b < es.len() implies (#[trigger] es[a]).0 != (#[trigger] es[b]).0 by {
                        let a2 = if a < i { a } else { a + 1 };
                        let b2 = if b < i { b } else { b + 1 };
                        assert(es[a] == oe[a2] && es[b] == oe[b2]);
                    }
                    assert forall|a: int, x: Seq<char>| 0 <= a < es.len() && #[trigger] es[a].1.contains(x)
                        implies self.reserved_set().contains(x) by {
                        let a2 = if a < i { a } else { a + 1 };
                        assert(es[a] == oe[a2]);
                        assert(oe[a2].1.contains(x));
                        assert(old(self).reserved_set().contains(x));
                        assert(!oe[i as int].1.contains(x));
                        assert(!g.to_set().contains(x));
                    }
                    assert forall|a: int, b: int, x: Seq<char>| 0 <= a < es.len() && 0 <= b < es.len() && a != b
                        && #[trigger] es[a].1.contains(x) implies !#[trigger] es[b].1.contains(x) by {
                        let a2 = if a < i { a } else { a + 1 };
                        let b2 = if b < i { b } else { b + 1 };
                        assert(es[a] == oe[a2] && es[b] == oe[b2]);
                        assert(oe[a2].1.contains(x));
                    }
                    assert(self.reserved_set() =~= old(self).reserved_set().difference(g.to_set()));
                    assert forall|a: int| 0 <= a < es.len() implies (#[trigger] es[a]).0 != job_id@ by {
                        let a2 = if a < i { a } else { a + 1 };
                        assert(es[a] == oe[a2]);
                        if a2 < i {
                            assert(oe[a2].0 != oe[i as int].0);
                        } else {
                            assert(oe[i as int].0 != oe[a2].0);
                        }
                    }
                    assert(self.job(job_id@) is None);
                    assert forall|j: Seq<char>| j != job_id@ implies #[trigger] self.job(j) == old(self).job(j) by {
                        assert forall|a: int| 0 <= a < oe.len() && (#[trigger] oe[a]).0 == j implies es.contains(oe[a]) by {
                            if a < i {
                                assert(es[a] == oe[a]);
                            } else if a > i {
                                assert(es[a - 1] == oe[a]);
                            }
                        }
                        assert forall|b: int| 0 <= b < es.len() && (#[trigger] es[b]).0 == j implies oe.contains(es[b]) by {
                            let b2 = if b < i { b } else { b + 1 };
                            assert(es[b] == oe[b2]);
                        }
                        lemma_find_job_same(es, oe, j);
                    }
                }
            },
        }
    }

    /// Place the job described by `dsl`: parse (a parse error is returned as
    /// `Err`), type-check (type errors reject the job, joined by `"; "`),
    /// solve on `graph`, and reserve the placed GPUs for `job_id` unless one
    /// of them is already reserved. Only a reservation changes `self`.
    pub fn schedule(&mut self, graph: &ClusterGraph, job_id: &str, dsl: &str) -> (r: Result<PlacementResult, String>)
        requires
            old(self).wf(),
            parse_spec(dsl@) matches Ok(s) ==> check_fits(s),
        ensures
            final(self).wf(),
            match parse_spec(dsl@) {
                Err(e) => r matches Err(m) && m@ == e && *final(self) == *old(self),
                Ok(s) => r matches Ok(p) && if check_errors(s).len() > 0 {
                    &&& p@ == rejection(joined(check_errors(s), "; "@))
                    &&& *final(self) == *old(self)
                } else {
                    let out = placement(graph@, s);
                    if !out.0 {
                        &&& p@ == out
                        &&& *final(self) == *old(self)
                    } else if exists|k: int| 0 <= k < out.1.len() && old(self).reserved_set().contains(#[trigger] out.1[k]) {
                        &&& p@ == rejection(conflict_message())
                        &&& *final(self) == *old(self)
                    } else {
                        &&& p@ == out
                        &&& reserved_for(*old(self), *final(self), job_id@, out.1)
                    }
                },
            },
    {
        let spec = match parse(dsl) {
            Ok(s) => s,
            Err(e) => return Err(e),
        };
        let errors = type_check(&spec);
        if errors.len() > 0 {
            let reason = join_strings(&errors, "; ");
            let p = PlacementResult::rejected(reason.as_str());
            assert(string_views(p.gpu_ids@) =~= Seq::<Seq<char>>::empty());
            return Ok(p);
        }
        let result = solve_on(graph, &spec);
        let ghost out = result@;
        if result.placed {
            assert(string_views(result.gpu_ids@) == out.1);
            if self.any_reserved(&result.gpu_ids) {
                let s = String::from_str("GPUs already reserved by a concurrent job");
                proof {
                    reveal_strlit("GPUs already reserved by a concurrent job");
                }
                let p = PlacementResult::rejected(s.as_str());
                assert(string_views(p.gpu_ids@) =~= Seq::<Seq<char>>::empty());
                proof {
                    let k = choose|k: int| 0 <= k < result.gpu_ids@.len() && self.reserved_set().contains((#[trigger] result.gpu_ids@[k])@);
                    assert(out.1[k] == result.gpu_ids@[k]@);
                }
                return Ok(p);
            }
            proof {
                assert(!exists|k: int| 0 <= k < out.1.len() && old(self).reserved_set().contains(#[trigger] out.1[k])) by {
                    if exists|k: int| 0 <= k < out.1.len() && old(self).reserved_set().contains(#[trigger] out.1[k]) {
                        let k = choose|k: int| 0 <= k < out.1.len() && old(self).reserved_set().contains(#[trigger] out.1[k]);
                        assert(out.1[k] == result.gpu_ids@[k]@);
                    }
                }
            }
            self.reserve(job_id, &result.gpu_ids);
        }
        Ok(result)
    }

    /// `schedule`, where the spec's GPU counts can be checked: `None`, and
    /// `self` unchanged, exactly when `dsl` parses to a spec whose counts
    /// overflow `u32`; otherwise what `schedule` gives.
    pub fn schedule_checked(&mut self, graph: &ClusterGraph, job_id: &str, dsl: &str) -> (r: Option<Result<PlacementResult, String>>)
        requires
            old(self).wf(),
        ensures
            final(self).wf(),
            r is None <==> (parse_spec(dsl@) matches Ok(s) && !check_fits(s)),
            r is None ==> *final(self) == *old(self),
            r matches Some(res) ==> match parse_spec(dsl@) {
                Err(e) => res matches Err(m) && m@ == e && *final(self) == *old(self),
                Ok(s) => res matches Ok(p) && if check_errors(s).len() > 0 {
                    &&& p@ == rejection(joined(check_errors(s), "; "@))
                    &&& *final(self) == *old(self)
                } else {
                    let out = placement(graph@, s);
                    if !out.0 {
                        &&& p@ == out
                        &&& *final(self) == *old(self)
                    } else if exists|k: int| 0 <= k < out.1.len() && old(self).reserved_set().contains(#[trigger] out.1[k]) {
                        &&& p@ == rejection(conflict_message())
                        &&& *final(self) == *old(self)
                    } else {
                        &&& p@ == out
                        &&& reserved_for(*old(self), *final(self), job_id@, out.1)
                    }
                },
            },
    {
        if let Ok(spec) = parse(dsl) {
            if !counts_checkable(&spec) {
                return None;
            }
        }
        Some(self.schedule(graph, job_id, dsl))
    }
}

/// Releasing a job right after it was scheduled, when it held nothing
/// before, gives back exactly the reservations there were before.
pub proof fn lemma_release_undoes_schedule(
    before: Reservations,
    placed: Reservations,
    after: Reservations,
    j: Seq<char>,
    ids: Seq<Seq<char>>,
)
    requires
        before.job(j) is None,
        reserved_for(before, placed, j, ids),
        released(placed, after, j),
    ensures
        after.reserved_set() == before.reserved_set(),
        forall|k: Seq<char>| #[trigger] after.job(k) == before.job(k),
{
    assert forall|x: Seq<char>| #[trigger] after.reserved_set().contains(x) == before.reserved_set().contains(x) by {
        if ids.contains(x) {
            let k = choose|k: int| 0 <= k < ids.len() && ids[k] == x;
            assert(!before.reserved_set().contains(ids[k]));
            assert(ids.to_set().contains(x));
        } else {
            assert(!ids.to_set().contains(x));
        }
    }
    assert(after.reserved_set() =~= before.reserved_set());
    assert forall|k: Seq<char>| #[trigger] after.job(k) == before.job(k) by {
        if k != j {
            assert(after.job(k) == placed.job(k));
        }
    }
}

/// Every state reached from `new` by `schedule` and `release` keeps
/// `allocation_ok`: each reserved GPU belongs to at most one job.
pub proof fn lemma_no_double_allocation(r: Reservations)
    requires
        r.wf(),
    ensures
        r.allocation_ok(),
{
    r.lemma_wf_allocation_ok();
}

/// Releasing is idempotent: releasing a job again changes nothing.
pub proof fn lemma_release_idempotent(a: Reservations, b: Reservations, c: Reservations, j: Seq<char>)
    requires
        released(a, b, j),
        released(b, c, j),
    ensures
        c == b,
{
}

} // verus!
