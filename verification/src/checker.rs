//! Type checker for topology specifications.
//!
//! Rules:
//! 1. A TP degree must be a power of 2.
//! 2. A TP degree with an NVL constraint must not exceed 8 (one NVSwitch domain).
//! 3. Conjunctions are checked arm by arm.
//! 4. All alternatives of a disjunction must have the same `gpu_count`.

use vstd::prelude::*;
use crate::parser::{
    counts_fit, lemma_topo_views_index, lemma_topo_views_len, spec_gpu_count,
    topo_views, Constraint, ParallelDim, TopoView, TopologySpec,
};
use crate::text::{dec, push_decimal, push_str, string_from_chars};

verus! {

/// `n` is 1, or an even number whose half is a power of 2.
pub open spec fn is_power_of_two(n: nat) -> bool
    decreases n,
{
    if n == 1 {
        true
    } else if n == 0 || n % 2 == 1 {
        false
    } else {
        is_power_of_two(n / 2)
    }
}

/// Some constraint is an NVLink bandwidth minimum.
pub open spec fn has_nvl(cs: Seq<Constraint>) -> bool {
    exists|i: int| 0 <= i < cs.len() && (#[trigger] cs[i]) is NvlMin
}

pub open spec fn pow2_message(n: u32) -> Seq<char> {
    "TP degree "@ + dec(n as nat) + " must be a power of 2 (e.g. 1, 2, 4, 8, 16 …)"@
}

pub open spec fn nvl_max_message(n: u32) -> Seq<char> {
    "TP"@ + dec(n as nat) + " with NVLink constraint exceeds NVLink mesh maximum of 8 GPUs per NVSwitch domain"@
}

/// The errors rules 1 and 2 report for an atom.
pub open spec fn atom_errors(d: ParallelDim, cs: Seq<Constraint>) -> Seq<Seq<char>> {
    match d {
        ParallelDim::Tp(n) => {
            let e1: Seq<Seq<char>> = if !is_power_of_two(n as nat) { seq![pow2_message(n)] } else { Seq::empty() };
            let e2: Seq<Seq<char>> = if has_nvl(cs) && n > 8 { seq![nvl_max_message(n)] } else { Seq::empty() };
            e1 + e2
        },
        _ => Seq::empty(),
    }
}

/// The items of `counts` rendered and separated by `", "`.
pub open spec fn counts_debug_body(counts: Seq<nat>) -> Seq<char>
    decreases counts.len(),
{
    if counts.len() == 0 {
        Seq::empty()
    } else if counts.len() == 1 {
        dec(counts[0])
    } else {
        counts_debug_body(counts.drop_last()) + ", "@ + dec(counts.last())
    }
}

/// The rule-4 message for the alternatives' counts, e.g. `... gpu_count: [8, 4]`.
pub open spec fn mismatch_message(counts: Seq<nat>) -> Seq<char> {
    "disjunction alternatives have mismatched gpu_count: "@ + "["@ + counts_debug_body(counts) + "]"@
}

/// Two neighbouring alternatives have different GPU counts.
pub open spec fn counts_mismatch(counts: Seq<nat>) -> bool {
    exists|i: int| 0 <= i < counts.len() - 1 && #[trigger] counts[i] != counts[i + 1]
}

pub open spec fn alt_counts(alts: Seq<TopoView>) -> Seq<nat> {
    Seq::new(alts.len(), |i: int| spec_gpu_count(alts[i]))
}

/// All error messages for `s`, in the order the rules report them: an atom's
/// rule-1 then rule-2 errors; a conjunction's left then right errors; a
/// disjunction's alternatives' errors in order, then its rule-4 error.
pub open spec fn check_errors(s: TopoView) -> Seq<Seq<char>>
    decreases s, 0nat,
{
    match s {
        TopoView::Atom(d, cs) => atom_errors(d, cs),
        TopoView::Conjunction(l, r) => check_errors(*l) + check_errors(*r),
        TopoView::Disjunction(alts) => {
            let m: Seq<Seq<char>> = if counts_mismatch(alt_counts(alts)) {
                seq![mismatch_message(alt_counts(alts))]
            } else {
                Seq::empty()
            };
            alts_errors(alts) + m
        },
    }
}

/// The errors of each alternative, concatenated in order.
pub open spec fn alts_errors(alts: Seq<TopoView>) -> Seq<Seq<char>>
    decreases alts, 1nat,
{
    if alts.len() == 0 {
        Seq::empty()
    } else {
        alts_errors(alts.drop_last()) + check_errors(alts.last())
    }
}

/// `counts_fit` holds for every alternative of every disjunction in `s`, so
/// that rule 4 can compute all the alternatives' GPU counts.
pub open spec fn check_fits(s: TopoView) -> bool
    decreases s, 0nat,
{
    match s {
        TopoView::Atom(_, _) => true,
        TopoView::Conjunction(l, r) => check_fits(*l) && check_fits(*r),
        TopoView::Disjunction(alts) => alts_fit(alts),
    }
}

pub open spec fn alts_fit(alts: Seq<TopoView>) -> bool
    decreases alts, 1nat,
{
    if alts.len() == 0 {
        true
    } else {
        alts_fit(alts.drop_last()) && counts_fit(alts.last()) && check_fits(alts.last())
    }
}

pub proof fn lemma_alts_fit(alts: Seq<TopoView>, i: int)
    requires
        alts_fit(alts),
        0 <= i < alts.len(),
    ensures
        counts_fit(alts[i]),
        check_fits(alts[i]),
    decreases alts.len(),
{
    if i < alts.len() - 1 {
        lemma_alts_fit(alts.drop_last(), i);
    }
}

/// The message strings of `v`.
pub open spec fn strs(v: Seq<String>) -> Seq<Seq<char>> {
    v.map_values(|e: String| e@)
}

proof fn lemma_pow2_bits(n: u32)
    ensures
        (n != 0 && n & ((n - 1) as u32) == 0) == is_power_of_two(n as nat),
    decreases n,
{
    if n == 0 {
    } else if n == 1 {
        assert(1u32 & 0u32 == 0u32) by (bit_vector);
    } else if n % 2 == 1 {
        assert(n % 2 == 1 && n > 1 ==> n & ((n - 1) as u32) != 0) by (bit_vector);
    } else {
        let h = n / 2;
        assert(n % 2 == 0 && n > 1 ==> ((n & ((n - 1) as u32)) == 0) == (((n / 2) & ((n / 2 - 1) as u32)) == 0)) by (bit_vector);
        lemma_pow2_bits(h);
    }
}

fn push_str_message(errors: &mut Vec<String>, v: &Vec<char>)
    ensures
        strs(final(errors)@) == strs(old(errors)@).push(v@),
{
    let s = string_from_chars(v);
    errors.push(s);
    assert(strs(errors@) =~= strs(old(errors)@).push(v@));
}

fn check_atom(dim: &ParallelDim, constraints: &Vec<Constraint>, errors: &mut Vec<String>)
    ensures
        strs(final(errors)@) == strs(old(errors)@) + atom_errors(*dim, constraints@),
{
    let ghost e0 = strs(errors@);
    if let ParallelDim::Tp(n) = dim {
        let n = *n;
        proof {
            lemma_pow2_bits(n);
        }
        if n == 0 || (n & (n - 1)) != 0 {
            let mut v: Vec<char> = Vec::new();
            push_str(&mut v, "TP degree ");
            push_decimal(&mut v, n as u64);
            push_str(&mut v, " must be a power of 2 (e.g. 1, 2, 4, 8, 16 …)");
            assert(v@ =~= pow2_message(n));
            push_str_message(errors, &v);
        }
        let ghost e1 = strs(errors@);
        let mut has = false;
        let mut i: usize = 0;
        while i < constraints.len()
            invariant
                i <= constraints@.len(),
                has == exists|j: int| 0 <= j < i && (#[trigger] constraints@[j]) is NvlMin,
            decreases constraints@.len() - i,
        {
            if let Constraint::NvlMin(_) = constraints[i] {
                has = true;
            }
            i = i + 1;
        }
        if has && n > 8 {
            let mut v: Vec<char> = Vec::new();
            push_str(&mut v, "TP");
            push_decimal(&mut v, n as u64);
            push_str(&mut v, " with NVLink constraint exceeds NVLink mesh maximum of 8 GPUs per NVSwitch domain");
            assert(v@ =~= nvl_max_message(n));
            push_str_message(errors, &v);
        }
        assert(strs(errors@) =~= e0 + atom_errors(*dim, constraints@));
    } else {
        assert(strs(errors@) =~= e0 + atom_errors(*dim, constraints@));
    }
}

#[verifier::loop_isolation(false)]
fn check(spec: &TopologySpec, errors: &mut Vec<String>)
    requires
        check_fits(spec@),
    ensures
        strs(final(errors)@) == strs(old(errors)@) + check_errors(spec@),
    decreases spec,
{
    let ghost e0 = strs(errors@);
    match spec {
        TopologySpec::Atom(dim, constraints) => check_atom(dim, constraints, errors),
        TopologySpec::Conjunction(l, r) => {
            check(l, errors);
            check(r, errors);
            assert(strs(errors@) =~= e0 + check_errors(spec@));
        },
        TopologySpec::Disjunction(alts) => {
            let ghost views = topo_views(alts@);
            proof {
                lemma_topo_views_len(alts@);
            }
            let mut i: usize = 0;
            while i < alts.len()
                invariant
                    views == topo_views(alts@),
                    views.len() == alts@.len(),
                    alts_fit(views),
                    i <= alts@.len(),
                    strs(errors@) == e0 + alts_errors(views.take(i as int)),
                decreases alts@.len() - i,
            {
                proof {
                    lemma_topo_views_index(alts@, i as int);
                    lemma_alts_fit(views, i as int);
                    assert(views.take(i + 1).drop_last() =~= views.take(i as int));
                }
                check(&alts[i], errors);
                i = i + 1;
            }
            assert(views.take(alts@.len() as int) =~= views);
            let mut counts: Vec<u32> = Vec::new();
            let mut j: usize = 0;
            while j < alts.len()
                invariant
                    views == topo_views(alts@),
                    views.len() == alts@.len(),
                    alts_fit(views),
                    j <= alts@.len(),
                    counts@.len() == j,
                    forall|k: int| 0 <= k < j ==> counts@[k] == spec_gpu_count(#[trigger] views[k]),
                decreases alts@.len() - j,
            {
                proof {
                    lemma_topo_views_index(alts@, j as int);
                    lemma_alts_fit(views, j as int);
                }
                let c = alts[j].gpu_count();
                counts.push(c);
                j = j + 1;
            }
            let mut mismatch = false;
            let mut k: usize = 0;
            while k < counts.len()
                invariant
                    k <= counts@.len(),
                    mismatch == exists|m: int| 0 <= m < k && m + 1 < counts@.len() && #[trigger] counts@[m] != counts@[m + 1],
                decreases counts@.len() - k,
            {
                if k + 1 < counts.len() && counts[k] != counts[k + 1] {
                    mismatch = true;
                }
                k = k + 1;
            }
            let ghost cs = alt_counts(views);
            assert(cs.len() == counts@.len());
            assert(forall|t: int| 0 <= t < cs.len() ==> #[trigger] cs[t] == counts@[t] as nat);
            assert(mismatch == counts_mismatch(cs)) by {
                if counts_mismatch(cs) {
                    let m = choose|m: int| 0 <= m < cs.len() - 1 && #[trigger] cs[m] != cs[m + 1];
                    assert(counts@[m] != counts@[m + 1]);
                }
                if mismatch {
                    let m = choose|m: int| 0 <= m < k && m + 1 < counts@.len() && #[trigger] counts@[m] != counts@[m + 1];
                    assert(cs[m] != cs[m + 1]);
                }
            }
            if mismatch {
                let mut v: Vec<char> = Vec::new();
                push_str(&mut v, "disjunction alternatives have mismatched gpu_count: ");
                push_str(&mut v, "[");
                let mut q: usize = 0;
                while q < counts.len()
                    invariant
                        q <= counts@.len(),
                        cs.len() == counts@.len(),
                        forall|t: int| 0 <= t < cs.len() ==> #[trigger] cs[t] == counts@[t] as nat,
                        v@ == "disjunction alternatives have mismatched gpu_count: "@ + "["@ + counts_debug_body(cs.take(q as int)),
                    decreases counts@.len() - q,
                {
                    let ghost prev = v@;
                    if q > 0 {
                        push_str(&mut v, ", ");
                    }
                    push_decimal(&mut v, counts[q] as u64);
                    q = q + 1;
                    proof {
                        let cur = cs.take(q as int);
                        assert(cur.drop_last() =~= cs.take(q - 1));
                        assert(cur.last() == counts@[q - 1] as nat);
                        assert(v@ =~= "disjunction alternatives have mismatched gpu_count: "@ + "["@ + counts_debug_body(cur));
                    }
                }
                push_str(&mut v, "]");
                assert(cs.take(cs.len() as int) =~= cs);
                assert(v@ =~= mismatch_message(cs));
                push_str_message(errors, &v);
            }
            assert(strs(errors@) =~= e0 + check_errors(spec@));
        },
    }
}

/// Run all type rules against `spec` and collect the error messages, in rule
/// order (see `check_errors`). An empty result means the spec is well-typed.
pub fn type_check(spec: &TopologySpec) -> (errors: Vec<String>)
    requires
        check_fits(spec@),
    ensures
        strs(errors@) == check_errors(spec@),
{
    let mut errors: Vec<String> = Vec::new();
    assert(strs(errors@) =~= Seq::<Seq<char>>::empty());
    check(spec, &mut errors);
    assert(Seq::<Seq<char>>::empty() + check_errors(spec@) =~= check_errors(spec@));
    errors
}

/// `spec_gpu_count(s)` when every product on the way fits in a `u32`
/// (`counts_fit`), else `None`.
pub fn checked_gpu_count(spec: &TopologySpec) -> (r: Option<u32>)
    ensures
        match r {
            Some(n) => counts_fit(spec@) && n == spec_gpu_count(spec@),
            None => !counts_fit(spec@),
        },
    decreases spec,
{
    match spec {
        TopologySpec::Atom(dim, _) => match dim {
            ParallelDim::Tp(n) => Some(*n),
            ParallelDim::Pp(n) => Some(*n),
            ParallelDim::Dp(n) => Some(*n),
        },
        TopologySpec::Conjunction(l, r) => {
            let a = checked_gpu_count(l);
            let b = checked_gpu_count(r);
            match (a, b) {
                (Some(x), Some(y)) => x.checked_mul(y),
                _ => None,
            }
        },
        TopologySpec::Disjunction(alts) => {
            proof {
                lemma_topo_views_len(alts@);
            }
            if alts.len() > 0 {
                proof {
                    lemma_topo_views_index(alts@, 0);
                }
                checked_gpu_count(&alts[0])
            } else {
                Some(0)
            }
        },
    }
}

/// Whether `type_check` can count every disjunction's alternatives
/// (`check_fits`); where it cannot, counting overflows `u32`.
#[verifier::loop_isolation(false)]
pub fn counts_checkable(spec: &TopologySpec) -> (b: bool)
    ensures
        b == check_fits(spec@),
    decreases spec,
{
    match spec {
        TopologySpec::Atom(_, _) => true,
        TopologySpec::Conjunction(l, r) => counts_checkable(l) && counts_checkable(r),
        TopologySpec::Disjunction(alts) => {
            let ghost views = topo_views(alts@);
            proof {
                lemma_topo_views_len(alts@);
            }
            let mut i: usize = 0;
            assert(views.take(0) =~= Seq::<TopoView>::empty());
            while i < alts.len()
                invariant
                    views == topo_views(alts@),
                    views.len() == alts@.len(),
                    i <= alts@.len(),
                    alts_fit(views.take(i as int)),
                decreases alts@.len() - i,
            {
                proof {
                    lemma_topo_views_index(alts@, i as int);
                    assert(views.take(i + 1).drop_last() =~= views.take(i as int));
                }
                let c = checked_gpu_count(&alts[i]);
                if c.is_none() || !counts_checkable(&alts[i]) {
                    proof {
                        assert(!alts_fit(views.take(i + 1)));
                        if alts_fit(views) {
                            lemma_alts_fit_prefix(views, i + 1);
                        }
                    }
                    return false;
                }
                i = i + 1;
            }
            assert(views.take(alts@.len() as int) =~= views);
            true
        },
    }
}

proof fn lemma_alts_fit_prefix(alts: Seq<TopoView>, k: int)
    requires
        0 <= k <= alts.len(),
        alts_fit(alts),
    ensures
        alts_fit(alts.take(k)),
    decreases alts.len(),
{
    if k < alts.len() {
        assert(alts.drop_last().take(k) =~= alts.take(k));
        lemma_alts_fit_prefix(alts.drop_last(), k);
    } else {
        assert(alts.take(k) =~= alts);
    }
}

/// A disjunction that type-checks needs the same number of GPUs whichever
/// alternative is placed: each alternative's `gpu_count` is the
/// disjunction's.
pub proof fn lemma_well_typed_disjunction_counts(alts: Seq<TopoView>, i: int)
    requires
        check_errors(TopoView::Disjunction(alts)).len() == 0,
        0 <= i < alts.len(),
    ensures
        spec_gpu_count(alts[i]) == spec_gpu_count(TopoView::Disjunction(alts)),
    decreases i,
{
    let cs = alt_counts(alts);
    assert(!counts_mismatch(cs));
    if i > 0 {
        lemma_well_typed_disjunction_counts(alts, i - 1);
        assert(cs[i - 1] == cs[i]);
    }
}

/// An atom type-checks exactly when it is not TP, or its TP degree is a power
/// of two and is not above 8 under an NVLink constraint.
pub proof fn lemma_atom_rules(d: ParallelDim, cs: Seq<Constraint>)
    ensures
        atom_errors(d, cs).len() == 0 <==> match d {
            ParallelDim::Tp(n) => is_power_of_two(n as nat) && !(has_nvl(cs) && n > 8),
            _ => true,
        },
{
}

/// The type rules stated directly: a TP atom's degree is a power of two, and
/// at most 8 when it carries an NVL constraint; a conjunction's arms are well
/// typed; a disjunction's alternatives are well typed and all ask for the
/// same number of GPUs.
pub open spec fn well_typed(s: TopoView) -> bool
    decreases s,
{
    match s {
        TopoView::Atom(d, cs) => match d {
            ParallelDim::Tp(n) => is_power_of_two(n as nat) && !(has_nvl(cs) && n > 8),
            _ => true,
        },
        TopoView::Conjunction(l, r) => well_typed(*l) && well_typed(*r),
        TopoView::Disjunction(alts) => {
            &&& forall|i: int| 0 <= i < alts.len() ==> well_typed(#[trigger] alts[i])
            &&& forall|i: int, j: int| 0 <= i < alts.len() && 0 <= j < alts.len()
                ==> spec_gpu_count(#[trigger] alts[i]) == spec_gpu_count(#[trigger] alts[j])
        },
    }
}

/// The checker reports no error exactly when the spec is well typed.
pub proof fn lemma_no_errors_iff_well_typed(s: TopoView)
    ensures
        check_errors(s).len() == 0 <==> well_typed(s),
    decreases s,
{
    match s {
        TopoView::Atom(d, cs) => lemma_atom_rules(d, cs),
        TopoView::Conjunction(l, r) => {
            lemma_no_errors_iff_well_typed(*l);
            lemma_no_errors_iff_well_typed(*r);
        },
        TopoView::Disjunction(alts) => {
            assert forall|i: int| 0 <= i < alts.len() implies
                (check_errors(#[trigger] alts[i]).len() == 0 <==> well_typed(alts[i])) by {
                lemma_no_errors_iff_well_typed(alts[i]);
            }
            lemma_alts_errors_empty(alts, alts.len() as int);
            assert(alts.take(alts.len() as int) =~= alts);
            let cs = alt_counts(alts);
            if counts_mismatch(cs) {
                let i = choose|i: int| 0 <= i < cs.len() - 1 && #[trigger] cs[i] != cs[i + 1];
                assert(spec_gpu_count(alts[i]) != spec_gpu_count(alts[i + 1]));
            } else {
                assert forall|i: int, j: int| 0 <= i < alts.len() && 0 <= j < alts.len()
                    implies spec_gpu_count(#[trigger] alts[i]) == spec_gpu_count(#[trigger] alts[j]) by {
                    lemma_counts_equal_to_first(cs, i);
                    lemma_counts_equal_to_first(cs, j);
                }
            }
        },
    }
}

proof fn lemma_counts_equal_to_first(cs: Seq<nat>, i: int)
    requires
        !counts_mismatch(cs),
        0 <= i < cs.len(),
    ensures
        cs[i] == cs[0],
    decreases i,
{
    if i > 0 {
        lemma_counts_equal_to_first(cs, i - 1);
        assert(!(cs[i - 1] != cs[i - 1 + 1]));
    }
}

proof fn lemma_alts_errors_empty(alts: Seq<TopoView>, n: int)
    requires
        0 <= n <= alts.len(),
    ensures
        alts_errors(alts.take(n)).len() == 0 <==> forall|i: int| 0 <= i < n ==> (#[trigger] check_errors(alts[i])).len() == 0,
    decreases n,
{
    if n > 0 {
        lemma_alts_errors_empty(alts, n - 1);
        let t = alts.take(n);
        assert(t.drop_last() =~= alts.take(n - 1));
        assert(t.last() == alts[n - 1]);
        assert(alts_errors(t) == alts_errors(alts.take(n - 1)) + check_errors(alts[n - 1]));
        if forall|i: int| 0 <= i < n ==> (#[trigger] check_errors(alts[i])).len() == 0 {
            assert(check_errors(alts[n - 1]).len() == 0);
        }
    } else {
        assert(alts.take(0) =~= Seq::<TopoView>::empty());
    }
}

} // verus!
