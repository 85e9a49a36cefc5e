//! Recursive-descent parser for the topology DSL.
//!
//! Grammar:
//! ```text
//! spec        := disjunction
//! disjunction := conjunction ('|' conjunction)*
//! conjunction := atom ('+' atom)*
//! atom        := dim_kw number constraint*
//! dim_kw      := 'TP' | 'PP' | 'DP'
//! constraint  := NvlMin | IbMax | Numa
//! ```

use vstd::prelude::*;
use crate::lexer::{lex, lex_spec, Token};
use crate::text::{dec, push_decimal, push_str, string_from_chars};

verus! {

/// A parallelism dimension with its degree.
#[derive(Debug, Clone, Copy, PartialEq, Eq)]
pub enum ParallelDim {
    /// Tensor parallelism: all-reduce inside an NVLink domain.
    Tp(u32),
    /// Pipeline parallelism: point-to-point across InfiniBand.
    Pp(u32),
    /// Data parallelism: gradient all-reduce.
    Dp(u32),
}

/// Hardware placement / bandwidth constraint attached to a dim.
#[derive(Debug, Clone, Copy, PartialEq, Eq)]
pub enum Constraint {
    /// Minimum NVLink bandwidth required in GB/s.
    NvlMin(u64),
    /// Maximum InfiniBand hop count permitted.
    IbMax(u32),
    /// All ranks must be NUMA-local.
    Numa,
}

/// A typed topology specification node.
#[derive(Debug, PartialEq, Eq)]
pub enum TopologySpec {
    /// A single parallelism axis with zero or more constraints.
    Atom(ParallelDim, Vec<Constraint>),
    /// Both axes are simultaneously required (e.g. TP inside PP).
    Conjunction(Box<TopologySpec>, Box<TopologySpec>),
    /// Any one of the alternatives is acceptable.
    Disjunction(Vec<TopologySpec>),
}

/// The mathematical value of a `TopologySpec`.
pub enum TopoView {
    Atom(ParallelDim, Seq<Constraint>),
    Conjunction(Box<TopoView>, Box<TopoView>),
    Disjunction(Seq<TopoView>),
}

pub open spec fn topo_view(s: &TopologySpec) -> TopoView
    decreases s, 0nat,
{
    match s {
        TopologySpec::Atom(d, cs) => TopoView::Atom(*d, cs@),
        TopologySpec::Conjunction(l, r) => TopoView::Conjunction(
            Box::new(topo_view(&**l)),
            Box::new(topo_view(&**r)),
        ),
        TopologySpec::Disjunction(alts) => TopoView::Disjunction(topo_views(alts@)),
    }
}

pub open spec fn topo_views(s: Seq<TopologySpec>) -> Seq<TopoView>
    decreases s, 1nat,
{
    if s.len() == 0 {
        Seq::empty()
    } else {
        topo_views(s.drop_last()).push(topo_view(&s.last()))
    }
}

impl View for TopologySpec {
    type V = TopoView;

    open spec fn view(&self) -> TopoView {
        topo_view(self)
    }
}

/// The degree of a dim.
pub open spec fn dim_degree(d: ParallelDim) -> nat {
    match d {
        ParallelDim::Tp(n) => n as nat,
        ParallelDim::Pp(n) => n as nat,
        ParallelDim::Dp(n) => n as nat,
    }
}

/// Total GPU count implied by a spec: an atom's degree, the product of a
/// conjunction's arms, and the count of a disjunction's first alternative
/// (0 for an empty disjunction).
pub open spec fn spec_gpu_count(s: TopoView) -> nat
    decreases s,
{
    match s {
        TopoView::Atom(d, _) => dim_degree(d),
        TopoView::Conjunction(l, r) => spec_gpu_count(*l) * spec_gpu_count(*r),
        TopoView::Disjunction(alts) => if alts.len() > 0 { spec_gpu_count(alts[0]) } else { 0 },
    }
}

/// Every product computed on the way to `spec_gpu_count(s)` fits in a `u32`.
pub open spec fn counts_fit(s: TopoView) -> bool
    decreases s,
{
    match s {
        TopoView::Atom(_, _) => true,
        TopoView::Conjunction(l, r) => counts_fit(*l) && counts_fit(*r)
            && spec_gpu_count(*l) * spec_gpu_count(*r) <= u32::MAX,
        TopoView::Disjunction(alts) => alts.len() > 0 ==> counts_fit(alts[0]),
    }
}

pub proof fn lemma_count_fits(s: TopoView)
    requires
        counts_fit(s),
    ensures
        spec_gpu_count(s) <= u32::MAX,
    decreases s,
{
    match s {
        TopoView::Atom(_, _) => {},
        TopoView::Conjunction(l, r) => {},
        TopoView::Disjunction(alts) => {
            if alts.len() > 0 {
                lemma_count_fits(alts[0]);
            }
        },
    }
}

impl TopologySpec {
    /// Total GPU count implied by this spec.
    ///
    /// - Atom: degree of its dim.
    /// - Conjunction: product of left x right counts.
    /// - Disjunction: count of the first alternative (0 when there is none).
    pub fn gpu_count(&self) -> (n: u32)
        requires
            counts_fit(self@),
        ensures
            n == spec_gpu_count(self@),
        decreases self,
    {
        match self {
            TopologySpec::Atom(dim, _) => match dim {
                ParallelDim::Tp(n) => *n,
                ParallelDim::Pp(n) => *n,
                ParallelDim::Dp(n) => *n,
            },
            TopologySpec::Conjunction(l, r) => {
                let a = l.gpu_count();
                let b = r.gpu_count();
                a * b
            },
            TopologySpec::Disjunction(alts) => {
                if alts.len() > 0 {
                    proof {
                        assert(topo_views(alts@).len() == alts@.len()) by {
                            lemma_topo_views_len(alts@);
                        }
                        lemma_topo_views_index(alts@, 0);
                    }
                    alts[0].gpu_count()
                } else {
                    proof {
                        lemma_topo_views_len(alts@);
                    }
                    0
                }
            },
        }
    }
}

pub proof fn lemma_topo_views_len(s: Seq<TopologySpec>)
    ensures
        topo_views(s).len() == s.len(),
    decreases s.len(),
{
    if s.len() > 0 {
        lemma_topo_views_len(s.drop_last());
    }
}

pub proof fn lemma_topo_views_index(s: Seq<TopologySpec>, i: int)
    requires
        0 <= i < s.len(),
    ensures
        topo_views(s).len() == s.len(),
        topo_views(s)[i] == topo_view(&s[i]),
    decreases s.len(),
{
    lemma_topo_views_len(s);
    if i < s.len() - 1 {
        lemma_topo_views_index(s.drop_last(), i);
    }
}

pub proof fn lemma_topo_views_push(s: Seq<TopologySpec>, x: TopologySpec)
    ensures
        topo_views(s.push(x)) == topo_views(s).push(topo_view(&x)),
{
    assert(s.push(x).drop_last() =~= s);
}

// ---------------------------------------------------------------------------
// Renderings of tokens used in parse error messages
// ---------------------------------------------------------------------------

/// `Debug` rendering of a token, e.g. `Number(8)`; a bandwidth is written as
/// the GB/s figure it stands for, e.g. `NvlMin(12.0)`.
pub open spec fn token_debug(t: Token) -> Seq<char> {
    match t {
        Token::Tp => "Tp"@,
        Token::Pp => "Pp"@,
        Token::Dp => "Dp"@,
        Token::Number(n) => "Number("@ + dec(n as nat) + ")"@,
        Token::NvlMin(n) => "NvlMin("@ + dec(n as nat) + ".0)"@,
        Token::IbMax(n) => "IbMax("@ + dec(n as nat) + ")"@,
        Token::Numa => "Numa"@,
        Token::Plus => "Plus"@,
        Token::Pipe => "Pipe"@,
    }
}

/// The items of `ts` rendered and separated by `", "`.
pub open spec fn tokens_debug_body(ts: Seq<Token>) -> Seq<char>
    decreases ts.len(),
{
    if ts.len() == 0 {
        Seq::empty()
    } else if ts.len() == 1 {
        token_debug(ts[0])
    } else {
        tokens_debug_body(ts.drop_last()) + ", "@ + token_debug(ts.last())
    }
}

/// `Debug` rendering of a token slice, e.g. `[Plus, Dp, Number(2)]`.
pub open spec fn tokens_debug(ts: Seq<Token>) -> Seq<char> {
    "["@ + tokens_debug_body(ts) + "]"@
}

/// `Debug` rendering of `t.get(pos)`: `Some(..)` or `None`.
pub open spec fn token_at_debug(t: Seq<Token>, pos: int) -> Seq<char> {
    if 0 <= pos < t.len() {
        "Some("@ + token_debug(t[pos]) + ")"@
    } else {
        "None"@
    }
}

fn push_token_debug(out: &mut Vec<char>, t: Token)
    ensures
        final(out)@ == old(out)@ + token_debug(t),
{
    let ghost o = out@;
    match t {
        Token::Tp => push_str(out, "Tp"),
        Token::Pp => push_str(out, "Pp"),
        Token::Dp => push_str(out, "Dp"),
        Token::Number(n) => {
            push_str(out, "Number(");
            push_decimal(out, n as u64);
            push_str(out, ")");
            assert(out@ =~= o + token_debug(t));
        },
        Token::NvlMin(n) => {
            push_str(out, "NvlMin(");
            push_decimal(out, n);
            push_str(out, ".0)");
            assert(out@ =~= o + token_debug(t));
        },
        Token::IbMax(n) => {
            push_str(out, "IbMax(");
            push_decimal(out, n as u64);
            push_str(out, ")");
            assert(out@ =~= o + token_debug(t));
        },
        Token::Numa => push_str(out, "Numa"),
        Token::Plus => push_str(out, "Plus"),
        Token::Pipe => push_str(out, "Pipe"),
    }
}

fn push_token_at_debug(out: &mut Vec<char>, tokens: &Vec<Token>, pos: usize)
    ensures
        final(out)@ == old(out)@ + token_at_debug(tokens@, pos as int),
{
    let ghost o = out@;
    if pos < tokens.len() {
        push_str(out, "Some(");
        push_token_debug(out, tokens[pos]);
        push_str(out, ")");
        assert(out@ =~= o + token_at_debug(tokens@, pos as int));
    } else {
        push_str(out, "None");
    }
}

fn push_tokens_debug(out: &mut Vec<char>, tokens: &Vec<Token>, from: usize)
    requires
        from <= tokens@.len(),
    ensures
        final(out)@ == old(out)@ + tokens_debug(tokens@.skip(from as int)),
{
    let ghost o = out@;
    push_str(out, "[");
    let mut i = from;
    while i < tokens.len()
        invariant
            from <= i <= tokens@.len(),
            out@ == o + "["@ + tokens_debug_body(tokens@.subrange(from as int, i as int)),
        decreases tokens@.len() - i,
    {
        let ghost prev = tokens@.subrange(from as int, i as int);
        if i > from {
            push_str(out, ", ");
        }
        push_token_debug(out, tokens[i]);
        i = i + 1;
        proof {
            let cur = tokens@.subrange(from as int, i as int);
            assert(cur.drop_last() =~= prev);
            assert(cur.last() == tokens@[i - 1]);
            if prev.len() == 0 {
                assert(cur.len() == 1);
                assert(out@ =~= o + "["@ + tokens_debug_body(cur));
            } else {
                assert(out@ =~= o + "["@ + tokens_debug_body(cur));
            }
        }
    }
    push_str(out, "]");
    assert(tokens@.subrange(from as int, tokens@.len() as int) =~= tokens@.skip(from as int));
    assert(out@ =~= o + tokens_debug(tokens@.skip(from as int)));
}

// ---------------------------------------------------------------------------
// Grammar, stated over the token stream
// ---------------------------------------------------------------------------

pub open spec fn is_constraint_token(t: Token) -> bool {
    t is NvlMin || t is IbMax || t is Numa
}

pub open spec fn to_constraint(t: Token) -> Constraint {
    match t {
        Token::NvlMin(bw) => Constraint::NvlMin(bw),
        Token::IbMax(h) => Constraint::IbMax(h),
        _ => Constraint::Numa,
    }
}

/// Number of consecutive constraint tokens starting at `pos`.
pub open spec fn constraint_run(t: Seq<Token>, pos: int) -> nat
    decreases t.len() - pos,
{
    if 0 <= pos < t.len() && is_constraint_token(t[pos]) {
        1 + constraint_run(t, pos + 1)
    } else {
        0
    }
}

/// The degree number at `pos`, or the message for its absence.
pub open spec fn expect_number_spec(t: Seq<Token>, pos: int) -> Result<u32, Seq<char>> {
    if 0 <= pos < t.len() && t[pos] is Number {
        Ok(t[pos]->Number_0)
    } else {
        Err("expected degree number at position "@ + dec(pos as nat) + ", got "@ + token_at_debug(t, pos))
    }
}

/// An atom starting at `pos` and the position after it.
pub open spec fn atom_spec(t: Seq<Token>, pos: int) -> Result<(TopoView, int), Seq<char>> {
    if 0 <= pos < t.len() && (t[pos] is Tp || t[pos] is Pp || t[pos] is Dp) {
        match expect_number_spec(t, pos + 1) {
            Ok(n) => {
                let dim = if t[pos] is Tp {
                    ParallelDim::Tp(n)
                } else if t[pos] is Pp {
                    ParallelDim::Pp(n)
                } else {
                    ParallelDim::Dp(n)
                };
                let k = constraint_run(t, pos + 2);
                let cs = Seq::new(k, |i: int| to_constraint(t[pos + 2 + i]));
                Ok((TopoView::Atom(dim, cs), pos + 2 + k))
            },
            Err(e) => Err(e),
        }
    } else {
        Err("expected TP/PP/DP at position "@ + dec(pos as nat) + ", got "@ + token_at_debug(t, pos))
    }
}

/// The conjunction `acc` extended, left-associatively, by every `+ atom`
/// starting at `pos`.
pub open spec fn conj_rest_spec(t: Seq<Token>, pos: int, acc: TopoView) -> Result<(TopoView, int), Seq<char>>
    decreases t.len() - pos,
{
    if 0 <= pos < t.len() && t[pos] is Plus {
        match atom_spec(t, pos + 1) {
            Ok((b, q)) => if pos < q <= t.len() {
                conj_rest_spec(t, q, TopoView::Conjunction(Box::new(acc), Box::new(b)))
            } else {
                Ok((TopoView::Conjunction(Box::new(acc), Box::new(b)), q))
            },
            Err(e) => Err(e),
        }
    } else {
        Ok((acc, pos))
    }
}

/// A conjunction (atoms joined by `+`, grouped from the left) starting at `pos`.
pub open spec fn conj_spec(t: Seq<Token>, pos: int) -> Result<(TopoView, int), Seq<char>> {
    match atom_spec(t, pos) {
        Ok((a, p)) => conj_rest_spec(t, p, a),
        Err(e) => Err(e),
    }
}

/// The alternatives `alts` extended by every `| conjunction` starting at `pos`.
pub open spec fn disj_rest_spec(t: Seq<Token>, pos: int, alts: Seq<TopoView>) -> Result<(Seq<TopoView>, int), Seq<char>>
    decreases t.len() - pos,
{
    if 0 <= pos < t.len() && t[pos] is Pipe {
        match conj_spec(t, pos + 1) {
            Ok((c, p)) => if pos < p <= t.len() {
                disj_rest_spec(t, p, alts.push(c))
            } else {
                Ok((alts.push(c), p))
            },
            Err(e) => Err(e),
        }
    } else {
        Ok((alts, pos))
    }
}

/// A disjunction starting at `pos`; a single alternative stands for itself.
pub open spec fn disj_spec(t: Seq<Token>, pos: int) -> Result<(TopoView, int), Seq<char>> {
    match conj_spec(t, pos) {
        Ok((c, p)) => match disj_rest_spec(t, p, seq![c]) {
            Ok((alts, q)) => if alts.len() == 1 {
                Ok((alts[0], q))
            } else {
                Ok((TopoView::Disjunction(alts), q))
            },
            Err(e) => Err(e),
        },
        Err(e) => Err(e),
    }
}

/// The spec denoted by the whole token stream `t`.
pub open spec fn parse_tokens_spec(t: Seq<Token>) -> Result<TopoView, Seq<char>> {
    match disj_spec(t, 0) {
        Ok((s, p)) => if p != t.len() {
            Err("unexpected tokens starting at position "@ + dec(p as nat) + ": "@ + tokens_debug(t.skip(p)))
        } else {
            Ok(s)
        },
        Err(e) => Err(e),
    }
}

/// The spec denoted by the DSL text `s`, or the first lexical or syntax error.
pub open spec fn parse_spec(s: Seq<char>) -> Result<TopoView, Seq<char>> {
    match lex_spec(s) {
        Ok(t) => parse_tokens_spec(t),
        Err(e) => Err(e),
    }
}

pub proof fn lemma_constraint_run_bound(t: Seq<Token>, pos: int)
    requires
        0 <= pos <= t.len(),
    ensures
        pos + constraint_run(t, pos) <= t.len(),
        forall|i: int| pos <= i < pos + constraint_run(t, pos) ==> is_constraint_token(#[trigger] t[i]),
        pos + constraint_run(t, pos) < t.len() ==> !is_constraint_token(t[pos + constraint_run(t, pos)]),
    decreases t.len() - pos,
{
    if pos < t.len() && is_constraint_token(t[pos]) {
        lemma_constraint_run_bound(t, pos + 1);
    }
}

proof fn lemma_atom_progress(t: Seq<Token>, pos: int)
    requires
        0 <= pos,
    ensures
        atom_spec(t, pos) matches Ok((_, p)) ==> pos + 2 <= p <= t.len(),
{
    if 0 <= pos + 2 <= t.len() {
        lemma_constraint_run_bound(t, pos + 2);
    }
}

proof fn lemma_conj_rest_progress(t: Seq<Token>, pos: int, acc: TopoView)
    requires
        0 <= pos <= t.len(),
    ensures
        conj_rest_spec(t, pos, acc) matches Ok((_, q)) ==> pos <= q <= t.len(),
    decreases t.len() - pos,
{
    if 0 <= pos < t.len() && t[pos] is Plus {
        lemma_atom_progress(t, pos + 1);
        if let Ok((b, q)) = atom_spec(t, pos + 1) {
            lemma_conj_rest_progress(t, q, TopoView::Conjunction(Box::new(acc), Box::new(b)));
        }
    }
}

pub proof fn lemma_conj_progress(t: Seq<Token>, pos: int)
    requires
        0 <= pos,
    ensures
        conj_spec(t, pos) matches Ok((_, p)) ==> pos + 2 <= p <= t.len(),
        atom_spec(t, pos) matches Ok((_, p)) ==> pos + 2 <= p <= t.len(),
{
    lemma_atom_progress(t, pos);
    if let Ok((a, p)) = atom_spec(t, pos) {
        lemma_conj_rest_progress(t, p, a);
    }
}

// ---------------------------------------------------------------------------
// Parser
// ---------------------------------------------------------------------------

/// Parse a topology DSL string into a `TopologySpec`.
///
/// Returns the first lexical or syntax error's message on failure.
pub fn parse(input: &str) -> (r: Result<TopologySpec, String>)
    ensures
        match r {
            Ok(s) => parse_spec(input@) == Ok::<TopoView, Seq<char>>(s@),
            Err(e) => parse_spec(input@) == Err::<TopoView, Seq<char>>(e@),
        },
{
    let tokens = match lex(input) {
        Ok(t) => t,
        Err(e) => return Err(e),
    };
    let mut pos: usize = 0;
    let spec = match parse_disjunction(&tokens, &mut pos) {
        Ok(s) => s,
        Err(e) => return Err(e),
    };
    if pos != tokens.len() {
        let mut v: Vec<char> = Vec::new();
        push_str(&mut v, "unexpected tokens starting at position ");
        push_decimal(&mut v, pos as u64);
        push_str(&mut v, ": ");
        push_tokens_debug(&mut v, &tokens, pos);
        assert(v@ =~= "unexpected tokens starting at position "@ + dec(pos as nat) + ": "@
            + tokens_debug(tokens@.skip(pos as int)));
        return Err(string_from_chars(&v));
    }
    Ok(spec)
}

/// Parse a disjunction: one or more conjunctions separated by `|`.
fn parse_disjunction(tokens: &Vec<Token>, pos: &mut usize) -> (r: Result<TopologySpec, String>)
    requires
        *old(pos) <= tokens@.len(),
    ensures
        match r {
            Ok(s) => disj_spec(tokens@, *old(pos) as int) == Ok::<(TopoView, int), Seq<char>>((s@, *final(pos) as int)),
            Err(e) => disj_spec(tokens@, *old(pos) as int) matches Err(m) && m == e@,
        },
        *final(pos) <= tokens@.len(),
{
    let ghost p0 = *pos as int;
    let first = match parse_conjunction(tokens, pos) {
        Ok(c) => c,
        Err(e) => return Err(e),
    };
    let ghost p1 = *pos as int;
    let ghost fv = first@;
    let mut alts: Vec<TopologySpec> = Vec::new();
    alts.push(first);
    proof {
        lemma_topo_views_push(Seq::empty(), first);
        assert(Seq::<TopologySpec>::empty().push(first) =~= alts@);
        assert(topo_views(Seq::<TopologySpec>::empty()) =~= Seq::<TopoView>::empty());
        assert(topo_views(alts@) =~= seq![first@]);
    }
    while *pos < tokens.len() && matches!(tokens[*pos], Token::Pipe)
        invariant
            *pos <= tokens@.len(),
            alts@.len() >= 1,
            p0 == *old(pos) as int,
            conj_spec(tokens@, p0) == Ok::<(TopoView, int), Seq<char>>((fv, p1)),
            disj_rest_spec(tokens@, p1, seq![fv]) == disj_rest_spec(tokens@, *pos as int, topo_views(alts@)),
        decreases tokens@.len() - *pos,
    {
        let ghost before = *pos as int;
        let ghost views = topo_views(alts@);
        assert(tokens@[before] is Pipe);
        *pos = *pos + 1;
        let c = match parse_conjunction(tokens, pos) {
            Ok(c) => c,
            Err(e) => {
                assert(disj_rest_spec(tokens@, before, views) matches Err(m) && m == e@);
                assert(disj_rest_spec(tokens@, p1, seq![fv]) matches Err(m) && m == e@);
                assert(disj_spec(tokens@, p0) matches Err(m) && m == e@);
                return Err(e);
            },
        };
        proof {
            lemma_conj_progress(tokens@, before + 1);
            lemma_topo_views_push(alts@, c);
        }
        alts.push(c);
        proof {
            lemma_topo_views_len(alts@);
        }
    }
    proof {
        lemma_topo_views_len(alts@);
    }
    if alts.len() == 1 {
        let only = alts.remove(0);
        proof {
            lemma_topo_views_index(old_alts_seq(alts@, only), 0);
        }
        Ok(only)
    } else {
        Ok(TopologySpec::Disjunction(alts))
    }
}

spec fn old_alts_seq(rest: Seq<TopologySpec>, first: TopologySpec) -> Seq<TopologySpec> {
    seq![first] + rest
}

/// Parse a conjunction: atoms separated by `+`, grouped from the left.
fn parse_conjunction(tokens: &Vec<Token>, pos: &mut usize) -> (r: Result<TopologySpec, String>)
    requires
        *old(pos) <= tokens@.len(),
    ensures
        match r {
            Ok(s) => conj_spec(tokens@, *old(pos) as int) == Ok::<(TopoView, int), Seq<char>>((s@, *final(pos) as int)),
            Err(e) => conj_spec(tokens@, *old(pos) as int) matches Err(m) && m == e@,
        },
        *final(pos) <= tokens@.len(),
{
    let ghost p0 = *pos as int;
    let mut acc = match parse_atom(tokens, pos) {
        Ok(a) => a,
        Err(e) => return Err(e),
    };
    let ghost p1 = *pos as int;
    let ghost first = acc@;
    while *pos < tokens.len() && matches!(tokens[*pos], Token::Plus)
        invariant
            *pos <= tokens@.len(),
            p0 == *old(pos) as int,
            atom_spec(tokens@, p0) == Ok::<(TopoView, int), Seq<char>>((first, p1)),
            conj_rest_spec(tokens@, p1, first) == conj_rest_spec(tokens@, *pos as int, acc@),
        decreases tokens@.len() - *pos,
    {
        let ghost before = *pos as int;
        assert(tokens@[before] is Plus);
        *pos = *pos + 1;
        let b = match parse_atom(tokens, pos) {
            Ok(a) => a,
            Err(e) => {
                assert(conj_rest_spec(tokens@, before, acc@) matches Err(m) && m == e@);
                return Err(e);
            },
        };
        proof {
            lemma_atom_progress(tokens@, before + 1);
        }
        acc = TopologySpec::Conjunction(Box::new(acc), Box::new(b));
    }
    Ok(acc)
}

fn position_message(prefix: &str, tokens: &Vec<Token>, pos: usize) -> (m: String)
    ensures
        m@ == prefix@ + dec(pos as nat) + ", got "@ + token_at_debug(tokens@, pos as int),
{
    let mut v: Vec<char> = Vec::new();
    push_str(&mut v, prefix);
    push_decimal(&mut v, pos as u64);
    push_str(&mut v, ", got ");
    push_token_at_debug(&mut v, tokens, pos);
    assert(v@ =~= prefix@ + dec(pos as nat) + ", got "@ + token_at_debug(tokens@, pos as int));
    string_from_chars(&v)
}

/// Parse an atom: dim keyword + degree + zero or more constraints.
fn parse_atom(tokens: &Vec<Token>, pos: &mut usize) -> (r: Result<TopologySpec, String>)
    requires
        *old(pos) <= tokens@.len(),
    ensures
        match r {
            Ok(s) => atom_spec(tokens@, *old(pos) as int) == Ok::<(TopoView, int), Seq<char>>((s@, *final(pos) as int)),
            Err(e) => atom_spec(tokens@, *old(pos) as int) matches Err(m) && m == e@,
        },
        *final(pos) <= tokens@.len(),
{
    let p0 = *pos;
    let n = tokens.len();
    if !(p0 < n && (matches!(tokens[p0], Token::Tp) || matches!(tokens[p0], Token::Pp) || matches!(tokens[p0], Token::Dp))) {
        return Err(position_message("expected TP/PP/DP at position ", tokens, p0));
    }
    let kind = tokens[p0];
    *pos = p0 + 1;
    let num = match expect_number(tokens, pos) {
        Ok(v) => v,
        Err(e) => return Err(e),
    };
    let dim = match kind {
        Token::Tp => ParallelDim::Tp(num),
        Token::Pp => ParallelDim::Pp(num),
        _ => ParallelDim::Dp(num),
    };
    let mut constraints: Vec<Constraint> = Vec::new();
    let start = *pos;
    proof {
        lemma_constraint_run_bound(tokens@, start as int);
    }
    while *pos < tokens.len() && (matches!(tokens[*pos], Token::NvlMin(_)) || matches!(tokens[*pos], Token::IbMax(_)) || matches!(tokens[*pos], Token::Numa))
        invariant
            start == p0 + 2,
            start <= *pos <= tokens@.len(),
            constraint_run(tokens@, start as int) == (*pos - start) + constraint_run(tokens@, *pos as int),
            constraints@ =~= Seq::new((*pos - start) as nat, |i: int| to_constraint(tokens@[start + i])),
        decreases tokens@.len() - *pos,
    {
        let c = match tokens[*pos] {
            Token::NvlMin(bw) => Constraint::NvlMin(bw),
            Token::IbMax(h) => Constraint::IbMax(h),
            _ => Constraint::Numa,
        };
        constraints.push(c);
        *pos = *pos + 1;
    }
    let r = TopologySpec::Atom(dim, constraints);
    assert(r@ == atom_spec(tokens@, p0 as int)->Ok_0.0);
    Ok(r)
}

/// Consume a `Number` token and return its value.
fn expect_number(tokens: &Vec<Token>, pos: &mut usize) -> (r: Result<u32, String>)
    requires
        *old(pos) <= tokens@.len(),
    ensures
        match r {
            Ok(v) => expect_number_spec(tokens@, *old(pos) as int) == Ok::<u32, Seq<char>>(v)
                && *final(pos) == *old(pos) + 1,
            Err(e) => expect_number_spec(tokens@, *old(pos) as int) == Err::<u32, Seq<char>>(e@),
        },
        *final(pos) <= tokens@.len(),
{
    let p = *pos;
    if p < tokens.len() {
        if let Token::Number(v) = tokens[p] {
            *pos = p + 1;
            return Ok(v);
        }
    }
    Err(position_message("expected degree number at position ", tokens, p))
}

} // verus!
