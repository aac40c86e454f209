//! Patterns: terms with pattern variables (`?name`), parsed from the
//! s-expression grammar extended with a `?` sigil.
//!
//! Variables of one rule share one table, so a substitution found for the
//! searcher binds the same indices that the applier references.

use vstd::prelude::*;
use crate::expr::Op;
use crate::expr::OpV;
use crate::expr::arity_ok;
use crate::expr::bytes_eq;
use crate::sexp::ParseError;

verus! {

/// A pattern node operator: a pattern variable or a term operator.
pub enum POp {
    /// A pattern variable, as an index into the rule's variable table.
    Var(usize),
    /// A term-language operator.
    Plain(Op),
}

/// Mathematical model of a pattern operator.
pub enum POpV {
    Var(int),
    Plain(OpV),
}

impl View for POp {
    type V = POpV;

    open spec fn view(&self) -> POpV {
        match self {
            POp::Var(v) => POpV::Var(*v as int),
            POp::Plain(op) => POpV::Plain(op@),
        }
    }
}

/// A pattern node: an operator with ordered children (pattern node indices).
pub struct PNode {
    pub op: POp,
    pub children: Vec<usize>,
}

/// Mathematical model of a pattern node.
pub struct PNodeV {
    pub op: POpV,
    pub children: Seq<usize>,
}

impl View for PNode {
    type V = PNodeV;

    open spec fn view(&self) -> PNodeV {
        PNodeV { op: self.op@, children: self.children@ }
    }
}

/// Model of a pattern node sequence.
pub open spec fn pnodes_view(s: Seq<PNode>) -> Seq<PNodeV> {
    s.map_values(|n: PNode| n@)
}

/// Pattern node `i` is well formed, with variables below `nvars`.
pub open spec fn pat_node_wf(s: Seq<PNodeV>, i: int, nvars: int) -> bool {
    &&& match s[i].op {
        POpV::Var(v) => 0 <= v < nvars && s[i].children.len() == 0,
        POpV::Plain(op) => arity_ok(op, s[i].children.len() as int),
    }
    &&& forall|j: int| 0 <= j < s[i].children.len() ==> (#[trigger] s[i].children[j] as int) < i
}

/// A pattern as a DAG: non-empty, acyclic, variables in range; the root is
/// the last node.
pub struct Pattern {
    pub nodes: Vec<PNode>,
    /// Size of the rule's shared variable table.
    pub nvars: usize,
}

impl Pattern {
    /// Well-formedness.
    pub open spec fn wf(&self) -> bool {
        &&& self.nodes@.len() > 0
        &&& forall|i: int|
            0 <= i < self.nodes@.len() ==> #[trigger] pat_node_wf(
                pnodes_view(self.nodes@),
                i,
                self.nvars as int,
            )
    }

    /// The root index.
    pub open spec fn root(&self) -> int {
        self.nodes@.len() - 1
    }
}

/// Finds or adds a variable name in the rule's variable table, returning its
/// index.
pub fn var_index(vars: &mut Vec<Vec<u8>>, name: Vec<u8>) -> (r: usize)
    requires
        old(vars)@.len() < usize::MAX,
    ensures
        old(vars)@.len() <= final(vars)@.len() <= old(vars)@.len() + 1,
        (r as int) < final(vars)@.len(),
        forall|i: int| 0 <= i < old(vars)@.len() ==> final(vars)@[i] == old(vars)@[i],
{
    let mut i: usize = 0;
    let n = vars.len();
    while i < n
        invariant
            i <= n,
            n == vars@.len(),
            n < usize::MAX,
        decreases n - i,
    {
        if bytes_eq(&vars[i], &name) {
            return i;
        }
        i = i + 1;
    }
    vars.push(name);
    n
}

/// Parses one pattern expression starting at `pos`, appending nodes to
/// `out`, collecting variables in `vars`; returns the next position and the
/// root node's index.
pub fn parse_pattern_into(
    s: &Vec<u8>,
    pos: usize,
    out: &mut Vec<PNode>,
    vars: &mut Vec<Vec<u8>>,
) -> (r: Result<(usize, usize), ParseError>)
    requires
        pos <= s@.len(),
        old(vars)@.len() + (s@.len() - pos) < usize::MAX,
        forall|i: int|
            0 <= i < old(out)@.len() ==> #[trigger] pat_node_wf(
                pnodes_view(old(out)@),
                i,
                old(vars)@.len() as int,
            ),
    ensures
        old(out)@.len() <= final(out)@.len(),
        old(vars)@.len() <= final(vars)@.len() <= old(vars)@.len() + (s@.len() - pos),
        r is Ok ==> final(vars)@.len() <= old(vars)@.len() + (r->Ok_0.0 - pos),
        forall|i: int| 0 <= i < old(vars)@.len() ==> final(vars)@[i] == old(vars)@[i],
        forall|i: int|
            0 <= i < final(out)@.len() ==> #[trigger] pat_node_wf(
                pnodes_view(final(out)@),
                i,
                final(vars)@.len() as int,
            ),
        r is Ok ==> ({
            &&& pos < r->Ok_0.0 <= s@.len()
            &&& old(out)@.len() <= (r->Ok_0.1 as int) < final(out)@.len()
        }),
    decreases s@.len() - pos,
{
    let p0 = crate::sexp::skip_ws(s, pos);
    if p0 >= s.len() {
        return Err(ParseError::UnexpectedEnd { pos: p0 });
    }
    let b = s[p0];
    if b == 63 {
        // '?' variable
        if p0 + 1 >= s.len() {
            return Err(ParseError::UnexpectedEnd { pos: p0 });
        }
        if !crate::sexp::sym_start(s[p0 + 1]) {
            return Err(ParseError::UnexpectedByte { pos: p0 + 1 });
        }
        let (name, np) = crate::sexp::read_symbol(s, p0 + 1);
        let v = var_index(vars, name);
        let idx = out.len();
        out.push(PNode { op: POp::Var(v), children: Vec::new() });
        proof {
            lemma_pat_wf_extend(old(out)@, out@, old(vars)@.len() as int, vars@.len() as int);
        }
        return Ok((np, idx));
    }
    if b == 40 {
        // a list: '(' head pattern* ')'
        let hp = crate::sexp::skip_ws(s, p0 + 1);
        if hp >= s.len() {
            return Err(ParseError::UnexpectedEnd { pos: hp });
        }
        let hb = s[hp];
        let op: Op;
        let mut p: usize;
        if hb == 38 {
            op = Op::And;
            p = hp + 1;
        } else if hb == 124 {
            op = Op::Or;
            p = hp + 1;
        } else if hb == 33 {
            op = Op::Not;
            p = hp + 1;
        } else if crate::sexp::sym_start(hb) {
            let (name, np) = crate::sexp::read_symbol(s, hp);
            op = crate::sexp::head_op(name);
            p = np;
        } else {
            return Err(ParseError::UnexpectedByte { pos: hp });
        }
        let mut children: Vec<usize> = Vec::new();
        loop
            invariant
                pos <= p0 < s@.len(),
                p0 < p <= s@.len(),
                out@.len() >= old(out)@.len(),
                old(vars)@.len() + (s@.len() - pos) < usize::MAX,
                vars@.len() >= old(vars)@.len(),
                vars@.len() <= old(vars)@.len() + (p - pos),
                forall|i: int| 0 <= i < old(vars)@.len() ==> vars@[i] == old(vars)@[i],
                forall|i: int|
                    0 <= i < out@.len() ==> #[trigger] pat_node_wf(
                        pnodes_view(out@),
                        i,
                        vars@.len() as int,
                    ),
                forall|q: int|
                    0 <= q < children@.len() ==> (#[trigger] children@[q] as int) < out@.len(),
            ensures
                pos <= p0 < s@.len(),
                p0 < p <= s@.len(),
                out@.len() >= old(out)@.len(),
                vars@.len() >= old(vars)@.len(),
                vars@.len() <= old(vars)@.len() + (p - pos),
                forall|i: int| 0 <= i < old(vars)@.len() ==> vars@[i] == old(vars)@[i],
                forall|i: int|
                    0 <= i < out@.len() ==> #[trigger] pat_node_wf(
                        pnodes_view(out@),
                        i,
                        vars@.len() as int,
                    ),
                forall|q: int|
                    0 <= q < children@.len() ==> (#[trigger] children@[q] as int) < out@.len(),
                p < s@.len() && s@[p as int] == 41,
            decreases s@.len() - p,
        {
            let q = crate::sexp::skip_ws(s, p);
            if q >= s.len() {
                return Err(ParseError::UnexpectedEnd { pos: q });
            }
            if s[q] == 41 {
                p = q;
                break ;
            }
            match parse_pattern_into(s, q, out, vars) {
                Ok((np, idx)) => {
                    children.push(idx);
                    p = np;
                },
                Err(e) => {
                    return Err(e);
                },
            }
        }
        let after = p + 1;
        let ok = match &op {
            Op::Module => true,
            Op::Let => children.len() == 2,
            Op::And => children.len() == 2,
            Op::Or => children.len() == 2,
            Op::Not => children.len() == 1,
            Op::Input => children.len() == 2,
            Op::Output => children.len() == 1,
            Op::Num(_) => children.len() == 0,
            Op::Symbol(_) => children.len() == 0,
            Op::Gate(_) => true,
        };
        if !ok {
            return Err(ParseError::WrongArity { pos: p0 });
        }
        let idx = out.len();
        let ghost before = pnodes_view(out@);
        out.push(PNode { op: POp::Plain(op), children });
        proof {
            let now = pnodes_view(out@);
            assert forall|i: int| 0 <= i < now.len() implies #[trigger] pat_node_wf(
                now,
                i,
                vars@.len() as int,
            ) by {
                if i < idx as int {
                    assert(pat_node_wf(before, i, vars@.len() as int));
                    assert(now[i] == before[i]);
                    assert forall|j: int|
                        0 <= j < now[i].children.len() implies (#[trigger] now[i].children[j] as int)
                        < i by {
                        assert((before[i].children[j] as int) < i);
                    }
                }
            }
        }
        Ok((after, idx))
    } else if crate::sexp::digit(b) || b == 45 {
        match crate::sexp::read_int(s, p0) {
            Ok((v, np)) => {
                let idx = out.len();
                out.push(PNode { op: POp::Plain(Op::Num(v)), children: Vec::new() });
                proof {
                    lemma_pat_wf_extend(
                        old(out)@,
                        out@,
                        old(vars)@.len() as int,
                        vars@.len() as int,
                    );
                }
                Ok((np, idx))
            },
            Err(e) => Err(e),
        }
    } else if crate::sexp::sym_start(b) {
        let (name, np) = crate::sexp::read_symbol(s, p0);
        let idx = out.len();
        out.push(PNode { op: POp::Plain(Op::Symbol(name)), children: Vec::new() });
        proof {
            lemma_pat_wf_extend(old(out)@, out@, old(vars)@.len() as int, vars@.len() as int);
        }
        Ok((np, idx))
    } else {
        Err(ParseError::UnexpectedByte { pos: p0 })
    }
}

/// Appending a childless node and growing the variable table keeps every
/// pattern node well formed.
proof fn lemma_pat_wf_extend(before: Seq<PNode>, now: Seq<PNode>, nv0: int, nv1: int)
    requires
        nv0 <= nv1,
        now.len() == before.len() + 1,
        forall|i: int| 0 <= i < before.len() ==> now[i] == before[i],
        forall|i: int| 0 <= i < before.len() ==> #[trigger] pat_node_wf(pnodes_view(before), i, nv0),
        pnodes_view(now)[now.len() - 1].children.len() == 0,
        match pnodes_view(now)[now.len() - 1].op {
            POpV::Var(v) => 0 <= v < nv1,
            POpV::Plain(op) => arity_ok(op, 0),
        },
    ensures
        forall|i: int| 0 <= i < now.len() ==> #[trigger] pat_node_wf(pnodes_view(now), i, nv1),
{
    let bv = pnodes_view(before);
    let nv = pnodes_view(now);
    assert forall|i: int| 0 <= i < now.len() implies #[trigger] pat_node_wf(nv, i, nv1) by {
        if i < before.len() {
            assert(pat_node_wf(bv, i, nv0));
            assert(nv[i] == bv[i]);
            assert forall|j: int|
                0 <= j < nv[i].children.len() implies (#[trigger] nv[i].children[j] as int) < i by {
                assert((bv[i].children[j] as int) < i);
            }
        }
    }
}

/// Parses a whole byte string as one pattern, sharing the rule's variable
/// table; trailing content other than whitespace is an error.
pub fn parse_pattern(s: &Vec<u8>, vars: &mut Vec<Vec<u8>>) -> (r: Result<Pattern, ParseError>)
    requires
        old(vars)@.len() + s@.len() < usize::MAX,
    ensures
        old(vars)@.len() <= final(vars)@.len() <= old(vars)@.len() + s@.len(),
        forall|i: int| 0 <= i < old(vars)@.len() ==> final(vars)@[i] == old(vars)@[i],
        r is Ok ==> ({
            &&& r->Ok_0.wf()
            &&& r->Ok_0.nvars as int == final(vars)@.len()
        }),
{
    let mut out: Vec<PNode> = Vec::new();
    match parse_pattern_into(s, 0, &mut out, vars) {
        Ok((np, idx)) => {
            let rest = crate::sexp::skip_ws(s, np);
            if rest < s.len() {
                return Err(ParseError::TrailingInput { pos: rest });
            }
            if idx != out.len() - 1 {
                return Err(ParseError::TrailingInput { pos: np });
            }
            Ok(Pattern { nodes: out, nvars: vars.len() })
        },
        Err(e) => Err(e),
    }
}

} // verus!
