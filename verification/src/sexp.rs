//! Parsing and printing of expressions in s-expression form.
//!
//! The grammar:
//!
//! ```text
//! expr   ::= atom | list
//! list   ::= '(' head expr* ')'
//! head   ::= '&' | '|' | '!' | 'module' | 'let' | 'input' | 'output' | symbol
//! atom   ::= integer | symbol
//! symbol ::= [A-Za-z_][A-Za-z0-9_]*
//! ```
//!
//! A head symbol with children produces a `Gate` node; a bare symbol produces
//! `Symbol`; integers produce `Num`. Whitespace is insignificant.

use vstd::prelude::*;
use crate::expr::BooleanExpression;
use crate::expr::Node;
use crate::expr::Op;
use crate::expr::OpV;
use crate::expr::arity_ok;
use crate::expr::expr_nodes_wf;
use crate::expr::nodes_view;

verus! {

/// Why parsing failed, with the byte offset at which it did.
#[derive(Debug)]
pub enum ParseError {
    /// Input ended where more was expected.
    UnexpectedEnd { pos: usize },
    /// A byte that fits no grammar rule at this point.
    UnexpectedByte { pos: usize },
    /// An integer literal too large for a 32-bit value.
    IntOutOfRange { pos: usize },
    /// An operator applied to the wrong number of children.
    WrongArity { pos: usize },
    /// Input continued after the expression ended.
    TrailingInput { pos: usize },
}

/// Whitespace bytes.
pub open spec fn is_ws(b: u8) -> bool {
    b == 32 || b == 9 || b == 10 || b == 13
}

/// Bytes that may start a symbol.
pub open spec fn is_sym_start(b: u8) -> bool {
    (97 <= b <= 122) || (65 <= b <= 90) || b == 95
}

/// Bytes that may continue a symbol.
pub open spec fn is_sym_char(b: u8) -> bool {
    is_sym_start(b) || (48 <= b <= 57)
}

/// Decimal digit bytes.
pub open spec fn is_digit(b: u8) -> bool {
    48 <= b <= 57
}

pub fn ws(b: u8) -> (r: bool)
    ensures
        r == is_ws(b),
{
    b == 32 || b == 9 || b == 10 || b == 13
}

pub fn sym_start(b: u8) -> (r: bool)
    ensures
        r == is_sym_start(b),
{
    (97 <= b && b <= 122) || (65 <= b && b <= 90) || b == 95
}

pub fn sym_char(b: u8) -> (r: bool)
    ensures
        r == is_sym_char(b),
{
    sym_start(b) || (48 <= b && b <= 57)
}

pub fn digit(b: u8) -> (r: bool)
    ensures
        r == is_digit(b),
{
    48 <= b && b <= 57
}

/// Advances past whitespace.
pub fn skip_ws(s: &Vec<u8>, pos: usize) -> (r: usize)
    requires
        pos <= s@.len(),
    ensures
        pos <= r <= s@.len(),
        r < s@.len() ==> !is_ws(s@[r as int]),
        forall|q: int| pos <= q < r ==> is_ws(#[trigger] s@[q]),
{
    let mut p = pos;
    while p < s.len() && ws(s[p])
        invariant
            pos <= p <= s@.len(),
            forall|q: int| pos <= q < p ==> is_ws(#[trigger] s@[q]),
        decreases s@.len() - p,
    {
        p = p + 1;
    }
    p
}

/// Reads a symbol starting at `pos`.
pub fn read_symbol(s: &Vec<u8>, pos: usize) -> (r: (Vec<u8>, usize))
    requires
        pos < s@.len(),
        is_sym_start(s@[pos as int]),
    ensures
        pos < r.1 <= s@.len(),
        r.0@.len() > 0,
        r.0@ == s@.subrange(pos as int, r.1 as int),
        r.1 < s@.len() ==> !is_sym_char(s@[r.1 as int]),
        forall|q: int| pos < q < r.1 ==> is_sym_char(#[trigger] s@[q]),
{
    let n = s.len();
    let mut name: Vec<u8> = Vec::new();
    name.push(s[pos]);
    let mut p = pos + 1;
    while p < s.len() && sym_char(s[p])
        invariant
            pos < p <= s@.len(),
            name@.len() > 0,
            name@ =~= s@.subrange(pos as int, p as int),
            forall|q: int| pos < q < p ==> is_sym_char(#[trigger] s@[q]),
        decreases s@.len() - p,
    {
        name.push(s[p]);
        proof {
            assert(name@ =~= s@.subrange(pos as int, p as int + 1));
        }
        p = p + 1;
    }
    (name, p)
}

/// The numeric value of a string of decimal digit bytes.
pub open spec fn digits_value(ds: Seq<u8>) -> int
    decreases ds.len(),
{
    if ds.len() == 0 {
        0
    } else {
        digits_value(ds.drop_last()) * 10 + (ds.last() - 48)
    }
}

/// Reads an integer literal (optionally negative) starting at `pos`: the
/// longest run of digits, whose value must fit a 32-bit integer.
pub fn read_int(s: &Vec<u8>, pos: usize) -> (r: Result<(i32, usize), ParseError>)
    requires
        pos < s@.len(),
        is_digit(s@[pos as int]) || s@[pos as int] == 45,
    ensures
        r is Ok ==> ({
            let (v, p) = r->Ok_0;
            let start = if s@[pos as int] == 45 {
                pos + 1
            } else {
                pos as int
            };
            &&& pos < p <= s@.len()
            &&& start < p as int
            &&& (forall|q: int| start <= q < p as int ==> is_digit(#[trigger] s@[q]))
            &&& ((p as int) < s@.len() ==> !is_digit(s@[p as int]))
            &&& v as int == (if s@[pos as int] == 45 {
                -digits_value(s@.subrange(start, p as int))
            } else {
                digits_value(s@.subrange(start, p as int))
            })
        }),
{
    let n = s.len();
    let neg = s[pos] == 45;
    let mut p = if neg {
        pos + 1
    } else {
        pos
    };
    let ghost start = p as int;
    if p >= n || !digit(s[p]) {
        return Err(ParseError::UnexpectedByte { pos: p });
    }
    let mut acc: u64 = (s[p] - 48) as u64;
    p = p + 1;
    proof {
        assert(digits_value(Seq::<u8>::empty()) == 0);
        assert(s@.subrange(start, p as int).drop_last() =~= Seq::<u8>::empty());
        assert(acc as int == digits_value(s@.subrange(start, p as int)));
    }
    while p < n && digit(s[p])
        invariant
            pos < p <= n,
            0 <= start < p as int,
            n == s@.len(),
            acc <= 2147483648,
            forall|q: int| start <= q < p as int ==> is_digit(#[trigger] s@[q]),
            acc as int == digits_value(s@.subrange(start, p as int)),
        decreases s@.len() - p,
    {
        let ghost before = s@.subrange(start, p as int);
        acc = acc * 10 + ((s[p] - 48) as u64);
        if acc > 2147483648 {
            return Err(ParseError::IntOutOfRange { pos });
        }
        p = p + 1;
        proof {
            let now = s@.subrange(start, p as int);
            assert(now.drop_last() =~= before);
            assert(now.last() == s@[p as int - 1]);
        }
    }
    proof {
        assert(start == (if s@[pos as int] == 45 { pos + 1 } else { pos as int }));
    }
    if neg {
        Ok((((0i64 - (acc as i64)) as i32), p))
    } else {
        if acc == 2147483648 {
            return Err(ParseError::IntOutOfRange { pos });
        }
        Ok(((acc as i32), p))
    }
}

/// The decimal digits of a value read back as that value: the numeral round
/// trip. The digits are digit bytes, and a positive value has at least one.
pub proof fn lemma_dec_digits_value(v: nat)
    ensures
        digits_value(dec_digits(v)) == v,
        forall|q: int| 0 <= q < dec_digits(v).len() ==> is_digit(#[trigger] dec_digits(v)[q]),
        v > 0 ==> dec_digits(v).len() > 0,
        v > 0 ==> dec_digits(v)[0] != 48,
    decreases v,
{
    if v > 0 {
        lemma_dec_digits_value(v / 10);
        let ds = dec_digits(v);
        assert(ds.drop_last() =~= dec_digits(v / 10));
        assert(ds.last() == ((v % 10) + 48) as u8);
        assert forall|q: int| 0 <= q < ds.len() implies is_digit(#[trigger] ds[q]) by {
            if q < ds.len() - 1 {
                assert(ds[q] == dec_digits(v / 10)[q]);
            }
        }
        if v / 10 == 0 {
            assert(ds.len() == 1);
            assert(v % 10 != 0) by {
                assert(v == (v / 10) * 10 + v % 10);
            }
        } else {
            assert(ds[0] == dec_digits(v / 10)[0]);
        }
    }
}

/// Whether `count` children fit the operator.
fn arity_check(op: &Op, count: usize) -> (r: bool)
    ensures
        r == arity_ok(op@, count as int),
{
    match op {
        Op::Module => true,
        Op::Let => count == 2,
        Op::And => count == 2,
        Op::Or => count == 2,
        Op::Not => count == 1,
        Op::Input => count == 2,
        Op::Output => count == 1,
        Op::Num(_) => count == 0,
        Op::Symbol(_) => count == 0,
        Op::Gate(_) => true,
    }
}

/// The bytes of `module`.
pub open spec fn kw_module() -> Seq<u8> {
    seq![109u8, 111u8, 100u8, 117u8, 108u8, 101u8]
}

/// The bytes of `let`.
pub open spec fn kw_let() -> Seq<u8> {
    seq![108u8, 101u8, 116u8]
}

/// The bytes of `input`.
pub open spec fn kw_input() -> Seq<u8> {
    seq![105u8, 110u8, 112u8, 117u8, 116u8]
}

/// The bytes of `output`.
pub open spec fn kw_output() -> Seq<u8> {
    seq![111u8, 117u8, 116u8, 112u8, 117u8, 116u8]
}

fn is_kw_module(name: &Vec<u8>) -> (r: bool)
    ensures
        r == (name@ == kw_module()),
{
    let r = name.len() == 6 && name[0] == 109 && name[1] == 111 && name[2] == 100 && name[3] == 117
        && name[4] == 108 && name[5] == 101;
    proof {
        if r {
            assert(name@ =~= kw_module());
        }
    }
    r
}

fn is_kw_let(name: &Vec<u8>) -> (r: bool)
    ensures
        r == (name@ == kw_let()),
{
    let r = name.len() == 3 && name[0] == 108 && name[1] == 101 && name[2] == 116;
    proof {
        if r {
            assert(name@ =~= kw_let());
        }
    }
    r
}

fn is_kw_input(name: &Vec<u8>) -> (r: bool)
    ensures
        r == (name@ == kw_input()),
{
    let r = name.len() == 5 && name[0] == 105 && name[1] == 110 && name[2] == 112 && name[3] == 117
        && name[4] == 116;
    proof {
        if r {
            assert(name@ =~= kw_input());
        }
    }
    r
}

fn is_kw_output(name: &Vec<u8>) -> (r: bool)
    ensures
        r == (name@ == kw_output()),
{
    let r = name.len() == 6 && name[0] == 111 && name[1] == 117 && name[2] == 116 && name[3] == 112
        && name[4] == 117 && name[5] == 116;
    proof {
        if r {
            assert(name@ =~= kw_output());
        }
    }
    r
}

/// The head keywords, in operator form. A head that is none of the keywords
/// names a gate.
pub fn head_op(name: Vec<u8>) -> (r: Op)
    ensures
        r@ == (if name@ == kw_module() {
            OpV::Module
        } else if name@ == kw_let() {
            OpV::Let
        } else if name@ == kw_input() {
            OpV::Input
        } else if name@ == kw_output() {
            OpV::Output
        } else {
            OpV::Gate(name@)
        }),
{
    if is_kw_module(&name) {
        Op::Module
    } else if is_kw_let(&name) {
        Op::Let
    } else if is_kw_input(&name) {
        Op::Input
    } else if is_kw_output(&name) {
        Op::Output
    } else {
        Op::Gate(name)
    }
}

/// Parses one expression starting at `pos`, appending its nodes to `out`
/// (children first); returns the next position and the root node's index.
pub fn parse_into(s: &Vec<u8>, pos: usize, out: &mut Vec<Node>) -> (r: Result<
    (usize, usize),
    ParseError,
>)
    requires
        pos <= s@.len(),
        expr_nodes_wf(nodes_view(old(out)@)),
    ensures
        expr_nodes_wf(nodes_view(final(out)@)),
        old(out)@.is_prefix_of(final(out)@),
        r is Ok ==> ({
            &&& pos < r->Ok_0.0 <= s@.len()
            &&& old(out)@.len() <= (r->Ok_0.1 as int) < final(out)@.len()
        }),
    decreases s@.len() - pos,
{
    let p0 = skip_ws(s, pos);
    if p0 >= s.len() {
        return Err(ParseError::UnexpectedEnd { pos: p0 });
    }
    let b = s[p0];
    if b == 40 {
        // a list: '(' head expr* ')'
        let hp = skip_ws(s, p0 + 1);
        if hp >= s.len() {
            return Err(ParseError::UnexpectedEnd { pos: hp });
        }
        let hb = s[hp];
        let op: Op;
        let mut p: usize;
        if hb == 38 {
            op = Op::And;
            p = hp + 1;
        } else if hb == 124 {
            op = Op::Or;
            p = hp + 1;
        } else if hb == 33 {
            op = Op::Not;
            p = hp + 1;
        } else if sym_start(hb) {
            let (name, np) = read_symbol(s, hp);
            op = head_op(name);
            p = np;
        } else {
            return Err(ParseError::UnexpectedByte { pos: hp });
        }
        let mut children: Vec<usize> = Vec::new();
        loop
            invariant
                pos <= p0 < s@.len(),
                p0 < p <= s@.len(),
                expr_nodes_wf(nodes_view(out@)),
                old(out)@.is_prefix_of(out@),
                forall|q: int| 0 <= q < children@.len() ==> (#[trigger] children@[q] as int) < out@.len(),
            ensures
                pos <= p0 < s@.len(),
                p0 < p <= s@.len(),
                expr_nodes_wf(nodes_view(out@)),
                old(out)@.is_prefix_of(out@),
                forall|q: int| 0 <= q < children@.len() ==> (#[trigger] children@[q] as int) < out@.len(),
                p < s@.len() && s@[p as int] == 41,
            decreases s@.len() - p,
        {
            let q = skip_ws(s, p);
            if q >= s.len() {
                return Err(ParseError::UnexpectedEnd { pos: q });
            }
            if s[q] == 41 {
                p = q;
                break;
            }
            let ghost out_before = nodes_view(out@);
            match parse_into(s, q, out) {
                Ok((np, idx)) => {
                    proof {
                        crate::expr::lemma_term_eq_refl(nodes_view(out@), idx as int);
                    }
                    children.push(idx);
                    p = np;
                },
                Err(e) => {
                    return Err(e);
                },
            }
        }
        // consume ')'
        let after = p + 1;
        if !arity_check(&op, children.len()) {
            return Err(ParseError::WrongArity { pos: p0 });
        }
        let idx = out.len();
        let ghost before = nodes_view(out@);
        out.push(Node { op, children });
        proof {
            let now = nodes_view(out@);
            assert(now =~= before.push(out@[idx as int]@));
            assert forall|t: int| 0 <= t < now.len() implies #[trigger] crate::expr::expr_node_wf(
                now,
                t,
            ) by {
                if t < idx as int {
                    assert(crate::expr::expr_node_wf(before, t));
                    assert(now[t] == before[t]);
                    assert forall|j: int|
                        0 <= j < now[t].children.len() implies (#[trigger] now[t].children[j]) < t by {
                        assert(before[t].children[j] < t);
                    }
                }
            }
        }
        Ok((after, idx))
    } else if digit(b) || b == 45 {
        match read_int(s, p0) {
            Ok((v, np)) => {
                let idx = out.len();
                let ghost before = nodes_view(out@);
                out.push(Node { op: Op::Num(v), children: Vec::new() });
                proof {
                    let now = nodes_view(out@);
                    assert forall|t: int| 0 <= t < now.len() implies
                        #[trigger] crate::expr::expr_node_wf(now, t) by {
                        if t < idx as int {
                            assert(crate::expr::expr_node_wf(before, t));
                            assert(now[t] == before[t]);
                            assert forall|j: int|
                                0 <= j < now[t].children.len() implies (#[trigger] now[t].children[
                            j]) < t by {
                                assert(before[t].children[j] < t);
                            }
                        }
                    }
                }
                Ok((np, idx))
            },
            Err(e) => Err(e),
        }
    } else if sym_start(b) {
        let (name, np) = read_symbol(s, p0);
        let idx = out.len();
        let ghost before = nodes_view(out@);
        out.push(Node { op: Op::Symbol(name), children: Vec::new() });
        proof {
            let now = nodes_view(out@);
            assert forall|t: int| 0 <= t < now.len() implies #[trigger] crate::expr::expr_node_wf(
                now,
                t,
            ) by {
                if t < idx as int {
                    assert(crate::expr::expr_node_wf(before, t));
                    assert(now[t] == before[t]);
                    assert forall|j: int|
                        0 <= j < now[t].children.len() implies (#[trigger] now[t].children[j]) < t by {
                        assert(before[t].children[j] < t);
                    }
                }
            }
        }
        Ok((np, idx))
    } else {
        Err(ParseError::UnexpectedByte { pos: p0 })
    }
}

/// Parses a whole byte string as one expression; trailing content other than
/// whitespace is an error.
pub fn parse(s: &Vec<u8>) -> (r: Result<BooleanExpression, ParseError>)
    ensures
        r is Ok ==> r->Ok_0.wf() && (r->Ok_0.root() == r->Ok_0@.len() - 1),
{
    let mut out: Vec<Node> = Vec::new();
    match parse_into(s, 0, &mut out) {
        Ok((np, idx)) => {
            let rest = skip_ws(s, np);
            if rest < s.len() {
                return Err(ParseError::TrailingInput { pos: rest });
            }
            // the root must be the last node: parse_into appends it last
            if idx != out.len() - 1 {
                return Err(ParseError::TrailingInput { pos: np });
            }
            Ok(BooleanExpression { nodes: out })
        },
        Err(e) => Err(e),
    }
}

/// The decimal digits of `v`, most significant first (empty for zero).
pub open spec fn dec_digits(v: nat) -> Seq<u8>
    decreases v,
{
    if v == 0 {
        Seq::empty()
    } else {
        dec_digits(v / 10).push(((v % 10) + 48) as u8)
    }
}

/// The decimal form of an integer.
pub open spec fn printed_int(v: int) -> Seq<u8> {
    if v == 0 {
        seq![48u8]
    } else if v > 0 {
        dec_digits(v as nat)
    } else {
        seq![45u8] + dec_digits((-v) as nat)
    }
}

/// The head spelling of an operator.
pub open spec fn head_bytes(op: OpV) -> Seq<u8> {
    match op {
        OpV::Module => kw_module(),
        OpV::Let => kw_let(),
        OpV::And => seq![38u8],
        OpV::Or => seq![124u8],
        OpV::Not => seq![33u8],
        OpV::Input => kw_input(),
        OpV::Output => kw_output(),
        OpV::Num(v) => printed_int(v),
        OpV::Symbol(name) => name,
        OpV::Gate(name) => name,
    }
}

/// Whether the node prints as a bare atom.
pub open spec fn prints_as_atom(s: Seq<crate::expr::NodeV>, i: int) -> bool {
    s[i].children.len() == 0 && (s[i].op is Num || s[i].op is Symbol)
}

/// The printed forms of the first `j` children of `s[i]`, each preceded by
/// one space.
pub open spec fn printed_children(s: Seq<crate::expr::NodeV>, i: int, j: int) -> Seq<u8>
    decreases i, 0int, j,
{
    if j <= 0 {
        Seq::empty()
    } else {
        printed_children(s, i, j - 1) + seq![32u8] + (if 0 <= i < s.len() && j
            <= s[i].children.len() && (s[i].children[j - 1] as int) < i {
            printed_at(s, s[i].children[j - 1] as int)
        } else {
            Seq::empty()
        })
    }
}

/// The printed form of the term rooted at `s[i]`: an atom's head alone, or
/// a parenthesized head followed by the children.
pub open spec fn printed_at(s: Seq<crate::expr::NodeV>, i: int) -> Seq<u8>
    decreases i, 1int, 0int,
{
    if 0 <= i < s.len() {
        if prints_as_atom(s, i) {
            head_bytes(s[i].op)
        } else {
            seq![40u8] + head_bytes(s[i].op) + printed_children(
                s,
                i,
                s[i].children.len() as int,
            ) + seq![41u8]
        }
    } else {
        Seq::empty()
    }
}

/// Appends the decimal form of `v`.
fn push_int(out: &mut Vec<u8>, v: i32)
    ensures
        final(out)@ == old(out)@ + printed_int(v as int),
{
    let mut mag: u64 = if v < 0 {
        if v == -2147483648 {
            2147483648u64
        } else {
            (0 - v) as u64
        }
    } else {
        v as u64
    };
    let ghost m0 = mag as nat;
    if v < 0 {
        out.push(45);
    }
    let ghost out_head = out@;
    let mut digits: Vec<u8> = Vec::new();
    if mag == 0 {
        out.push(48);
        proof {
            assert(out@ =~= old(out)@ + printed_int(v as int));
        }
        return ;
    }
    while mag > 0
        invariant
            mag <= 2147483648,
            dec_digits(m0) =~= dec_digits(mag as nat) + digits@.reverse(),
        decreases mag,
    {
        let ghost dpre = digits@;
        let d = ((mag % 10) as u8) + 48;
        digits.push(d);
        mag = mag / 10;
        proof {
            assert(digits@ =~= dpre.push(d));
            assert(digits@.reverse() =~= seq![d] + dpre.reverse());
            assert(dec_digits(m0) =~= dec_digits(mag as nat) + digits@.reverse());
        }
    }
    proof {
        assert(dec_digits(m0) =~= digits@.reverse());
        assert(digits@.len() == dec_digits(m0).len());
        assert forall|q: int| 0 <= q < digits@.len() implies dec_digits(m0)[q] == digits@[digits@.len()
            - 1 - q] by {
            assert(dec_digits(m0)[q] == digits@.reverse()[q]);
        }
    }
    let n = digits.len();
    let mut i = n;
    while i > 0
        invariant
            i <= n,
            n == digits@.len(),
            n == dec_digits(m0).len(),
            forall|q: int|
                0 <= q < n ==> dec_digits(m0)[q] == digits@[n - 1 - q],
            out@ =~= out_head + dec_digits(m0).take(n - i),
        decreases i,
    {
        i = i - 1;
        out.push(digits[i]);
        proof {
            assert(out@ =~= out_head + dec_digits(m0).take(n - i));
        }
    }
    proof {
        assert(dec_digits(m0).take(n as int) =~= dec_digits(m0));
        if v > 0 {
            assert(out_head == old(out)@);
            assert(out@ =~= old(out)@ + printed_int(v as int));
        } else {
            assert(out_head =~= old(out)@ + seq![45u8]);
            assert(out@ =~= old(out)@ + printed_int(v as int));
        }
    }
}

/// Appends the head spelling of an operator.
fn push_head(out: &mut Vec<u8>, op: &Op)
    ensures
        final(out)@ == old(out)@ + head_bytes(op@),
{
    match op {
        Op::Module => {
            out.push(109);
            out.push(111);
            out.push(100);
            out.push(117);
            out.push(108);
            out.push(101);
            proof {
                assert(out@ =~= old(out)@ + kw_module());
            }
        },
        Op::Let => {
            out.push(108);
            out.push(101);
            out.push(116);
            proof {
                assert(out@ =~= old(out)@ + kw_let());
            }
        },
        Op::And => {
            out.push(38);
            proof {
                assert(out@ =~= old(out)@ + seq![38u8]);
            }
        },
        Op::Or => {
            out.push(124);
            proof {
                assert(out@ =~= old(out)@ + seq![124u8]);
            }
        },
        Op::Not => {
            out.push(33);
            proof {
                assert(out@ =~= old(out)@ + seq![33u8]);
            }
        },
        Op::Input => {
            out.push(105);
            out.push(110);
            out.push(112);
            out.push(117);
            out.push(116);
            proof {
                assert(out@ =~= old(out)@ + kw_input());
            }
        },
        Op::Output => {
            out.push(111);
            out.push(117);
            out.push(116);
            out.push(112);
            out.push(117);
            out.push(116);
            proof {
                assert(out@ =~= old(out)@ + kw_output());
            }
        },
        Op::Num(v) => push_int(out, *v),
        Op::Symbol(name) => {
            let mut i: usize = 0;
            while i < name.len()
                invariant
                    i <= name@.len(),
                    out@ =~= old(out)@ + name@.take(i as int),
                decreases name@.len() - i,
            {
                out.push(name[i]);
                proof {
                    assert(out@ =~= old(out)@ + name@.take(i as int + 1));
                }
                i = i + 1;
            }
            proof {
                assert(name@.take(name@.len() as int) =~= name@);
            }
        },
        Op::Gate(name) => {
            let mut i: usize = 0;
            while i < name.len()
                invariant
                    i <= name@.len(),
                    out@ =~= old(out)@ + name@.take(i as int),
                decreases name@.len() - i,
            {
                out.push(name[i]);
                proof {
                    assert(out@ =~= old(out)@ + name@.take(i as int + 1));
                }
                i = i + 1;
            }
            proof {
                assert(name@.take(name@.len() as int) =~= name@);
            }
        },
    }
}

/// Prints the subtree of `e` rooted at `i` into `out`.
fn print_into(e: &Vec<Node>, i: usize, out: &mut Vec<u8>)
    requires
        expr_nodes_wf(nodes_view(e@)),
        i < e@.len(),
    ensures
        final(out)@ == old(out)@ + printed_at(nodes_view(e@), i as int),
    decreases i,
{
    let ghost ev = nodes_view(e@);
    proof {
        assert(crate::expr::expr_node_wf(ev, i as int));
    }
    let nch = e[i].children.len();
    let is_atom = nch == 0 && match &e[i].op {
        Op::Num(_) => true,
        Op::Symbol(_) => true,
        _ => false,
    };
    if is_atom {
        push_head(out, &e[i].op);
        proof {
            assert(prints_as_atom(ev, i as int));
        }
        return ;
    }
    out.push(40);
    push_head(out, &e[i].op);
    let ghost out_head = out@;
    let mut j: usize = 0;
    while j < nch
        invariant
            j <= nch,
            ev == nodes_view(e@),
            nch == ev[i as int].children.len(),
            expr_nodes_wf(ev),
            i < e@.len(),
            out@ =~= out_head + printed_children(ev, i as int, j as int),
        decreases nch - j,
    {
        out.push(32);
        proof {
            assert(crate::expr::expr_node_wf(ev, i as int));
            assert((ev[i as int].children[j as int] as int) < i as int);
        }
        let ghost out_sp = out@;
        let c = e[i].children[j];
        print_into(e, c, out);
        proof {
            assert(out@ =~= out_head + printed_children(ev, i as int, j as int + 1));
        }
        j = j + 1;
    }
    out.push(41);
    proof {
        assert(!prints_as_atom(ev, i as int));
        assert(out@ =~= old(out)@ + printed_at(ev, i as int));
    }
}

/// Prints an expression in s-expression form: the textual grammar's one
/// canonical spelling of its term.
pub fn print_expr(e: &BooleanExpression) -> (r: Vec<u8>)
    requires
        e.wf(),
    ensures
        r@ == printed_at(e@, e.root()),
{
    let mut out: Vec<u8> = Vec::new();
    print_into(&e.nodes, e.root_idx(), &mut out);
    proof {
        assert(out@ =~= printed_at(e@, e.root()));
    }
    out
}

} // verus!
