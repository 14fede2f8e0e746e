//! Serialization of structure trees back to text, and the decimal
//! reading and writing of unsigned numbers that it rests on.

use vstd::prelude::*;

use crate::ast::{deep_view_seq, lemma_deep_view_seq, Expr, ExprS, Smiles};

verus! {

/// Whether a byte is an ASCII decimal digit.
pub open spec fn is_digit(b: u8) -> bool {
    48 <= b <= 57
}

/// The number written by a run of ASCII digits, most significant first.
pub open spec fn digits_value(s: Seq<u8>) -> nat
    decreases s.len(),
{
    if s.len() == 0 {
        0
    } else {
        digits_value(s.drop_last()) * 10 + (s.last() - 48) as nat
    }
}

/// The decimal text of a number: the shortest run of ASCII digits whose
/// value is `n`.
pub open spec fn dec_digits(n: nat) -> Seq<u8>
    decreases n,
{
    if n < 10 {
        seq![(n + 48) as u8]
    } else {
        dec_digits(n / 10).push((n % 10 + 48) as u8)
    }
}

/// The textual form of one node: atoms as `[symbol:map_number]`, bonds
/// and labels as their own text, branches parenthesized.
pub open spec fn ser_expr(e: ExprS) -> Seq<u8>
    decreases e, 0int,
{
    match e {
        ExprS::Atom(symbol, map_number) => seq![91u8] + symbol + seq![58u8] + dec_digits(
            map_number as nat,
        ) + seq![93u8],
        ExprS::Bond(symbol) => seq![symbol],
        ExprS::Label(digits) => digits,
        ExprS::Branch(children) => seq![40u8] + ser_exprs(children) + seq![41u8],
    }
}

/// The textual form of a sequence of nodes: each node's text
/// concatenated, with no other punctuation inserted.
pub open spec fn ser_exprs(es: Seq<ExprS>) -> Seq<u8>
    decreases es, 1int,
{
    if es.len() == 0 {
        Seq::empty()
    } else {
        ser_expr(es[0]) + ser_exprs(es.drop_first())
    }
}

/// Writes `n` in decimal.
pub fn to_dec(n: usize) -> (r: Vec<u8>)
    ensures
        r@ == dec_digits(n as nat),
    decreases n,
{
    if n < 10 {
        let mut r: Vec<u8> = Vec::new();
        r.push(n as u8 + 48);
        assert(r@ =~= dec_digits(n as nat));
        r
    } else {
        let mut r = to_dec(n / 10);
        r.push((n % 10) as u8 + 48);
        r
    }
}

/// Writes one node as text.
pub fn expr_text(e: &Expr) -> (r: Vec<u8>)
    ensures
        r@ == ser_expr(e.deep_view()),
    decreases e, 0int,
{
    match e {
        Expr::Atom(symbol, map_number) => {
            let mut r: Vec<u8> = Vec::new();
            r.push(91);
            let mut i: usize = 0;
            while i < symbol.len()
                invariant
                    i <= symbol@.len(),
                    r@ == seq![91u8] + symbol@.subrange(0, i as int),
                decreases symbol@.len() - i,
            {
                r.push(symbol[i]);
                i = i + 1;
                assert(r@ =~= seq![91u8] + symbol@.subrange(0, i as int));
            }
            assert(symbol@.subrange(0, symbol@.len() as int) =~= symbol@);
            r.push(58);
            let mut digits = to_dec(*map_number);
            r.append(&mut digits);
            r.push(93);
            assert(r@ =~= ser_expr(e.deep_view()));
            r
        },
        Expr::Bond(symbol) => {
            let mut r: Vec<u8> = Vec::new();
            r.push(*symbol);
            assert(r@ =~= ser_expr(e.deep_view()));
            r
        },
        Expr::Label(digits) => {
            let mut r: Vec<u8> = Vec::new();
            let mut i: usize = 0;
            while i < digits.len()
                invariant
                    i <= digits@.len(),
                    r@ == digits@.subrange(0, i as int),
                decreases digits@.len() - i,
            {
                r.push(digits[i]);
                i = i + 1;
                assert(r@ =~= digits@.subrange(0, i as int));
            }
            assert(r@ =~= ser_expr(e.deep_view()));
            r
        },
        Expr::Branch(children) => {
            let mut r: Vec<u8> = Vec::new();
            r.push(40);
            let mut inner = exprs_text(children);
            r.append(&mut inner);
            r.push(41);
            assert(r@ =~= ser_expr(e.deep_view()));
            r
        },
    }
}

/// Writes a sequence of nodes as text.
pub fn exprs_text(es: &Vec<Expr>) -> (r: Vec<u8>)
    ensures
        r@ == ser_exprs(deep_view_seq(es@)),
    decreases es, 1int,
{
    let mut r: Vec<u8> = Vec::new();
    let mut i: usize = 0;
    proof {
        lemma_deep_view_seq(es@);
    }
    while i < es.len()
        invariant
            i <= es@.len(),
            r@ == ser_exprs(deep_view_seq(es@).subrange(0, i as int)),
            deep_view_seq(es@).len() == es@.len(),
            forall|j: int|
                0 <= j < es@.len() ==> deep_view_seq(es@)[j] == #[trigger] es@[j].deep_view(),
        decreases es@.len() - i,
    {
        let mut one = expr_text(&es[i]);
        r.append(&mut one);
        i = i + 1;
        proof {
            lemma_ser_exprs_take_step(deep_view_seq(es@), i as int);
        }
    }
    assert(deep_view_seq(es@).subrange(0, es@.len() as int) =~= deep_view_seq(es@));
    r
}

/// Serializing one more node appends that node's text.
proof fn lemma_ser_exprs_take_step(es: Seq<ExprS>, i: int)
    requires
        0 < i <= es.len(),
    ensures
        ser_exprs(es.subrange(0, i)) == ser_exprs(es.subrange(0, i - 1)) + ser_expr(es[i - 1]),
    decreases i,
{
    if i == 1 {
        assert(es.subrange(0, 1).drop_first() =~= Seq::<ExprS>::empty());
        assert(es.subrange(0, 0) =~= Seq::<ExprS>::empty());
        assert(ser_exprs(es.subrange(0, 1)) == ser_expr(es[0]) + ser_exprs(
            es.subrange(0, 1).drop_first(),
        ));
        assert(ser_exprs(es.subrange(0, 1)) =~= ser_exprs(es.subrange(0, 0)) + ser_expr(es[0]));
    } else {
        lemma_ser_exprs_take_step(es.drop_first(), i - 1);
        assert(es.subrange(0, i).drop_first() =~= es.drop_first().subrange(0, i - 1));
        assert(es.subrange(0, i - 1).drop_first() =~= es.drop_first().subrange(0, i - 2));
        assert(es.drop_first()[i - 2] == es[i - 1]);
        assert(ser_exprs(es.subrange(0, i)) == ser_expr(es[0]) + ser_exprs(
            es.drop_first().subrange(0, i - 1),
        ));
        assert(ser_exprs(es.subrange(0, i - 1)) == ser_expr(es[0]) + ser_exprs(
            es.drop_first().subrange(0, i - 2),
        ));
        assert(ser_exprs(es.subrange(0, i)) =~= ser_exprs(es.subrange(0, i - 1)) + ser_expr(
            es[i - 1],
        ));
    }
}

impl Smiles {
    /// The exact textual re-serialization of the structure.
    pub fn to_text(&self) -> (r: Vec<u8>)
        ensures
            r@ == ser_exprs(self@),
    {
        exprs_text(&self.exprs)
    }
}

} // verus!

// === Whole output lines ===

verus! {

/// The text of the auxiliary index list: the indices in decimal,
/// joined by a literal comma and space.
pub open spec fn aux_text(aux: Seq<usize>) -> Seq<u8>
    decreases aux.len(),
{
    if aux.len() == 0 {
        Seq::empty()
    } else if aux.len() == 1 {
        dec_digits(aux[0] as nat)
    } else {
        dec_digits(aux[0] as nat) + seq![44u8, 32u8] + aux_text(aux.drop_first())
    }
}

/// The text of one output line: identifier, space, the re-serialized
/// structure, space, and the parenthesized auxiliary index list.
pub open spec fn render_line_spec(identifier: Seq<u8>, es: Seq<ExprS>, aux: Seq<usize>) -> Seq<
    u8,
> {
    identifier + seq![32u8] + ser_exprs(es) + seq![32u8, 40u8] + aux_text(aux) + seq![41u8]
}

/// Copies a byte vector.
pub fn copy_bytes(v: &Vec<u8>) -> (r: Vec<u8>)
    ensures
        r@ == v@,
{
    let mut r: Vec<u8> = Vec::new();
    let mut j: usize = 0;
    while j < v.len()
        invariant
            j <= v@.len(),
            r@ == v@.subrange(0, j as int),
        decreases v@.len() - j,
    {
        r.push(v[j]);
        j = j + 1;
        assert(r@ =~= v@.subrange(0, j as int));
    }
    assert(v@.subrange(0, v@.len() as int) =~= v@);
    r
}

/// Writes the auxiliary indices from position `i` on.
fn aux_text_from(aux: &Vec<usize>, i: usize) -> (r: Vec<u8>)
    requires
        i <= aux@.len(),
    ensures
        r@ == aux_text(aux@.subrange(i as int, aux@.len() as int)),
    decreases aux@.len() - i,
{
    let ghost tail = aux@.subrange(i as int, aux@.len() as int);
    if i >= aux.len() {
        let r: Vec<u8> = Vec::new();
        assert(r@ =~= aux_text(tail));
        return r;
    }
    assert(tail[0] == aux@[i as int]);
    let mut r = to_dec(aux[i]);
    if i + 1 < aux.len() {
        r.push(44);
        r.push(32);
        let mut rest = aux_text_from(aux, i + 1);
        r.append(&mut rest);
        proof {
            assert(tail.drop_first() =~= aux@.subrange(i as int + 1, aux@.len() as int));
            assert(r@ =~= aux_text(tail));
        }
    } else {
        assert(tail.len() == 1);
        assert(r@ =~= aux_text(tail));
    }
    r
}

/// Writes one output line: identifier, space, the structure's text,
/// space, and the parenthesized auxiliary index list with a literal
/// comma-space between indices.
pub fn render_line(identifier: &Vec<u8>, sm: &Smiles, aux: &Vec<usize>) -> (r: Vec<u8>)
    ensures
        r@ == render_line_spec(identifier@, sm@, aux@),
{
    let mut r = copy_bytes(identifier);
    r.push(32);
    let mut st = sm.to_text();
    r.append(&mut st);
    r.push(32);
    r.push(40);
    let mut at = aux_text_from(aux, 0);
    r.append(&mut at);
    r.push(41);
    proof {
        assert(aux@.subrange(0, aux@.len() as int) =~= aux@);
        assert(r@ =~= render_line_spec(identifier@, sm@, aux@));
    }
    r
}

} // verus!
