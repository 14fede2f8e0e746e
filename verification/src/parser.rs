//! The grammar and its parser.
//!
//! A line is `identifier SPACE+ structure SPACE+ "(" index_list ")"`.
//! The structure is a run of items; an item is an atom `[element:digits]`,
//! a single-character bond, a bare ring-closure label of digits, or a
//! parenthesized branch holding a structure again. At each position the
//! item kinds are told apart by their first byte, atoms first; the run
//! ends at the first position where no kind matches.
//!
//! The grammar is stated as total specification functions over byte
//! sequences (`sp_line` and its helpers); the executable parser returns
//! exactly what they describe.

use vstd::prelude::*;

use crate::ast::{deep_view_seq, lemma_deep_view_seq, Expr, ExprS, Smiles};
use crate::text::{digits_value, is_digit};

verus! {

/// Whether a byte is an ASCII space or tab, the separators between the
/// fields of a line.
pub open spec fn is_space(b: u8) -> bool {
    b == 32 || b == 9
}

/// Whether a byte is an ASCII letter or digit, the alphabet of the
/// leading identifier.
pub open spec fn is_alnum(b: u8) -> bool {
    (48 <= b <= 57) || (65 <= b <= 90) || (97 <= b <= 122)
}

/// Whether a byte is one of the eight bond symbols
/// `. - = # $ : / \`.
pub open spec fn is_bond(b: u8) -> bool {
    b == 46 || b == 45 || b == 61 || b == 35 || b == 36 || b == 58 || b == 47 || b == 92
}

/// Whether a byte can stand in an element symbol: anything but the `:`
/// that separates the symbol from the map number.
pub open spec fn is_element_byte(b: u8) -> bool {
    b != 58
}

/// The length of the run of ASCII digits starting at `i`.
pub open spec fn digits_run_len(s: Seq<u8>, i: int) -> nat
    decreases s.len() - i when i <= s.len()
{
    if i < 0 || i >= s.len() || !is_digit(s[i]) {
        0
    } else {
        1 + digits_run_len(s, i + 1)
    }
}

/// The length of the run of element-symbol bytes starting at `i`.
pub open spec fn element_run_len(s: Seq<u8>, i: int) -> nat
    decreases s.len() - i when i <= s.len()
{
    if i < 0 || i >= s.len() || !is_element_byte(s[i]) {
        0
    } else {
        1 + element_run_len(s, i + 1)
    }
}

/// The length of the run of spaces and tabs starting at `i`.
pub open spec fn space_run_len(s: Seq<u8>, i: int) -> nat
    decreases s.len() - i when i <= s.len()
{
    if i < 0 || i >= s.len() || !is_space(s[i]) {
        0
    } else {
        1 + space_run_len(s, i + 1)
    }
}

/// The length of the run of letters and digits starting at `i`.
pub open spec fn alnum_run_len(s: Seq<u8>, i: int) -> nat
    decreases s.len() - i when i <= s.len()
{
    if i < 0 || i >= s.len() || !is_alnum(s[i]) {
        0
    } else {
        1 + alnum_run_len(s, i + 1)
    }
}

/// Why a line is rejected.
#[derive(Debug, Clone, Copy, PartialEq, Eq, Structural)]
pub enum ParseError {
    /// The grammar does not match; `pos` is where the unconsumed
    /// remainder of the line starts.
    Malformed { pos: usize },
    /// A bracket or parenthesis was opened but the input ended before
    /// it was closed.
    Incomplete,
    /// A digit run names a number beyond the native unsigned range.
    NumericOverflow,
}

/// What parsing one item at a position yields: a node and the position
/// after it, no item at this position, or a hard rejection.
pub enum ItemRes {
    Match(ExprS, int),
    NoMatch,
    Abort(ParseError),
}

/// What parsing a run of items yields: the nodes (possibly none) and
/// the position where the run ends, or a hard rejection.
pub enum ItemsRes {
    Parsed(Seq<ExprS>, int),
    Abort(ParseError),
}

/// What parsing the auxiliary index list yields: the indices and the
/// position after the closing parenthesis, or a hard rejection.
pub enum AuxRes {
    Parsed(Seq<usize>, int),
    Abort(ParseError),
}

/// A parsed line, as mathematical data.
pub struct LineS {
    /// The leading alphanumeric token.
    pub identifier: Seq<u8>,
    /// The structure tree.
    pub exprs: Seq<ExprS>,
    /// The auxiliary atom indices.
    pub aux: Seq<usize>,
}

/// Parses one atom `[element:digits]`; `i` points at the `[`.
pub open spec fn sp_atom(s: Seq<u8>, i: int) -> ItemRes {
    if i + 1 >= s.len() {
        ItemRes::Abort(ParseError::Incomplete)
    } else if !is_element_byte(s[i + 1]) {
        ItemRes::Abort(ParseError::Malformed { pos: (i + 1) as usize })
    } else {
        let e = i + 1 + element_run_len(s, i + 1);
        if e >= s.len() {
            ItemRes::Abort(ParseError::Incomplete)
        } else {
            let d = e + 1;
            if d >= s.len() {
                ItemRes::Abort(ParseError::Incomplete)
            } else if !is_digit(s[d]) {
                ItemRes::Abort(ParseError::Malformed { pos: d as usize })
            } else {
                let dend = d + digits_run_len(s, d);
                if dend >= s.len() {
                    ItemRes::Abort(ParseError::Incomplete)
                } else if s[dend] != 93 {
                    ItemRes::Abort(ParseError::Malformed { pos: dend as usize })
                } else if digits_value(s.subrange(d, dend)) > usize::MAX as nat {
                    ItemRes::Abort(ParseError::NumericOverflow)
                } else {
                    ItemRes::Match(
                        ExprS::Atom(
                            s.subrange(i + 1, e),
                            digits_value(s.subrange(d, dend)) as usize,
                        ),
                        dend + 1,
                    )
                }
            }
        }
    }
}

/// Parses one item at `i`: an atom at `[`, a bond at a bond symbol, a
/// label at a digit, a branch at `(`; anything else is no item.
pub open spec fn sp_item(s: Seq<u8>, i: int) -> ItemRes
    decreases s.len() - i, 0int,
        when 0 <= i <= s.len()
{
    if i >= s.len() {
        ItemRes::NoMatch
    } else if s[i] == 91 {
        sp_atom(s, i)
    } else if is_bond(s[i]) {
        ItemRes::Match(ExprS::Bond(s[i]), i + 1)
    } else if is_digit(s[i]) {
        ItemRes::Match(
            ExprS::Label(s.subrange(i, i + digits_run_len(s, i))),
            i + digits_run_len(s, i),
        )
    } else if s[i] == 40 {
        match sp_items(s, i + 1) {
            ItemsRes::Abort(e) => ItemRes::Abort(e),
            ItemsRes::Parsed(children, j) => {
                if j >= s.len() {
                    ItemRes::Abort(ParseError::Incomplete)
                } else if children.len() == 0 || s[j] != 41 {
                    ItemRes::Abort(ParseError::Malformed { pos: j as usize })
                } else {
                    ItemRes::Match(ExprS::Branch(children), j + 1)
                }
            },
        }
    } else {
        ItemRes::NoMatch
    }
}

/// Parses the longest run of items from `i` on.
pub open spec fn sp_items(s: Seq<u8>, i: int) -> ItemsRes
    decreases s.len() - i, 1int,
        when 0 <= i <= s.len()
{
    match sp_item(s, i) {
        ItemRes::Abort(e) => ItemsRes::Abort(e),
        ItemRes::NoMatch => ItemsRes::Parsed(Seq::empty(), i),
        ItemRes::Match(e, j) => {
            if i < j <= s.len() {
                match sp_items(s, j) {
                    ItemsRes::Abort(err) => ItemsRes::Abort(err),
                    ItemsRes::Parsed(rest, k) => ItemsRes::Parsed(seq![e] + rest, k),
                }
            } else {
                ItemsRes::Parsed(Seq::empty(), i)
            }
        },
    }
}

/// Parses the auxiliary index list after its opening parenthesis: a
/// digit run, then any number of `,` SPACE* digit-run groups, then `)`.
pub open spec fn sp_aux_items(s: Seq<u8>, i: int) -> AuxRes
    decreases s.len() - i,
        when 0 <= i <= s.len()
{
    if i >= s.len() {
        AuxRes::Abort(ParseError::Incomplete)
    } else if !is_digit(s[i]) {
        AuxRes::Abort(ParseError::Malformed { pos: i as usize })
    } else {
        let dend = i + digits_run_len(s, i);
        if digits_value(s.subrange(i, dend)) > usize::MAX as nat {
            AuxRes::Abort(ParseError::NumericOverflow)
        } else {
            let v = digits_value(s.subrange(i, dend)) as usize;
            if dend >= s.len() {
                AuxRes::Abort(ParseError::Incomplete)
            } else if s[dend] == 41 {
                AuxRes::Parsed(seq![v], dend + 1)
            } else if s[dend] == 44 {
                let nx = dend + 1 + space_run_len(s, dend + 1);
                if i < nx <= s.len() {
                    match sp_aux_items(s, nx) {
                        AuxRes::Abort(e) => AuxRes::Abort(e),
                        AuxRes::Parsed(rest, k) => AuxRes::Parsed(seq![v] + rest, k),
                    }
                } else {
                    AuxRes::Abort(ParseError::Incomplete)
                }
            } else {
                AuxRes::Abort(ParseError::Malformed { pos: dend as usize })
            }
        }
    }
}

/// Parses a whole line: identifier, spaces, structure, spaces, and the
/// parenthesized auxiliary index list, with nothing after it.
pub open spec fn sp_line(s: Seq<u8>) -> Result<LineS, ParseError> {
    let idend: int = alnum_run_len(s, 0) as int;
    if idend == 0 {
        Err(ParseError::Malformed { pos: 0 })
    } else {
        let sp1: int = idend + space_run_len(s, idend);
        if sp1 == idend {
            Err(ParseError::Malformed { pos: idend as usize })
        } else {
            match sp_items(s, sp1) {
                ItemsRes::Abort(e) => Err(e),
                ItemsRes::Parsed(es, j) => {
                    if es.len() == 0 {
                        Err(ParseError::Malformed { pos: j as usize })
                    } else {
                        let sp2 = j + space_run_len(s, j);
                        if sp2 == j {
                            Err(ParseError::Malformed { pos: j as usize })
                        } else if sp2 >= s.len() || s[sp2] != 40 {
                            Err(ParseError::Malformed { pos: sp2 as usize })
                        } else {
                            match sp_aux_items(s, sp2 + 1) {
                                AuxRes::Abort(e) => Err(e),
                                AuxRes::Parsed(aux, k) => {
                                    if k == s.len() {
                                        Ok(
                                            LineS {
                                                identifier: s.subrange(0, idend as int),
                                                exprs: es,
                                                aux,
                                            },
                                        )
                                    } else {
                                        Err(ParseError::Malformed { pos: k as usize })
                                    }
                                },
                            }
                        }
                    }
                },
            }
        }
    }
}

/// Parsing a structure alone: the longest run of items must cover the
/// whole input and hold at least one item.
pub open spec fn sp_structure(s: Seq<u8>) -> Result<Seq<ExprS>, ParseError> {
    match sp_items(s, 0) {
        ItemsRes::Abort(e) => Err(e),
        ItemsRes::Parsed(es, j) => {
            if es.len() == 0 || j != s.len() {
                Err(ParseError::Malformed { pos: j as usize })
            } else {
                Ok(es)
            }
        },
    }
}

} // verus!

// === The executable parser ===

verus! {

/// Bounds and content of a digit run: it stays inside the input, holds
/// digits only, and ends at the end of input or at a non-digit.
pub proof fn lemma_digits_run(s: Seq<u8>, i: int)
    requires
        0 <= i <= s.len(),
    ensures
        i + digits_run_len(s, i) <= s.len(),
        forall|k: int| i <= k < i + digits_run_len(s, i) ==> is_digit(#[trigger] s[k]),
        i + digits_run_len(s, i) == s.len() || !is_digit(s[i + digits_run_len(s, i)]),
    decreases s.len() - i,
{
    if i < s.len() && is_digit(s[i]) {
        lemma_digits_run(s, i + 1);
    }
}

/// Bounds of an element-symbol run: it stays inside the input and ends
/// at the end of input or at a `:`.
pub proof fn lemma_element_run(s: Seq<u8>, i: int)
    requires
        0 <= i <= s.len(),
    ensures
        i + element_run_len(s, i) <= s.len(),
        i + element_run_len(s, i) == s.len() || !is_element_byte(s[i + element_run_len(s, i)]),
    decreases s.len() - i,
{
    if i < s.len() && is_element_byte(s[i]) {
        lemma_element_run(s, i + 1);
    }
}

/// A longer digit run never names a smaller number.
pub proof fn lemma_digits_value_le(s: Seq<u8>, i: int, j: int, k: int)
    requires
        0 <= i <= j <= k <= s.len(),
        forall|m: int| i <= m < k ==> is_digit(#[trigger] s[m]),
    ensures
        digits_value(s.subrange(i, j)) <= digits_value(s.subrange(i, k)),
    decreases k - j,
{
    if j < k {
        assert(s.subrange(i, j + 1).drop_last() =~= s.subrange(i, j));
        assert(digits_value(s.subrange(i, j + 1)) == digits_value(s.subrange(i, j)) * 10 + (s[j]
            - 48) as nat);
        lemma_digits_value_le(s, i, j + 1, k);
    }
}

/// Finds the end of the digit run starting at `i`.
fn digit_run_end(s: &[u8], i: usize) -> (j: usize)
    requires
        i <= s@.len(),
    ensures
        j == i + digits_run_len(s@, i as int),
        i <= j <= s@.len(),
{
    let mut j = i;
    while j < s.len() && 48 <= s[j] && s[j] <= 57
        invariant
            i <= j <= s@.len(),
            digits_run_len(s@, i as int) == (j - i) + digits_run_len(s@, j as int),
        decreases s@.len() - j,
    {
        j = j + 1;
    }
    j
}

/// Finds the end of the element-symbol run starting at `i`.
fn element(s: &[u8], i: usize) -> (j: usize)
    requires
        i <= s@.len(),
    ensures
        j == i + element_run_len(s@, i as int),
        i <= j <= s@.len(),
{
    let mut j = i;
    while j < s.len() && s[j] != 58
        invariant
            i <= j <= s@.len(),
            element_run_len(s@, i as int) == (j - i) + element_run_len(s@, j as int),
        decreases s@.len() - j,
    {
        j = j + 1;
    }
    j
}

/// Finds the end of the space run starting at `i`.
fn space_run_end(s: &[u8], i: usize) -> (j: usize)
    requires
        i <= s@.len(),
    ensures
        j == i + space_run_len(s@, i as int),
        i <= j <= s@.len(),
{
    let mut j = i;
    while j < s.len() && (s[j] == 32 || s[j] == 9)
        invariant
            i <= j <= s@.len(),
            space_run_len(s@, i as int) == (j - i) + space_run_len(s@, j as int),
        decreases s@.len() - j,
    {
        j = j + 1;
    }
    j
}

/// Finds the end of the letter-or-digit run starting at `i`.
fn alnum_run_end(s: &[u8], i: usize) -> (j: usize)
    requires
        i <= s@.len(),
    ensures
        j == i + alnum_run_len(s@, i as int),
        i <= j <= s@.len(),
{
    let mut j = i;
    while j < s.len() && (48 <= s[j] && s[j] <= 57 || 65 <= s[j] && s[j] <= 90 || 97 <= s[j] && s[j]
        <= 122)
        invariant
            i <= j <= s@.len(),
            alnum_run_len(s@, i as int) == (j - i) + alnum_run_len(s@, j as int),
        decreases s@.len() - j,
    {
        j = j + 1;
    }
    j
}

/// Copies the bytes of `s` between `a` and `b`.
fn copy_range(s: &[u8], a: usize, b: usize) -> (r: Vec<u8>)
    requires
        a <= b <= s@.len(),
    ensures
        r@ == s@.subrange(a as int, b as int),
{
    let mut r: Vec<u8> = Vec::new();
    let mut j = a;
    while j < b
        invariant
            a <= j <= b <= s@.len(),
            r@ == s@.subrange(a as int, j as int),
        decreases b - j,
    {
        r.push(s[j]);
        j = j + 1;
        assert(r@ =~= s@.subrange(a as int, j as int));
    }
    r
}

/// Reads the number named by the digit run `s[i..dend]`, or reports
/// that it does not fit the native unsigned range.
fn digits_to_value(s: &[u8], i: usize, dend: usize) -> (r: Option<usize>)
    requires
        i <= dend <= s@.len(),
        forall|m: int| i <= m < dend ==> is_digit(#[trigger] s@[m]),
    ensures
        match r {
            Some(v) => v as nat == digits_value(s@.subrange(i as int, dend as int)),
            None => digits_value(s@.subrange(i as int, dend as int)) > usize::MAX as nat,
        },
{
    let mut val: usize = 0;
    let mut j = i;
    assert(s@.subrange(i as int, i as int) =~= Seq::<u8>::empty());
    while j < dend
        invariant
            i <= j <= dend <= s@.len(),
            forall|m: int| i <= m < dend ==> is_digit(#[trigger] s@[m]),
            val as nat == digits_value(s@.subrange(i as int, j as int)),
        decreases dend - j,
    {
        let d = (s[j] - 48) as usize;
        assert(s@.subrange(i as int, j as int + 1).drop_last() =~= s@.subrange(i as int, j as int));
        assert(digits_value(s@.subrange(i as int, j as int + 1)) == digits_value(
            s@.subrange(i as int, j as int),
        ) * 10 + d);
        let next = match val.checked_mul(10) {
            Some(v10) => v10.checked_add(d),
            None => None,
        };
        match next {
            Some(nv) => {
                val = nv;
                j = j + 1;
            },
            None => {
                proof {
                    lemma_digits_value_le(s@, i as int, j as int + 1, dend as int);
                }
                return None;
            },
        }
    }
    assert(s@.subrange(i as int, j as int) =~= s@.subrange(i as int, dend as int));
    Some(val)
}

/// One parsed item, as executable data: a node and the position after
/// it, no item at this position, or a hard rejection.
pub enum ItemResult {
    Match(Expr, usize),
    NoMatch,
    Abort(ParseError),
}

/// A parsed run of items, as executable data.
pub enum ItemsResult {
    Parsed(Vec<Expr>, usize),
    Abort(ParseError),
}

/// A parsed auxiliary index list, as executable data.
pub enum AuxResult {
    Parsed(Vec<usize>, usize),
    Abort(ParseError),
}

/// The mathematical content of an `ItemResult`.
pub open spec fn item_view(r: ItemResult) -> ItemRes {
    match r {
        ItemResult::Match(e, j) => ItemRes::Match(e.deep_view(), j as int),
        ItemResult::NoMatch => ItemRes::NoMatch,
        ItemResult::Abort(e) => ItemRes::Abort(e),
    }
}

/// The mathematical content of an `ItemsResult`.
pub open spec fn items_view(r: ItemsResult) -> ItemsRes {
    match r {
        ItemsResult::Parsed(v, j) => ItemsRes::Parsed(deep_view_seq(v@), j as int),
        ItemsResult::Abort(e) => ItemsRes::Abort(e),
    }
}

/// The mathematical content of an `AuxResult`.
pub open spec fn aux_view(r: AuxResult) -> AuxRes {
    match r {
        AuxResult::Parsed(v, j) => AuxRes::Parsed(v@, j as int),
        AuxResult::Abort(e) => AuxRes::Abort(e),
    }
}

/// Parses one atom; `i` points at its `[`.
fn atom(s: &[u8], i: usize) -> (r: ItemResult)
    requires
        i < s@.len(),
        s@[i as int] == 91,
    ensures
        item_view(r) == sp_atom(s@, i as int),
        r matches ItemResult::Match(_, j) ==> i < j <= s@.len(),
{
    let n = s.len();
    if i + 1 >= n {
        return ItemResult::Abort(ParseError::Incomplete);
    }
    if s[i + 1] == 58 {
        return ItemResult::Abort(ParseError::Malformed { pos: i + 1 });
    }
    let e = element(s, i + 1);
    if e >= s.len() {
        return ItemResult::Abort(ParseError::Incomplete);
    }
    let d = e + 1;
    if d >= s.len() {
        return ItemResult::Abort(ParseError::Incomplete);
    }
    if !(48 <= s[d] && s[d] <= 57) {
        return ItemResult::Abort(ParseError::Malformed { pos: d });
    }
    let dend = digit_run_end(s, d);
    if dend >= s.len() {
        return ItemResult::Abort(ParseError::Incomplete);
    }
    if s[dend] != 93 {
        return ItemResult::Abort(ParseError::Malformed { pos: dend });
    }
    proof {
        lemma_digits_run(s@, d as int);
    }
    match digits_to_value(s, d, dend) {
        None => ItemResult::Abort(ParseError::NumericOverflow),
        Some(v) => {
            let symbol = copy_range(s, i + 1, e);
            ItemResult::Match(Expr::Atom(symbol, v), dend + 1)
        },
    }
}

/// Whether a byte is a bond symbol.
fn bond(b: u8) -> (r: bool)
    ensures
        r == is_bond(b),
{
    b == 46 || b == 45 || b == 61 || b == 35 || b == 36 || b == 58 || b == 47 || b == 92
}

/// Parses one item at `i`, dispatching on its first byte.
fn item(s: &[u8], i: usize) -> (r: ItemResult)
    requires
        i <= s@.len(),
    ensures
        item_view(r) == sp_item(s@, i as int),
        r matches ItemResult::Match(_, j) ==> i < j <= s@.len(),
    decreases s@.len() - i, 0int,
{
    if i >= s.len() {
        return ItemResult::NoMatch;
    }
    let b = s[i];
    if b == 91 {
        atom(s, i)
    } else if bond(b) {
        ItemResult::Match(Expr::Bond(b), i + 1)
    } else if 48 <= b && b <= 57 {
        let dend = digit_run_end(s, i);
        let digits = copy_range(s, i, dend);
        ItemResult::Match(Expr::Label(digits), dend)
    } else if b == 40 {
        match smiles(s, i + 1) {
            ItemsResult::Abort(e) => ItemResult::Abort(e),
            ItemsResult::Parsed(children, j) => {
                proof {
                    lemma_deep_view_seq(children@);
                }
                if j >= s.len() {
                    ItemResult::Abort(ParseError::Incomplete)
                } else if children.len() == 0 || s[j] != 41 {
                    ItemResult::Abort(ParseError::Malformed { pos: j })
                } else {
                    ItemResult::Match(Expr::Branch(children), j + 1)
                }
            },
        }
    } else {
        ItemResult::NoMatch
    }
}

/// Parses the longest run of items from `i` on.
fn smiles(s: &[u8], i: usize) -> (r: ItemsResult)
    requires
        i <= s@.len(),
    ensures
        items_view(r) == sp_items(s@, i as int),
        r matches ItemsResult::Parsed(_, j) ==> i <= j <= s@.len(),
    decreases s@.len() - i, 1int,
{
    match item(s, i) {
        ItemResult::Abort(e) => ItemsResult::Abort(e),
        ItemResult::NoMatch => {
            let out: Vec<Expr> = Vec::new();
            assert(deep_view_seq(out@) =~= Seq::<ExprS>::empty());
            ItemsResult::Parsed(out, i)
        },
        ItemResult::Match(e, j) => {
            match smiles(s, j) {
                ItemsResult::Abort(err) => ItemsResult::Abort(err),
                ItemsResult::Parsed(rest, k) => {
                    let ghost old_rest = rest@;
                    let mut rest = rest;
                    rest.insert(0, e);
                    proof {
                        assert(rest@ =~= seq![e] + old_rest);
                        lemma_deep_view_seq(rest@);
                        lemma_deep_view_seq(old_rest);
                        assert forall|m: int| 0 <= m < rest@.len() implies deep_view_seq(rest@)[m]
                            == (seq![e.deep_view()] + deep_view_seq(old_rest))[m] by {
                            if m > 0 {
                                assert(rest@[m] == old_rest[m - 1]);
                                assert(deep_view_seq(old_rest)[m - 1] == old_rest[m
                                    - 1].deep_view());
                            }
                        }
                        assert(deep_view_seq(rest@) =~= seq![e.deep_view()] + deep_view_seq(
                            old_rest,
                        ));
                    }
                    ItemsResult::Parsed(rest, k)
                },
            }
        },
    }
}

} // verus!

// === Whole lines ===

verus! {

/// Parses the auxiliary index list after its opening parenthesis.
fn parse_aux(s: &[u8], i: usize) -> (r: AuxResult)
    requires
        i <= s@.len(),
    ensures
        aux_view(r) == sp_aux_items(s@, i as int),
        r matches AuxResult::Parsed(_, j) ==> i < j <= s@.len(),
    decreases s@.len() - i,
{
    if i >= s.len() {
        return AuxResult::Abort(ParseError::Incomplete);
    }
    if !(48 <= s[i] && s[i] <= 57) {
        return AuxResult::Abort(ParseError::Malformed { pos: i });
    }
    let dend = digit_run_end(s, i);
    proof {
        lemma_digits_run(s@, i as int);
    }
    let v = match digits_to_value(s, i, dend) {
        Some(v) => v,
        None => {
            return AuxResult::Abort(ParseError::NumericOverflow);
        },
    };
    if dend >= s.len() {
        return AuxResult::Abort(ParseError::Incomplete);
    }
    if s[dend] == 41 {
        let mut out: Vec<usize> = Vec::new();
        out.push(v);
        assert(out@ =~= seq![v]);
        return AuxResult::Parsed(out, dend + 1);
    }
    if s[dend] == 44 {
        let nx = space_run_end(s, dend + 1);
        match parse_aux(s, nx) {
            AuxResult::Abort(e) => AuxResult::Abort(e),
            AuxResult::Parsed(rest, k) => {
                let ghost old_rest = rest@;
                let mut rest = rest;
                rest.insert(0, v);
                assert(rest@ =~= seq![v] + old_rest);
                AuxResult::Parsed(rest, k)
            },
        }
    } else {
        AuxResult::Abort(ParseError::Malformed { pos: dend })
    }
}

/// A parsed line: the leading identifier, the structure, and the
/// auxiliary atom indices.
#[derive(Debug)]
pub struct ParsedLine {
    /// The leading alphanumeric token.
    pub identifier: Vec<u8>,
    /// The structure tree.
    pub smiles: Smiles,
    /// The auxiliary atom indices.
    pub aux: Vec<usize>,
}

impl View for ParsedLine {
    type V = LineS;

    open spec fn view(&self) -> LineS {
        LineS { identifier: self.identifier@, exprs: self.smiles@, aux: self.aux@ }
    }
}

/// The mathematical content of a whole parse.
pub open spec fn parse_result_view(r: Result<ParsedLine, ParseError>) -> Result<
    LineS,
    ParseError,
> {
    match r {
        Ok(pl) => Ok(pl@),
        Err(e) => Err(e),
    }
}

/// Parses one line: identifier, spaces, structure, spaces, and the
/// parenthesized auxiliary index list, with nothing after it.
pub fn parse_line(s: &[u8]) -> (r: Result<ParsedLine, ParseError>)
    ensures
        parse_result_view(r) == sp_line(s@),
{
    let idend = alnum_run_end(s, 0);
    if idend == 0 {
        return Err(ParseError::Malformed { pos: 0 });
    }
    let sp1 = space_run_end(s, idend);
    if sp1 == idend {
        return Err(ParseError::Malformed { pos: idend });
    }
    match smiles(s, sp1) {
        ItemsResult::Abort(e) => Err(e),
        ItemsResult::Parsed(es, j) => {
            proof {
                lemma_deep_view_seq(es@);
            }
            if es.len() == 0 {
                return Err(ParseError::Malformed { pos: j });
            }
            let sp2 = space_run_end(s, j);
            if sp2 == j {
                return Err(ParseError::Malformed { pos: j });
            }
            if sp2 >= s.len() || s[sp2] != 40 {
                return Err(ParseError::Malformed { pos: sp2 });
            }
            match parse_aux(s, sp2 + 1) {
                AuxResult::Abort(e) => Err(e),
                AuxResult::Parsed(aux, k) => {
                    if k != s.len() {
                        return Err(ParseError::Malformed { pos: k });
                    }
                    let identifier = copy_range(s, 0, idend);
                    Ok(ParsedLine { identifier, smiles: Smiles { exprs: es }, aux })
                },
            }
        },
    }
}

impl Smiles {
    /// Parses a structure alone: the whole input must be one run of at
    /// least one item.
    pub fn parse(s: &[u8]) -> (r: Result<Smiles, ParseError>)
        ensures
            match r {
                Ok(sm) => sp_structure(s@) == Ok::<Seq<ExprS>, ParseError>(sm@),
                Err(e) => sp_structure(s@) == Err::<Seq<ExprS>, ParseError>(e),
            },
    {
        match smiles(s, 0) {
            ItemsResult::Abort(e) => Err(e),
            ItemsResult::Parsed(es, j) => {
                proof {
                    lemma_deep_view_seq(es@);
                }
                if es.len() == 0 || j != s.len() {
                    Err(ParseError::Malformed { pos: j })
                } else {
                    Ok(Smiles { exprs: es })
                }
            },
        }
    }
}

} // verus!
