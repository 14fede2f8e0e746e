//! Renumbering of atom map numbers to a dense, order-preserving
//! `1..=N` sequence, and the matching rewrite of the auxiliary indices.
//!
//! The new number of the atom at traversal position `i` is the stable
//! rank of its original number: one more than the count of strictly
//! smaller numbers anywhere in the tree, plus the count of equal
//! numbers at earlier positions.

use vstd::prelude::*;

use crate::ast::{deep_view_seq, lemma_deep_view_seq, Expr, ExprS, Smiles};
use crate::text::copy_bytes;

verus! {

/// The map numbers of one node's atoms, in traversal order.
pub open spec fn atom_nums_expr(e: ExprS) -> Seq<usize>
    decreases e, 0int,
{
    match e {
        ExprS::Atom(_, map_number) => seq![map_number],
        ExprS::Bond(_) => Seq::empty(),
        ExprS::Label(_) => Seq::empty(),
        ExprS::Branch(children) => atom_nums(children),
    }
}

/// The map numbers of a tree's atoms, in left-to-right depth-first
/// traversal order, branches walked at the position they occur.
pub open spec fn atom_nums(es: Seq<ExprS>) -> Seq<usize>
    decreases es, 1int,
{
    if es.len() == 0 {
        Seq::empty()
    } else {
        atom_nums_expr(es[0]) + atom_nums(es.drop_first())
    }
}

/// How many of the first `k` numbers are strictly below `v`.
pub open spec fn count_lt_upto(ns: Seq<usize>, v: usize, k: int) -> nat
    decreases k,
{
    if k <= 0 || k > ns.len() {
        0
    } else {
        count_lt_upto(ns, v, k - 1) + if ns[k - 1] < v {
            1nat
        } else {
            0nat
        }
    }
}

/// How many of the first `k` numbers equal `v`.
pub open spec fn count_eq_upto(ns: Seq<usize>, v: usize, k: int) -> nat
    decreases k,
{
    if k <= 0 || k > ns.len() {
        0
    } else {
        count_eq_upto(ns, v, k - 1) + if ns[k - 1] == v {
            1nat
        } else {
            0nat
        }
    }
}

/// How many numbers are strictly below `v`.
pub open spec fn count_lt(ns: Seq<usize>, v: usize) -> nat {
    count_lt_upto(ns, v, ns.len() as int)
}

/// How many numbers equal `v`.
pub open spec fn count_eq(ns: Seq<usize>, v: usize) -> nat {
    count_eq_upto(ns, v, ns.len() as int)
}

/// The new map number of the atom at traversal position `i`: the
/// stable rank of its original number, counted from 1.
pub open spec fn new_at(ns: Seq<usize>, i: int) -> nat {
    count_lt(ns, ns[i]) + count_eq_upto(ns, ns[i], i + 1)
}

/// The new map number that the old number `v` is looked up as: the new
/// number of its last occurrence.
pub open spec fn new_of(ns: Seq<usize>, v: usize) -> nat {
    count_lt(ns, v) + count_eq(ns, v)
}

/// All the new numbers, by traversal position.
pub open spec fn new_nums_seq(ns: Seq<usize>) -> Seq<usize> {
    Seq::new(ns.len(), |i: int| new_at(ns, i) as usize)
}

/// Counting below and counting equal together never exceed the
/// positions counted.
pub proof fn lemma_count_bound(ns: Seq<usize>, v: usize, k: int)
    requires
        0 <= k <= ns.len(),
    ensures
        count_lt_upto(ns, v, k) + count_eq_upto(ns, v, k) <= k,
    decreases k,
{
    if k > 0 {
        lemma_count_bound(ns, v, k - 1);
    }
}

/// Counts grow with the prefix they look at.
pub proof fn lemma_count_mono(ns: Seq<usize>, v: usize, a: int, b: int)
    requires
        a <= b <= ns.len(),
    ensures
        count_lt_upto(ns, v, a) <= count_lt_upto(ns, v, b),
        count_eq_upto(ns, v, a) <= count_eq_upto(ns, v, b),
    decreases b - a,
{
    if a < b {
        lemma_count_mono(ns, v, a, b - 1);
    }
}

/// Everything counted at or below `v1` is counted below a larger `v2`.
pub proof fn lemma_count_lt_step(ns: Seq<usize>, v1: usize, v2: usize, k: int)
    requires
        v1 < v2,
    ensures
        count_lt_upto(ns, v1, k) + count_eq_upto(ns, v1, k) <= count_lt_upto(ns, v2, k),
    decreases k,
{
    if k > 0 {
        lemma_count_lt_step(ns, v1, v2, k - 1);
    }
}

/// Collects every atom's map number, in traversal order.
pub fn get_atoms(exprs: &Vec<Expr>) -> (r: Vec<usize>)
    ensures
        r@ == atom_nums(deep_view_seq(exprs@)),
    decreases exprs,
{
    let ghost t = deep_view_seq(exprs@);
    proof {
        lemma_deep_view_seq(exprs@);
    }
    let mut ret: Vec<usize> = Vec::new();
    let mut i: usize = 0;
    assert(t.subrange(0, 0) =~= Seq::<ExprS>::empty());
    while i < exprs.len()
        invariant
            i <= exprs@.len(),
            t == deep_view_seq(exprs@),
            t.len() == exprs@.len(),
            forall|j: int| 0 <= j < exprs@.len() ==> t[j] == #[trigger] exprs@[j].deep_view(),
            ret@ == atom_nums(t.subrange(0, i as int)),
        decreases exprs@.len() - i,
    {
        let ghost before = ret@;
        match &exprs[i] {
            Expr::Atom(symbol, map_number) => {
                assert(exprs@[i as int].deep_view() == ExprS::Atom(symbol@, *map_number));
                assert(atom_nums_expr(t[i as int]) == seq![*map_number]);
                ret.push(*map_number);
                assert(ret@ =~= before + atom_nums_expr(t[i as int]));
            },
            Expr::Bond(symbol) => {
                assert(exprs@[i as int].deep_view() == ExprS::Bond(*symbol));
                assert(ret@ =~= before + atom_nums_expr(t[i as int]));
            },
            Expr::Label(digits) => {
                assert(exprs@[i as int].deep_view() == ExprS::Label(digits@));
                assert(ret@ =~= before + atom_nums_expr(t[i as int]));
            },
            Expr::Branch(children) => {
                let mut sub = get_atoms(children);
                ret.append(&mut sub);
                assert(ret@ =~= before + atom_nums_expr(t[i as int]));
            },
        }
        i = i + 1;
        proof {
            lemma_atom_nums_take_step(t, i as int);
            assert(ret@ =~= atom_nums(t.subrange(0, i as int)));
        }
    }
    assert(t.subrange(0, t.len() as int) =~= t);
    ret
}

/// Walking one more node appends that node's atom numbers.
proof fn lemma_atom_nums_take_step(es: Seq<ExprS>, i: int)
    requires
        0 < i <= es.len(),
    ensures
        atom_nums(es.subrange(0, i)) == atom_nums(es.subrange(0, i - 1)) + atom_nums_expr(
            es[i - 1],
        ),
    decreases i,
{
    if i == 1 {
        assert(es.subrange(0, 1).drop_first() =~= Seq::<ExprS>::empty());
        assert(es.subrange(0, 0) =~= Seq::<ExprS>::empty());
        assert(atom_nums(es.subrange(0, 1)) == atom_nums_expr(es[0]) + atom_nums(
            es.subrange(0, 1).drop_first(),
        ));
        assert(atom_nums(es.subrange(0, 1)) =~= atom_nums(es.subrange(0, 0)) + atom_nums_expr(
            es[0],
        ));
    } else {
        lemma_atom_nums_take_step(es.drop_first(), i - 1);
        assert(es.subrange(0, i).drop_first() =~= es.drop_first().subrange(0, i - 1));
        assert(es.subrange(0, i - 1).drop_first() =~= es.drop_first().subrange(0, i - 2));
        assert(es.drop_first()[i - 2] == es[i - 1]);
        assert(atom_nums(es.subrange(0, i)) == atom_nums_expr(es[0]) + atom_nums(
            es.drop_first().subrange(0, i - 1),
        ));
        assert(atom_nums(es.subrange(0, i - 1)) == atom_nums_expr(es[0]) + atom_nums(
            es.drop_first().subrange(0, i - 2),
        ));
        assert(atom_nums(es.subrange(0, i)) =~= atom_nums(es.subrange(0, i - 1)) + atom_nums_expr(
            es[i - 1],
        ));
    }
}

impl Smiles {
    /// Every atom's map number, in traversal order.
    pub fn atoms(&self) -> (r: Vec<usize>)
        ensures
            r@ == atom_nums(self@),
    {
        get_atoms(&self.exprs)
    }
}

} // verus!

// === Writing the new numbers back ===

verus! {

/// One node with its atoms renumbered: the atom at traversal position
/// `k` (counted from the start of the walk) takes `nums[k]`; symbols,
/// bonds, labels and the shape of branches stay untouched. Returns the
/// renumbered node and the traversal position after it.
pub open spec fn renum_expr(e: ExprS, nums: Seq<usize>, k: int) -> (ExprS, int)
    decreases e, 0int,
{
    match e {
        ExprS::Atom(symbol, _) => (
            ExprS::Atom(
                symbol,
                if 0 <= k < nums.len() {
                    nums[k]
                } else {
                    0
                },
            ),
            k + 1,
        ),
        ExprS::Bond(symbol) => (ExprS::Bond(symbol), k),
        ExprS::Label(digits) => (ExprS::Label(digits), k),
        ExprS::Branch(children) => (
            ExprS::Branch(renum_seq(children, nums, k).0),
            renum_seq(children, nums, k).1,
        ),
    }
}

/// A sequence of nodes with its atoms renumbered, left to right.
pub open spec fn renum_seq(es: Seq<ExprS>, nums: Seq<usize>, k: int) -> (Seq<ExprS>, int)
    decreases es, 1int,
{
    if es.len() == 0 {
        (Seq::empty(), k)
    } else {
        let first = renum_expr(es[0], nums, k);
        let rest = renum_seq(es.drop_first(), nums, first.1);
        (seq![first.0] + rest.0, rest.1)
    }
}

/// Renumbering one node advances the traversal position by its atom
/// count.
pub proof fn lemma_renum_expr_counter(e: ExprS, nums: Seq<usize>, k: int)
    ensures
        renum_expr(e, nums, k).1 == k + atom_nums_expr(e).len(),
    decreases e, 0int,
{
    match e {
        ExprS::Branch(children) => lemma_renum_seq_counter(children, nums, k),
        _ => (),
    }
}

/// Renumbering a sequence advances the traversal position by its atom
/// count.
pub proof fn lemma_renum_seq_counter(es: Seq<ExprS>, nums: Seq<usize>, k: int)
    ensures
        renum_seq(es, nums, k).1 == k + atom_nums(es).len(),
    decreases es, 1int,
{
    if es.len() > 0 {
        lemma_renum_expr_counter(es[0], nums, k);
        lemma_renum_seq_counter(es.drop_first(), nums, renum_expr(es[0], nums, k).1);
    }
}

/// After renumbering, a node's atom numbers are exactly the slice of
/// `nums` at its traversal positions.
pub proof fn lemma_renum_expr_nums(e: ExprS, nums: Seq<usize>, k: int)
    requires
        0 <= k,
        k + atom_nums_expr(e).len() <= nums.len(),
    ensures
        atom_nums_expr(renum_expr(e, nums, k).0) =~= nums.subrange(
            k,
            k + atom_nums_expr(e).len(),
        ),
    decreases e, 0int,
{
    match e {
        ExprS::Branch(children) => lemma_renum_seq_nums(children, nums, k),
        _ => (),
    }
}

/// After renumbering, a sequence's atom numbers are exactly the slice
/// of `nums` at its traversal positions.
pub proof fn lemma_renum_seq_nums(es: Seq<ExprS>, nums: Seq<usize>, k: int)
    requires
        0 <= k,
        k + atom_nums(es).len() <= nums.len(),
    ensures
        atom_nums(renum_seq(es, nums, k).0) =~= nums.subrange(k, k + atom_nums(es).len()),
    decreases es, 1int,
{
    if es.len() > 0 {
        let first = renum_expr(es[0], nums, k);
        lemma_renum_expr_counter(es[0], nums, k);
        lemma_renum_expr_nums(es[0], nums, k);
        lemma_renum_seq_nums(es.drop_first(), nums, first.1);
        let out = renum_seq(es, nums, k).0;
        let rest = renum_seq(es.drop_first(), nums, first.1);
        assert(out[0] == first.0);
        assert(out.drop_first() =~= rest.0);
        assert(atom_nums(out) == atom_nums_expr(first.0) + atom_nums(rest.0));
    }
}

/// Rebuilds the nodes of `exprs` from position `i` on, giving the
/// atoms the numbers of `nums` from traversal position `k` on.
fn renumber_exprs(exprs: &Vec<Expr>, i: usize, nums: &Vec<usize>, k: usize) -> (r: (
    Vec<Expr>,
    usize,
))
    requires
        i <= exprs@.len(),
        k + atom_nums(deep_view_seq(exprs@).subrange(i as int, exprs@.len() as int)).len()
            <= nums@.len(),
    ensures
        ({
            let sr = renum_seq(
                deep_view_seq(exprs@).subrange(i as int, exprs@.len() as int),
                nums@,
                k as int,
            );
            deep_view_seq(r.0@) == sr.0 && r.1 as int == sr.1
        }),
    decreases exprs, exprs@.len() - i,
{
    let ghost t = deep_view_seq(exprs@);
    let ghost tail = t.subrange(i as int, exprs@.len() as int);
    proof {
        lemma_deep_view_seq(exprs@);
    }
    if i == exprs.len() {
        let out: Vec<Expr> = Vec::new();
        assert(deep_view_seq(out@) =~= Seq::<ExprS>::empty());
        assert(tail =~= Seq::<ExprS>::empty());
        return (out, k);
    }
    let ghost tail1 = t.subrange(i as int + 1, exprs@.len() as int);
    proof {
        assert(tail[0] == t[i as int]);
        assert(tail.drop_first() =~= tail1);
        assert(atom_nums(tail) == atom_nums_expr(tail[0]) + atom_nums(tail1));
    }
    let ghost spec_first = renum_expr(t[i as int], nums@, k as int);
    proof {
        lemma_renum_expr_counter(t[i as int], nums@, k as int);
    }
    let num_len = nums.len();
    assert(num_len == nums@.len());
    let (e2, k1): (Expr, usize) = match &exprs[i] {
        Expr::Atom(symbol, _) => {
            assert(t[i as int] == exprs@[i as int].deep_view());
            assert(atom_nums_expr(t[i as int]).len() == 1);
            assert(k + 1 <= nums@.len()) by {
                assert(atom_nums(tail).len() == 1 + atom_nums(tail1).len());
            }
            (Expr::Atom(copy_bytes(symbol), nums[k]), k + 1)
        },
        Expr::Bond(symbol) => {
            assert(exprs@[i as int].deep_view() == ExprS::Bond(*symbol));
            (Expr::Bond(*symbol), k)
        },
        Expr::Label(digits) => {
            assert(exprs@[i as int].deep_view() == ExprS::Label(digits@));
            (Expr::Label(copy_bytes(digits)), k)
        },
        Expr::Branch(children) => {
            assert(t[i as int] == exprs@[i as int].deep_view());
            proof {
                lemma_deep_view_seq(children@);
                assert(deep_view_seq(children@).subrange(0, children@.len() as int) =~= deep_view_seq(
                    children@,
                ));
                assert(k + atom_nums(deep_view_seq(children@)).len() <= nums@.len()) by {
                    assert(atom_nums_expr(t[i as int]) == atom_nums(deep_view_seq(children@)));
                }
            }
            let (sub, k2) = renumber_exprs(children, 0, nums, k);
            (Expr::Branch(sub), k2)
        },
    };
    assert(e2.deep_view() == spec_first.0);
    assert(k1 as int == spec_first.1);
    let (rest, k2) = renumber_exprs(exprs, i + 1, nums, k1);
    let ghost old_rest = rest@;
    let mut rest = rest;
    rest.insert(0, e2);
    proof {
        assert(rest@ =~= seq![e2] + old_rest);
        lemma_deep_view_seq(rest@);
        lemma_deep_view_seq(old_rest);
        assert forall|m: int| 0 <= m < rest@.len() implies deep_view_seq(rest@)[m] == (seq![
            spec_first.0,
        ] + deep_view_seq(old_rest))[m] by {
            if m > 0 {
                assert(rest@[m] == old_rest[m - 1]);
                assert(deep_view_seq(old_rest)[m - 1] == old_rest[m - 1].deep_view());
            }
        }
        assert(deep_view_seq(rest@) =~= seq![spec_first.0] + deep_view_seq(old_rest));
    }
    (rest, k2)
}

} // verus!

// === The public renumbering operation ===

verus! {

/// Why renumbering is refused.
#[derive(Debug, Clone, Copy, PartialEq, Eq, Structural)]
pub enum RenumberError {
    /// The auxiliary index `index` implies the map number `index + 1`,
    /// which belongs to no atom of the structure.
    UnknownAuxiliaryIndex { index: usize },
}

/// Whether the auxiliary index `t` resolves: its implied map number
/// `t + 1` belongs to some atom.
pub open spec fn aux_known(ns: Seq<usize>, t: usize) -> bool {
    t < usize::MAX && count_eq(ns, (t + 1) as usize) > 0
}

/// The first position at or after `x` whose auxiliary index does not
/// resolve, or -1 when all of them do.
pub open spec fn first_unknown(ns: Seq<usize>, aux: Seq<usize>, x: int) -> int
    decreases aux.len() - x when 0 <= x <= aux.len()
{
    if x >= aux.len() {
        -1
    } else if !aux_known(ns, aux[x]) {
        x
    } else {
        first_unknown(ns, aux, x + 1)
    }
}

/// Counts the numbers strictly below `v`.
fn count_lt_exec(ns: &Vec<usize>, v: usize) -> (c: usize)
    ensures
        c as nat == count_lt(ns@, v),
{
    let mut c: usize = 0;
    let mut j: usize = 0;
    while j < ns.len()
        invariant
            j <= ns@.len(),
            c <= j,
            c as nat == count_lt_upto(ns@, v, j as int),
        decreases ns@.len() - j,
    {
        if ns[j] < v {
            c = c + 1;
        }
        j = j + 1;
    }
    c
}

/// Counts the numbers equal to `v` among the first `k`.
fn count_eq_upto_exec(ns: &Vec<usize>, v: usize, k: usize) -> (c: usize)
    requires
        k <= ns@.len(),
    ensures
        c as nat == count_eq_upto(ns@, v, k as int),
{
    let mut c: usize = 0;
    let mut j: usize = 0;
    while j < k
        invariant
            j <= k <= ns@.len(),
            c <= j,
            c as nat == count_eq_upto(ns@, v, j as int),
        decreases k - j,
    {
        if ns[j] == v {
            c = c + 1;
        }
        j = j + 1;
    }
    c
}

/// Computes every atom's new number, by traversal position.
fn compute_new_nums(ns: &Vec<usize>) -> (r: Vec<usize>)
    ensures
        r@ == new_nums_seq(ns@),
{
    let mut r: Vec<usize> = Vec::new();
    let mut i: usize = 0;
    while i < ns.len()
        invariant
            i <= ns@.len(),
            r@.len() == i,
            forall|j: int| 0 <= j < i ==> r@[j] as nat == new_at(ns@, j),
        decreases ns@.len() - i,
    {
        let lt = count_lt_exec(ns, ns[i]);
        let eq = count_eq_upto_exec(ns, ns[i], i + 1);
        proof {
            lemma_count_bound(ns@, ns@[i as int], ns@.len() as int);
            lemma_count_mono(ns@, ns@[i as int], i as int + 1, ns@.len() as int);
        }
        r.push(lt + eq);
        i = i + 1;
    }
    assert(r@ =~= new_nums_seq(ns@));
    r
}

/// Rewrites the auxiliary indices through the old-to-new lookup: `t`
/// means old map number `t + 1`, which is looked up and re-expressed
/// zero-based. An index whose implied map number belongs to no atom is
/// reported, the first such first.
fn rewrite_aux(ns: &Vec<usize>, aux: &Vec<usize>) -> (r: Result<Vec<usize>, RenumberError>)
    ensures
        match r {
            Ok(out) => {
                &&& first_unknown(ns@, aux@, 0) == -1
                &&& out@.len() == aux@.len()
                &&& forall|x: int|
                    0 <= x < aux@.len() ==> out@[x] as nat == new_of(
                        ns@,
                        ((aux@[x] + 1) as usize),
                    ) - 1
            },
            Err(e) => {
                let x = first_unknown(ns@, aux@, 0);
                &&& 0 <= x < aux@.len()
                &&& e == RenumberError::UnknownAuxiliaryIndex { index: aux@[x] }
            },
        },
{
    let mut out: Vec<usize> = Vec::new();
    let mut x: usize = 0;
    while x < aux.len()
        invariant
            x <= aux@.len(),
            first_unknown(ns@, aux@, 0) == first_unknown(ns@, aux@, x as int),
            out@.len() == x,
            forall|y: int|
                0 <= y < x ==> out@[y] as nat == new_of(ns@, ((aux@[y] + 1) as usize)) - 1,
        decreases aux@.len() - x,
    {
        let t = aux[x];
        if t == usize::MAX {
            return Err(RenumberError::UnknownAuxiliaryIndex { index: t });
        }
        let v = t + 1;
        let eq = count_eq_upto_exec(ns, v, ns.len());
        if eq == 0 {
            return Err(RenumberError::UnknownAuxiliaryIndex { index: t });
        }
        let lt = count_lt_exec(ns, v);
        proof {
            lemma_count_bound(ns@, v, ns@.len() as int);
        }
        out.push(lt + eq - 1);
        x = x + 1;
    }
    Ok(out)
}

/// Renumbers the structure's atoms to a dense, order-preserving
/// `1..=N` sequence and rewrites the auxiliary indices to match. When
/// some auxiliary index resolves to no atom, the structure is left
/// unchanged and the first such index is reported.
pub fn renumber(sm: &mut Smiles, aux: &Vec<usize>) -> (r: Result<Vec<usize>, RenumberError>)
    ensures
        ({
            let ns = atom_nums(old(sm)@);
            match r {
                Ok(new_aux) => {
                    &&& first_unknown(ns, aux@, 0) == -1
                    &&& final(sm)@ == renum_seq(old(sm)@, new_nums_seq(ns), 0).0
                    &&& new_aux@.len() == aux@.len()
                    &&& forall|x: int|
                        0 <= x < aux@.len() ==> new_aux@[x] as nat == new_of(
                            ns,
                            ((aux@[x] + 1) as usize),
                        ) - 1
                },
                Err(e) => {
                    let x = first_unknown(ns, aux@, 0);
                    &&& *final(sm) == *old(sm)
                    &&& 0 <= x < aux@.len()
                    &&& e == RenumberError::UnknownAuxiliaryIndex { index: aux@[x] }
                },
            }
        }),
{
    let ns = get_atoms(&sm.exprs);
    let new_aux = match rewrite_aux(&ns, aux) {
        Err(e) => {
            return Err(e);
        },
        Ok(v) => v,
    };
    let newnums = compute_new_nums(&ns);
    proof {
        lemma_deep_view_seq(sm.exprs@);
        assert(deep_view_seq(sm.exprs@).subrange(0, sm.exprs@.len() as int) =~= deep_view_seq(
            sm.exprs@,
        ));
    }
    let (new_exprs, _k) = renumber_exprs(&sm.exprs, 0, &newnums, 0);
    sm.exprs = new_exprs;
    Ok(new_aux)
}

} // verus!
