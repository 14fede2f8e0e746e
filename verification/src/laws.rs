//! The library's general laws, stated and proved once over the
//! specification functions that the executable contracts use.

use vstd::prelude::*;

use crate::ast::ExprS;
use crate::parser::{
    digits_run_len, element_run_len, is_bond, lemma_digits_run, lemma_element_run, sp_atom,
    sp_item, sp_items, sp_structure, ItemRes, ItemsRes,
};
use crate::renumber::{
    count_eq, count_eq_upto, count_lt_upto, lemma_count_bound, lemma_count_lt_step,
    lemma_count_mono, new_at, new_of,
};
use crate::text::{dec_digits, digits_value, is_digit, ser_expr, ser_exprs};

verus! {

/// A digit run that does not start with a superfluous zero.
pub open spec fn unpadded_run(r: Seq<u8>) -> bool {
    r.len() > 1 ==> r[0] != 48
}

/// Whether the item at `i`, if one matches there, writes its own atom
/// map number without a leading zero: for an atom, its digit run is
/// unpadded; for a branch, every atom inside it is; bonds and labels
/// carry no map number.
pub open spec fn map_numbers_unpadded_item(s: Seq<u8>, i: int) -> bool
    decreases s.len() - i, 2int,
        when 0 <= i <= s.len()
{
    if i >= s.len() {
        true
    } else if s[i] == 91 {
        let d = i + 2 + element_run_len(s, i + 1);
        if d + digits_run_len(s, d) <= s.len() {
            unpadded_run(s.subrange(d, d + digits_run_len(s, d)))
        } else {
            true
        }
    } else if s[i] == 40 {
        map_numbers_unpadded(s, i + 1)
    } else {
        true
    }
}

/// Whether every atom map number in the run of items parsed from `i`
/// on is written without a leading zero.
pub open spec fn map_numbers_unpadded(s: Seq<u8>, i: int) -> bool
    decreases s.len() - i, 3int,
        when 0 <= i <= s.len()
{
    match sp_item(s, i) {
        ItemRes::Match(e, j) => map_numbers_unpadded_item(s, i) && (if i < j <= s.len() {
            map_numbers_unpadded(s, j)
        } else {
            true
        }),
        _ => true,
    }
}

/// A digit run that does not start with a zero names a positive number.
proof fn lemma_digits_value_pos(r: Seq<u8>)
    requires
        r.len() >= 1,
        forall|m: int| 0 <= m < r.len() ==> is_digit(#[trigger] r[m]),
        r[0] != 48,
    ensures
        digits_value(r) >= 1,
    decreases r.len(),
{
    if r.len() > 1 {
        assert(r.drop_last()[0] == r[0]);
        lemma_digits_value_pos(r.drop_last());
    }
}

/// Writing back the number named by an unpadded digit run gives the
/// run itself.
pub proof fn lemma_dec_of_digits(r: Seq<u8>)
    requires
        r.len() >= 1,
        forall|m: int| 0 <= m < r.len() ==> is_digit(#[trigger] r[m]),
        unpadded_run(r),
    ensures
        dec_digits(digits_value(r)) == r,
    decreases r.len(),
{
    if r.len() == 1 {
        assert(r.drop_last() =~= Seq::<u8>::empty());
        assert(digits_value(Seq::<u8>::empty()) == 0);
        assert(digits_value(r) == (r[0] - 48) as nat);
        assert(dec_digits(digits_value(r)) =~= r);
    } else {
        let p = r.drop_last();
        let d = (r.last() - 48) as nat;
        assert(p[0] == r[0]);
        assert(forall|m: int| 0 <= m < p.len() ==> is_digit(#[trigger] p[m]));
        lemma_digits_value_pos(p);
        lemma_dec_of_digits(p);
        let v = digits_value(r);
        assert(v == digits_value(p) * 10 + d);
        vstd::arithmetic::div_mod::lemma_fundamental_div_mod_converse(
            v as int,
            10,
            digits_value(p) as int,
            d as int,
        );
        assert(v >= 10);
        assert(dec_digits(v) == dec_digits(digits_value(p)).push((d + 48) as u8));
        assert(dec_digits(v) =~= r);
    }
}

/// Round trip for one item: re-serializing the node reproduces exactly
/// the text it was parsed from, provided the atom map numbers in that
/// text carry no leading zeros. A matched item also always consumes at
/// least one byte and stays inside the input.
proof fn lemma_item_round_trip(s: Seq<u8>, i: int)
    requires
        0 <= i <= s.len(),
    ensures
        match sp_item(s, i) {
            ItemRes::Match(e, j) => i < j <= s.len() && (map_numbers_unpadded_item(s, i)
                ==> ser_expr(e) == s.subrange(i, j)),
            _ => true,
        },
    decreases s.len() - i, 0int,
{
    if i >= s.len() {
        return ;
    }
    if s[i] == 91 {
        match sp_atom(s, i) {
            ItemRes::Match(e, j) => {
                lemma_element_run(s, i + 1);
                let el = i + 1 + element_run_len(s, i + 1);
                let d = el + 1;
                lemma_digits_run(s, d);
                let dend = d + digits_run_len(s, d);
                assert(s[el] == 58);
                assert(is_digit(s[d]));
                assert(j == dend + 1);
                if map_numbers_unpadded_item(s, i) {
                    let run = s.subrange(d, dend);
                    assert(forall|m: int| 0 <= m < run.len() ==> is_digit(#[trigger] run[m]));
                    assert(unpadded_run(run));
                    lemma_dec_of_digits(run);
                    assert(digits_value(run) <= usize::MAX as nat);
                    assert(e == ExprS::Atom(s.subrange(i + 1, el), digits_value(run) as usize));
                    assert(ser_expr(e) =~= s.subrange(i, j));
                }
            },
            _ => (),
        }
    } else if is_bond(s[i]) {
        let e = sp_item(s, i)->Match_0;
        assert(ser_expr(e) =~= s.subrange(i, i + 1));
    } else if is_digit(s[i]) {
        lemma_digits_run(s, i);
        let dend = i + digits_run_len(s, i);
        assert(dend > i);
        let e = sp_item(s, i)->Match_0;
        assert(ser_expr(e) =~= s.subrange(i, dend));
    } else if s[i] == 40 {
        lemma_items_round_trip(s, i + 1);
        match sp_items(s, i + 1) {
            ItemsRes::Parsed(children, jj) => {
                if jj < s.len() && children.len() > 0 && s[jj] == 41 {
                    if map_numbers_unpadded_item(s, i) {
                        let e = sp_item(s, i)->Match_0;
                        assert(ser_expr(e) =~= s.subrange(i, jj + 1));
                    }
                }
            },
            _ => (),
        }
    }
}

/// Round trip for a run of items, wherever it stands in a line:
/// re-serializing the nodes reproduces exactly the text they were
/// parsed from, provided the atom map numbers in that text carry no
/// leading zeros.
pub proof fn lemma_items_round_trip(s: Seq<u8>, i: int)
    requires
        0 <= i <= s.len(),
    ensures
        match sp_items(s, i) {
            ItemsRes::Parsed(es, j) => i <= j <= s.len() && (map_numbers_unpadded(s, i)
                ==> ser_exprs(es) == s.subrange(i, j)),
            _ => true,
        },
    decreases s.len() - i, 1int,
{
    lemma_item_round_trip(s, i);
    match sp_item(s, i) {
        ItemRes::NoMatch => {
            assert(ser_exprs(Seq::<ExprS>::empty()) =~= s.subrange(i, i));
        },
        ItemRes::Abort(_) => (),
        ItemRes::Match(e, j1) => {
            lemma_items_round_trip(s, j1);
            match sp_items(s, j1) {
                ItemsRes::Parsed(rest, j) => {
                    let es = seq![e] + rest;
                    assert(es[0] == e);
                    assert(es.drop_first() =~= rest);
                    assert(ser_exprs(es) == ser_expr(e) + ser_exprs(rest));
                    if map_numbers_unpadded(s, i) {
                        assert(ser_exprs(es) =~= s.subrange(i, j));
                    }
                },
                _ => (),
            }
        },
    }
}

/// Round trip: for any structure text that the grammar accepts whose
/// atom map numbers are written without leading zeros, re-serializing
/// the parsed tree reproduces the text byte for byte.
pub proof fn lemma_round_trip(s: Seq<u8>)
    requires
        sp_structure(s) is Ok,
        map_numbers_unpadded(s, 0),
    ensures
        ser_exprs(sp_structure(s)->Ok_0) == s,
{
    lemma_items_round_trip(s, 0);
    match sp_items(s, 0) {
        ItemsRes::Parsed(es, j) => {
            assert(s.subrange(0, s.len() as int) =~= s);
        },
        _ => (),
    }
}

} // verus!

// === Density, order preservation, auxiliary consistency, idempotence ===

verus! {

use vstd::relations::injective_on;
use vstd::set_lib::{lemma_int_range, lemma_map_size, lemma_subset_equality, set_int_range};

/// Order preservation: an atom with a smaller original map number gets
/// a smaller new number.
pub proof fn lemma_order_preservation(ns: Seq<usize>, i: int, j: int)
    requires
        0 <= i < ns.len(),
        0 <= j < ns.len(),
        ns[i] < ns[j],
    ensures
        new_at(ns, i) < new_at(ns, j),
{
    let n = ns.len() as int;
    lemma_count_mono(ns, ns[i], i + 1, n);
    lemma_count_lt_step(ns, ns[i], ns[j], n);
    assert(count_eq_upto(ns, ns[j], j + 1) == count_eq_upto(ns, ns[j], j) + 1);
}

/// No two atoms get the same new number.
pub proof fn lemma_no_duplicates(ns: Seq<usize>, i: int, j: int)
    requires
        0 <= i < ns.len(),
        0 <= j < ns.len(),
        i != j,
    ensures
        new_at(ns, i) != new_at(ns, j),
{
    if ns[i] < ns[j] {
        lemma_order_preservation(ns, i, j);
    } else if ns[j] < ns[i] {
        lemma_order_preservation(ns, j, i);
    } else {
        let a = if i < j {
            i
        } else {
            j
        };
        let b = if i < j {
            j
        } else {
            i
        };
        assert(count_eq_upto(ns, ns[b], b + 1) == count_eq_upto(ns, ns[b], b) + 1);
        lemma_count_mono(ns, ns[b], a + 1, b);
    }
}

/// The set of new numbers, over all traversal positions.
pub open spec fn new_num_set(ns: Seq<usize>) -> Set<int> {
    set_int_range(0, ns.len() as int).map(|i: int| new_at(ns, i) as int)
}

/// Density: the new numbers are each between 1 and the atom count,
/// pairwise distinct, and as a set exactly `{1, ..., N}`.
pub proof fn lemma_density(ns: Seq<usize>)
    ensures
        forall|i: int| 0 <= i < ns.len() ==> 1 <= #[trigger] new_at(ns, i) <= ns.len(),
        forall|i: int, j: int|
            0 <= i < ns.len() && 0 <= j < ns.len() && i != j ==> new_at(ns, i) != new_at(ns, j),
        new_num_set(ns) =~= set_int_range(1, ns.len() as int + 1),
{
    let n = ns.len() as int;
    assert forall|i: int| 0 <= i < n implies 1 <= #[trigger] new_at(ns, i) <= ns.len() by {
        assert(count_eq_upto(ns, ns[i], i + 1) == count_eq_upto(ns, ns[i], i) + 1);
        lemma_count_mono(ns, ns[i], i + 1, n);
        lemma_count_bound(ns, ns[i], n);
    }
    assert forall|i: int, j: int|
        0 <= i < ns.len() && 0 <= j < ns.len() && i != j implies new_at(ns, i) != new_at(
        ns,
        j,
    ) by {
        lemma_no_duplicates(ns, i, j);
    }
    let f = |i: int| new_at(ns, i) as int;
    lemma_int_range(0, n);
    lemma_int_range(1, n + 1);
    assert(injective_on(f, set_int_range(0, n))) by {
        assert forall|x1: int, x2: int|
            set_int_range(0, n).contains(x1) && set_int_range(0, n).contains(x2) && #[trigger] f(x1)
                == #[trigger] f(x2) implies x1 == x2 by {
            if x1 != x2 {
                lemma_no_duplicates(ns, x1, x2);
            }
        }
    }
    assert(set_int_range(0, n).map(f) =~= new_num_set(ns));
    lemma_map_size(set_int_range(0, n), new_num_set(ns), f);
    assert forall|v: int| new_num_set(ns).contains(v) implies set_int_range(1, n + 1).contains(
        v,
    ) by {
        let i = choose|i: int| set_int_range(0, n).contains(i) && v == f(i);
        assert(1 <= new_at(ns, i) <= ns.len());
    }
    lemma_subset_equality(new_num_set(ns), set_int_range(1, n + 1));
}

/// Auxiliary consistency: for an original map number that occurs
/// exactly once, the number that the lookup rewrites it to is exactly
/// the new number of the atom that carries it.
pub proof fn lemma_aux_consistency(ns: Seq<usize>, i: int, v: usize)
    requires
        0 <= i < ns.len(),
        ns[i] == v,
        count_eq(ns, v) == 1,
    ensures
        new_of(ns, v) == new_at(ns, i),
{
    assert(count_eq_upto(ns, v, i + 1) == count_eq_upto(ns, v, i) + 1);
    lemma_count_mono(ns, v, i + 1, ns.len() as int);
}

/// In a sequence that already counts 1, 2, ... in traversal order, how
/// many numbers below `v` stand among the first `k`.
proof fn lemma_ident_count_lt(ns: Seq<usize>, v: usize, k: int)
    requires
        forall|m: int| 0 <= m < ns.len() ==> #[trigger] ns[m] as int == m + 1,
        0 <= k <= ns.len(),
        v >= 1,
    ensures
        count_lt_upto(ns, v, k) as int == if k <= v as int - 1 {
            k
        } else {
            v as int - 1
        },
    decreases k,
{
    if k > 0 {
        lemma_ident_count_lt(ns, v, k - 1);
    }
}

/// In a sequence that already counts 1, 2, ... in traversal order, how
/// many numbers equal to `v` stand among the first `k`.
proof fn lemma_ident_count_eq(ns: Seq<usize>, v: usize, k: int)
    requires
        forall|m: int| 0 <= m < ns.len() ==> #[trigger] ns[m] as int == m + 1,
        0 <= k <= ns.len(),
        v >= 1,
    ensures
        count_eq_upto(ns, v, k) as int == if v as int <= k {
            1int
        } else {
            0int
        },
    decreases k,
{
    if k > 0 {
        lemma_ident_count_eq(ns, v, k - 1);
    }
}

/// Idempotence of the numbering shape: when the original numbers are
/// already the dense, order-matching sequence 1, 2, ..., N, every new
/// number equals the old one.
pub proof fn lemma_idempotence(ns: Seq<usize>)
    requires
        forall|m: int| 0 <= m < ns.len() ==> #[trigger] ns[m] as int == m + 1,
    ensures
        forall|i: int| 0 <= i < ns.len() ==> new_at(ns, i) as int == i + 1,
        crate::renumber::new_nums_seq(ns) =~= ns,
{
    assert forall|i: int| 0 <= i < ns.len() implies new_at(ns, i) as int == i + 1 by {
        lemma_ident_count_lt(ns, ns[i], ns.len() as int);
        lemma_ident_count_eq(ns, ns[i], i + 1);
    }
}

} // verus!

// === Idempotence lifted to whole trees ===

verus! {

use crate::renumber::{
    atom_nums, atom_nums_expr, lemma_renum_expr_counter, new_nums_seq, renum_expr, renum_seq,
};

/// Writing back a node's own numbers changes nothing.
proof fn lemma_renum_identity_expr(e: ExprS, nums: Seq<usize>, k: int)
    requires
        0 <= k,
        k + atom_nums_expr(e).len() <= nums.len(),
        nums.subrange(k, k + atom_nums_expr(e).len()) == atom_nums_expr(e),
    ensures
        renum_expr(e, nums, k).0 == e,
    decreases e, 0int,
{
    match e {
        ExprS::Atom(_, map_number) => {
            assert(nums[k] == atom_nums_expr(e)[0]);
        },
        ExprS::Branch(children) => {
            lemma_renum_identity_seq(children, nums, k);
        },
        _ => (),
    }
}

/// Writing back a sequence's own numbers changes nothing.
proof fn lemma_renum_identity_seq(es: Seq<ExprS>, nums: Seq<usize>, k: int)
    requires
        0 <= k,
        k + atom_nums(es).len() <= nums.len(),
        nums.subrange(k, k + atom_nums(es).len()) == atom_nums(es),
    ensures
        renum_seq(es, nums, k).0 == es,
    decreases es, 1int,
{
    if es.len() > 0 {
        let len0 = atom_nums_expr(es[0]).len() as int;
        let total = atom_nums(es).len() as int;
        assert(atom_nums(es) == atom_nums_expr(es[0]) + atom_nums(es.drop_first()));
        assert(nums.subrange(k, k + len0) =~= atom_nums_expr(es[0]));
        lemma_renum_identity_expr(es[0], nums, k);
        lemma_renum_expr_counter(es[0], nums, k);
        assert forall|m: int| 0 <= m < total - len0 implies nums.subrange(k + len0, k + total)[m]
            == atom_nums(es.drop_first())[m] by {
            assert(atom_nums(es)[len0 + m] == atom_nums(es.drop_first())[m]);
            assert(nums.subrange(k, k + total)[len0 + m] == nums[k + len0 + m]);
        }
        assert(nums.subrange(k + len0, k + total) =~= atom_nums(es.drop_first()));
        lemma_renum_identity_seq(es.drop_first(), nums, k + len0);
        assert(renum_seq(es, nums, k).0 =~= es);
    } else {
        assert(renum_seq(es, nums, k).0 =~= es);
    }
}

/// Idempotence on whole trees: renumbering a tree whose atoms are
/// already numbered 1, 2, ..., N in traversal order rebuilds the very
/// same tree.
pub proof fn lemma_idempotence_tree(es: Seq<ExprS>)
    requires
        forall|m: int|
            0 <= m < atom_nums(es).len() ==> #[trigger] atom_nums(es)[m] as int == m + 1,
    ensures
        renum_seq(es, new_nums_seq(atom_nums(es)), 0).0 == es,
{
    let ns = atom_nums(es);
    lemma_idempotence(ns);
    assert(new_nums_seq(ns) == ns);
    assert(ns.subrange(0, ns.len() as int) =~= ns);
    lemma_renum_identity_seq(es, ns, 0);
}

} // verus!

// === Density lifted to whole trees ===

verus! {

/// Whether some traversal position carries the map number `v`.
pub open spec fn holds_value(nn: Seq<usize>, v: int) -> bool {
    exists|i: int| 0 <= i < nn.len() && (#[trigger] nn[i]) as int == v
}

/// After renumbering, a tree's atom numbers in traversal order are
/// exactly the new numbers, position by position.
pub proof fn lemma_renumbered_tree_nums(es: Seq<ExprS>)
    ensures
        atom_nums(renum_seq(es, new_nums_seq(atom_nums(es)), 0).0) == new_nums_seq(atom_nums(es)),
{
    let ns = atom_nums(es);
    crate::renumber::lemma_renum_seq_nums(es, new_nums_seq(ns), 0);
    assert(new_nums_seq(ns).subrange(0, ns.len() as int) =~= new_nums_seq(ns));
}

/// Density on whole trees: after renumbering, the tree's atom map
/// numbers are exactly `{1, ..., N}`, with no duplicates and no gaps,
/// whatever gaps or duplicates the original numbers had.
pub proof fn lemma_density_tree(es: Seq<ExprS>)
    requires
        atom_nums(es).len() <= usize::MAX,
    ensures
        ({
            let nn = atom_nums(renum_seq(es, new_nums_seq(atom_nums(es)), 0).0);
            &&& nn.len() == atom_nums(es).len()
            &&& forall|i: int| 0 <= i < nn.len() ==> 1 <= #[trigger] nn[i] as int <= nn.len()
            &&& forall|i: int, j: int|
                0 <= i < nn.len() && 0 <= j < nn.len() && i != j ==> nn[i] != nn[j]
            &&& forall|v: int| 1 <= v <= nn.len() ==> #[trigger] holds_value(nn, v)
        }),
{
    let ns = atom_nums(es);
    let n = ns.len() as int;
    lemma_renumbered_tree_nums(es);
    lemma_density(ns);
    let nn = atom_nums(renum_seq(es, new_nums_seq(ns), 0).0);
    assert(nn == new_nums_seq(ns));
    assert forall|i: int| 0 <= i < nn.len() implies 1 <= #[trigger] nn[i] as int <= nn.len() by {
        assert(nn[i] == new_at(ns, i) as usize);
        assert(1 <= new_at(ns, i) <= ns.len());
    }
    assert forall|i: int, j: int|
        0 <= i < nn.len() && 0 <= j < nn.len() && i != j implies nn[i] != nn[j] by {
        lemma_no_duplicates(ns, i, j);
        assert(nn[i] == new_at(ns, i) as usize);
        assert(nn[j] == new_at(ns, j) as usize);
        assert(1 <= new_at(ns, i) <= ns.len());
        assert(1 <= new_at(ns, j) <= ns.len());
    }
    assert forall|v: int| 1 <= v <= nn.len() implies #[trigger] holds_value(nn, v) by {
        assert(set_int_range(1, n + 1).contains(v));
        assert(new_num_set(ns).contains(v));
        let f = |i: int| new_at(ns, i) as int;
        let i = choose|i: int| set_int_range(0, n).contains(i) && v == f(i);
        assert(1 <= new_at(ns, i) <= ns.len());
        assert(nn[i] as int == v);
    }
}

} // verus!
