use smiles_renumber::ast::{Expr, Smiles};
use smiles_renumber::parser::parse_line;
use smiles_renumber::renumber::{get_atoms, renumber, RenumberError};
use smiles_renumber::text::render_line;

#[test]
fn scenario_renumber_and_rewrite() {
    // Structure `[C:5]([H:20])[O:3]` with auxiliary list `(4, 2)`:
    // traversal order gives [5, 20, 3], the ranks give 5 -> 2,
    // 20 -> 3, 3 -> 1, and the auxiliary indices follow the lookup.
    let mut sm = Smiles::parse(b"[C:5]([H:20])[O:3]").unwrap();
    assert_eq!(sm.atoms(), vec![5, 20, 3]);
    let aux = vec![4, 2];
    let new_aux = renumber(&mut sm, &aux).unwrap();
    assert_eq!(sm.to_text(), b"[C:2]([H:3])[O:1]".to_vec());
    assert_eq!(new_aux, vec![1, 0]);
}

#[test]
fn scenario_unknown_auxiliary_index() {
    // Auxiliary index 5 means original map number 6, which no atom of
    // the structure carries: the error names the index, and the
    // structure stays as it was.
    let mut sm = Smiles::parse(b"[C:1][O:2]").unwrap();
    let aux = vec![5];
    let got = renumber(&mut sm, &aux);
    assert_eq!(got.unwrap_err(), RenumberError::UnknownAuxiliaryIndex { index: 5 });
    assert_eq!(sm.to_text(), b"[C:1][O:2]".to_vec());
}

#[test]
fn unknown_index_at_native_maximum() {
    // `usize::MAX + 1` is no representable map number, so the index
    // cannot resolve.
    let mut sm = Smiles::parse(b"[C:1]").unwrap();
    let aux = vec![usize::MAX];
    assert_eq!(
        renumber(&mut sm, &aux).unwrap_err(),
        RenumberError::UnknownAuxiliaryIndex { index: usize::MAX }
    );
}

#[test]
fn density_and_order() {
    // Gaps and out-of-range numbers become exactly 1..=N, order kept.
    let mut sm = Smiles::parse(b"[C:50]([N:9])[O:31][S:12]").unwrap();
    let aux = vec![49, 8];
    let new_aux = renumber(&mut sm, &aux).unwrap();
    assert_eq!(sm.atoms(), vec![4, 1, 3, 2]);
    assert_eq!(sm.to_text(), b"[C:4]([N:1])[O:3][S:2]".to_vec());
    assert_eq!(new_aux, vec![3, 0]);
}

#[test]
fn idempotent_on_dense_numbering() {
    // A tree already numbered 1..=N in traversal order is unchanged.
    let mut sm = Smiles::parse(b"[C:1]([H:2])[O:3]").unwrap();
    let aux = vec![0, 2];
    let new_aux = renumber(&mut sm, &aux).unwrap();
    assert_eq!(sm.to_text(), b"[C:1]([H:2])[O:3]".to_vec());
    assert_eq!(new_aux, vec![0, 2]);
}

#[test]
fn duplicate_numbers_resolve_stably() {
    // Duplicates are ranked first-occurrence-first; the lookup maps the
    // duplicated number to its last occurrence's new number.
    let mut sm = Smiles::parse(b"[C:3][O:3][N:1]").unwrap();
    let aux = vec![2];
    let new_aux = renumber(&mut sm, &aux).unwrap();
    assert_eq!(sm.to_text(), b"[C:2][O:3][N:1]".to_vec());
    assert_eq!(new_aux, vec![2]);
}

#[test]
fn atoms_walk_depth_first() {
    // Branches are walked where they occur, not deferred.
    let sm = Smiles::parse(b"[C:8]([N:2]([H:6]))[O:4]").unwrap();
    assert_eq!(sm.atoms(), vec![8, 2, 6, 4]);
    assert_eq!(get_atoms(&sm.exprs), vec![8, 2, 6, 4]);
}

#[test]
fn whole_line_through_the_pipeline() {
    // Parse, renumber, and render: the output line keeps the
    // identifier, renumbers the structure, rewrites the indices, and
    // uses a literal comma-space in the index list.
    let mut got = parse_line(b"t146j [C:5]([H:20])[O:3] (4,2)").unwrap();
    let new_aux = renumber(&mut got.smiles, &got.aux).unwrap();
    let line = render_line(&got.identifier, &got.smiles, &new_aux);
    assert_eq!(line, b"t146j [C:2]([H:3])[O:1] (1, 0)".to_vec());
}

#[test]
fn renders_single_index_and_zero() {
    let mut got = parse_line(b"a0 [C:1] (0)").unwrap();
    let new_aux = renumber(&mut got.smiles, &got.aux).unwrap();
    let line = render_line(&got.identifier, &got.smiles, &new_aux);
    assert_eq!(line, b"a0 [C:1] (0)".to_vec());
}

#[test]
fn tree_without_atoms() {
    let mut sm = Smiles { exprs: vec![Expr::Bond(b'-'), Expr::Label(b"12".to_vec())] };
    let aux: Vec<usize> = Vec::new();
    let new_aux = renumber(&mut sm, &aux).unwrap();
    assert!(new_aux.is_empty());
    assert_eq!(sm.to_text(), b"-12".to_vec());
}
