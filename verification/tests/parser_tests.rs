use smiles_renumber::ast::{Expr, Smiles};
use smiles_renumber::parser::ParseError;

#[test]
fn parse_line() {
    let line = "t146j [C:1]1([H:31])=[N:2][C:3]([C:4]([C:5]([C:6](/[N:7]=[S:8](\\[N:9]([C:10]([C:11]([C:12]([N:13]([c:14]2[n:15][c:16]([H:45])[c:17]([H:46])[c:18]([H:47])[c:19]2[H:48])[C:20]([c:21]2[c:22]([H:51])[c:23]([H:52])[c:24]([Br:25])[c:26]([H:53])[c:27]2[H:54])([H:49])[H:50])([H:43])[H:44])([H:41])[H:42])([H:39])[H:40])[H:38])[C:28]([H:55])([H:56])[H:57])([H:36])[H:37])([H:34])[H:35])([H:32])[H:33])=[C:29]([H:58])[N:30]1[H:59] (9, 8, 7, 27)";
    smiles_renumber::parser::parse_line(line.as_bytes()).unwrap();
}

#[test]
fn parse_line_fields() {
    let got = smiles_renumber::parser::parse_line(b"mol7 [C:5]([H:20])[O:3] (4, 2)").unwrap();
    assert_eq!(got.identifier, b"mol7".to_vec());
    assert_eq!(got.aux, vec![4, 2]);
    assert_eq!(got.smiles.to_text(), b"[C:5]([H:20])[O:3]".to_vec());
}

#[test]
fn structure_round_trip() {
    let text = b"[C:1]1([H:31])=[N:2](/[S:8]\\[N:9])12.[O:4]";
    let sm = Smiles::parse(text).unwrap();
    assert_eq!(sm.to_text(), text.to_vec());
}

#[test]
fn structure_tree_shape() {
    let sm = Smiles::parse(b"[Cl:12]-3([n:4])").unwrap();
    assert_eq!(sm.exprs.len(), 4);
    match &sm.exprs[0] {
        Expr::Atom(symbol, map_number) => {
            assert_eq!(symbol, &b"Cl".to_vec());
            assert_eq!(*map_number, 12);
        },
        _ => panic!("expected an atom"),
    }
    assert!(matches!(&sm.exprs[1], Expr::Bond(b) if *b == b'-'));
    assert!(matches!(&sm.exprs[2], Expr::Label(d) if d == &b"3".to_vec()));
    match &sm.exprs[3] {
        Expr::Branch(children) => {
            assert_eq!(children.len(), 1);
            assert!(matches!(&children[0], Expr::Atom(s, 4) if s == &b"n".to_vec()));
        },
        _ => panic!("expected a branch"),
    }
}

#[test]
fn malformed_missing_bracket() {
    // An atom whose `]` never comes before the `(` must fail the whole
    // line, not yield a partial tree.
    let got = smiles_renumber::parser::parse_line(b"id [C:1([H:2]) (0)");
    assert!(matches!(got, Err(ParseError::Malformed { .. })));
}

#[test]
fn incomplete_atom() {
    assert_eq!(Smiles::parse(b"[C:1").unwrap_err(), ParseError::Incomplete);
    assert_eq!(Smiles::parse(b"[Cl]").unwrap_err(), ParseError::Incomplete);
}

#[test]
fn incomplete_branch_and_aux() {
    assert_eq!(Smiles::parse(b"([C:1]").unwrap_err(), ParseError::Incomplete);
    assert_eq!(smiles_renumber::parser::parse_line(b"id [C:1] (0").unwrap_err(), ParseError::Incomplete);
}

#[test]
fn numeric_overflow() {
    assert_eq!(
        Smiles::parse(b"[C:99999999999999999999999999]").unwrap_err(),
        ParseError::NumericOverflow
    );
    assert_eq!(
        smiles_renumber::parser::parse_line(b"id [C:1] (99999999999999999999999999)").unwrap_err(),
        ParseError::NumericOverflow
    );
}

#[test]
fn malformed_lines() {
    // No identifier.
    assert!(matches!(smiles_renumber::parser::parse_line(b" [C:1] (0)"), Err(ParseError::Malformed { pos: 0 })));
    // Leftover text before the index list.
    assert!(matches!(smiles_renumber::parser::parse_line(b"id [C:1]x (0)"), Err(ParseError::Malformed { .. })));
    // Empty index list.
    assert!(matches!(smiles_renumber::parser::parse_line(b"id [C:1] ()"), Err(ParseError::Malformed { .. })));
    // Trailing text after the index list.
    assert!(matches!(smiles_renumber::parser::parse_line(b"id [C:1] (0) x"), Err(ParseError::Malformed { .. })));
    // Empty structure.
    assert!(matches!(smiles_renumber::parser::parse_line(b"id  (0)"), Err(ParseError::Malformed { .. })));
    // Atom with an empty element symbol.
    assert!(matches!(Smiles::parse(b"[:1]"), Err(ParseError::Malformed { .. })));
}

#[test]
fn separators_and_spacing() {
    // Tabs separate fields just as spaces do, and the index list may
    // carry spaces after its commas.
    let got = smiles_renumber::parser::parse_line(b"id\t[C:1][N:2]\t(0,  1,1)").unwrap();
    assert_eq!(got.aux, vec![0, 1, 1]);
}

#[test]
fn leading_zero_map_number() {
    // `007` is accepted and read as 7; serialization writes it back
    // without the padding.
    let sm = Smiles::parse(b"[C:007]").unwrap();
    assert_eq!(sm.atoms(), vec![7]);
    assert_eq!(sm.to_text(), b"[C:7]".to_vec());
}

#[test]
fn label_keeps_its_text() {
    // A ring-closure label is an opaque leaf: its digits round-trip
    // even with leading zeros.
    let sm = Smiles::parse(b"[C:1]007").unwrap();
    assert_eq!(sm.to_text(), b"[C:1]007".to_vec());
}

#[test]
fn permissive_element_symbol() {
    // Everything up to the `:` counts as the element symbol, `]` and
    // lowercase letters included, and round-trips unchanged.
    let sm = Smiles::parse(b"[C]x:1]").unwrap();
    assert_eq!(sm.atoms(), vec![1]);
    assert_eq!(sm.to_text(), b"[C]x:1]".to_vec());
}
