//! The structure tree: an ordered forest of expression nodes.

use vstd::prelude::*;

verus! {

/// Mathematical model of one expression node. Atom symbols, bond
/// symbols and ring-closure labels are kept as the byte runs found in
/// the input, so that a tree is a lossless representation of the text
/// the grammar accepted.
pub enum ExprS {
    /// One bracketed atom: the symbol text before the `:` and the map
    /// number after it.
    Atom(Seq<u8>, usize),
    /// A single-character bond symbol.
    Bond(u8),
    /// A bare ring-closure number outside brackets.
    Label(Seq<u8>),
    /// A parenthesized sub-sequence.
    Branch(Seq<ExprS>),
}

/// One expression node, as executable data.
#[derive(Debug)]
pub enum Expr {
    /// One bracketed atom: the symbol text before the `:` and the map
    /// number after it.
    Atom(Vec<u8>, usize),
    /// A single-character bond symbol.
    Bond(u8),
    /// A bare ring-closure number outside brackets.
    Label(Vec<u8>),
    /// A parenthesized sub-sequence.
    Branch(Vec<Expr>),
}

impl DeepView for Expr {
    type V = ExprS;

    open spec fn deep_view(&self) -> ExprS
        decreases self, 0int,
    {
        match self {
            Expr::Atom(symbol, map_number) => ExprS::Atom(symbol@, *map_number),
            Expr::Bond(symbol) => ExprS::Bond(*symbol),
            Expr::Label(digits) => ExprS::Label(digits@),
            Expr::Branch(children) => ExprS::Branch(deep_view_seq(children@)),
        }
    }
}

/// The deep view of a sequence of nodes, element by element.
pub open spec fn deep_view_seq(es: Seq<Expr>) -> Seq<ExprS>
    decreases es, 1int,
{
    if es.len() == 0 {
        Seq::empty()
    } else {
        seq![es[0].deep_view()] + deep_view_seq(es.drop_first())
    }
}

/// The deep view of a sequence is the sequence of deep views.
pub proof fn lemma_deep_view_seq(es: Seq<Expr>)
    ensures
        deep_view_seq(es).len() == es.len(),
        forall|i: int| 0 <= i < es.len() ==> deep_view_seq(es)[i] == #[trigger] es[i].deep_view(),
    decreases es.len(),
{
    if es.len() == 0 {
        assert(deep_view_seq(es) =~= Seq::<ExprS>::empty());
    } else {
        lemma_deep_view_seq(es.drop_first());
        assert(deep_view_seq(es) == seq![es[0].deep_view()] + deep_view_seq(es.drop_first()));
        assert forall|i: int| 0 <= i < es.len() implies deep_view_seq(es)[i] == #[trigger] es[i]
            .deep_view() by {
            if i > 0 {
                assert(es.drop_first()[i - 1] == es[i]);
            }
        }
    }
}

/// A parsed structure: the ordered top-level sequence of nodes.
#[derive(Debug)]
pub struct Smiles {
    pub exprs: Vec<Expr>,
}

impl View for Smiles {
    type V = Seq<ExprS>;

    open spec fn view(&self) -> Seq<ExprS> {
        deep_view_seq(self.exprs@)
    }
}

} // verus!
