//! The formula abstract syntax tree: terminal atoms, references to other
//! cells, and operator applications over an ordered argument list, with
//! the evaluation error taxonomy. Each executable type has a ghost view
//! (`AtomV`, `FormulaV`, `ErrV`) that the engine's contracts speak of.

use vstd::prelude::*;

use crate::coord::Coord;
use crate::number::{Number, RatV};

verus! {

/// The operators of the formula language.
#[derive(Debug, Clone, Copy, PartialEq, Eq, Structural)]
pub enum FormulaOp {
    Add,
    Sub,
    Mul,
    Div,
    Avg,
}

/// A terminal formula value.
#[derive(Debug, Clone, PartialEq)]
pub enum FormulaAtom {
    Empty,
    String(String),
    Number(Number),
}

/// The ghost view of a terminal value.
pub enum AtomV {
    Empty,
    Text(Seq<char>),
    Num(RatV),
}

impl FormulaAtom {
    /// The ghost view of this atom.
    pub open spec fn dv(&self) -> AtomV {
        match self {
            FormulaAtom::Empty => AtomV::Empty,
            FormulaAtom::String(s) => AtomV::Text(s@),
            FormulaAtom::Number(n) => AtomV::Num(n@),
        }
    }
}

/// A formula: a terminal atom, a reference to another cell, or an
/// operator applied to an ordered list of sub-formulas.
#[derive(Debug, PartialEq)]
pub enum Formula {
    Atom(FormulaAtom),
    Ref(Coord),
    Op(FormulaOp, Vec<Formula>),
}

/// The ghost view of a formula.
pub enum FormulaV {
    Atom(AtomV),
    Ref(Coord),
    Op(FormulaOp, Seq<FormulaV>),
}

impl Formula {
    /// The ghost view of this formula.
    pub open spec fn dv(&self) -> FormulaV
        decreases self,
    {
        match self {
            Formula::Atom(a) => FormulaV::Atom(a.dv()),
            Formula::Ref(c) => FormulaV::Ref(*c),
            Formula::Op(op, args) => FormulaV::Op(*op, seq_dv(args@)),
        }
    }
}

/// The ghost views of a list of formulas, in order.
pub open spec fn seq_dv(s: Seq<Formula>) -> Seq<FormulaV>
    decreases s,
{
    if s.len() == 0 {
        Seq::empty()
    } else {
        seq![s[0].dv()] + seq_dv(s.drop_first())
    }
}

pub proof fn lemma_seq_dv(s: Seq<Formula>)
    ensures
        seq_dv(s).len() == s.len(),
        forall|i: int| 0 <= i < s.len() ==> #[trigger] seq_dv(s)[i] == s[i].dv(),
    decreases s.len(),
{
    if s.len() > 0 {
        lemma_seq_dv(s.drop_first());
        assert(forall|i: int| 1 <= i < s.len() ==> #[trigger] s[i] == s.drop_first()[i - 1]);
        assert(forall|i: int|
            1 <= i < s.len() ==> #[trigger] seq_dv(s)[i] == seq_dv(s.drop_first())[i - 1]);
    }
}

/// An evaluation error. A `Ref` is a detected cycle, carrying the
/// coordinate at which the cycle closed; `Type` carries the name of the
/// atom kind an operator needed; `Arity` the least argument count it
/// needed. `DivByZero` and `Overflow` report an exact result that does
/// not exist or cannot be represented.
#[derive(Debug, Clone, PartialEq)]
pub enum FormulaErr {
    Ref(Coord),
    Type(&'static str),
    Arity(u8),
    DivByZero,
    Overflow,
}

/// The ghost view of an evaluation error.
pub enum ErrV {
    Ref(Coord),
    Type(Seq<char>),
    Arity(u8),
    DivByZero,
    Overflow,
}

impl FormulaErr {
    /// The ghost view of this error.
    pub open spec fn dv(&self) -> ErrV {
        match self {
            FormulaErr::Ref(c) => ErrV::Ref(*c),
            FormulaErr::Type(s) => ErrV::Type(s@),
            FormulaErr::Arity(n) => ErrV::Arity(*n),
            FormulaErr::DivByZero => ErrV::DivByZero,
            FormulaErr::Overflow => ErrV::Overflow,
        }
    }
}

/// An owned copy of an atom, equal to the original in view.
pub fn dup_atom(a: &FormulaAtom) -> (r: FormulaAtom)
    ensures
        r.dv() == a.dv(),
{
    match a {
        FormulaAtom::Empty => FormulaAtom::Empty,
        FormulaAtom::String(s) => FormulaAtom::String(s.clone()),
        FormulaAtom::Number(n) => FormulaAtom::Number(*n),
    }
}

} // verus!
