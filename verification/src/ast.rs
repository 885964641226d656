//! The expression tree produced by the parser, together with its
//! mathematical model: `Ast` is the executable tree (numeric literals kept
//! as their source text), `AstS` is the same tree with literals as
//! character sequences, used by every contract in the crate.

use vstd::prelude::*;
use crate::filtermodifier::FilterModifier;

verus! {

/// An expression: arithmetic operators, unary minus, a dice roll with
/// optional count and sides and a filter modifier, or a numeric literal
/// kept as its original decimal text.  The `u64` of a `Dice` node is its
/// position key: the cursor position of the `d` in the source text, used to
/// join the node to its entry in the roll trace.
#[derive(Debug, PartialEq)]
pub enum Ast {
    Add(Box<Ast>, Box<Ast>),
    Sub(Box<Ast>, Box<Ast>),
    Mul(Box<Ast>, Box<Ast>),
    Div(Box<Ast>, Box<Ast>),
    Mod(Box<Ast>, Box<Ast>),
    IDiv(Box<Ast>, Box<Ast>),
    Power(Box<Ast>, Box<Ast>),
    Minus(Box<Ast>),
    Dice(Option<Box<Ast>>, Option<Box<Ast>>, FilterModifier<Box<Ast>>, u64),
    Const(String),
}

/// The model of an expression tree: shaped exactly like [`Ast`], with each
/// stored literal abstracted to its character sequence.
pub enum AstS {
    Add(Box<AstS>, Box<AstS>),
    Sub(Box<AstS>, Box<AstS>),
    Mul(Box<AstS>, Box<AstS>),
    Div(Box<AstS>, Box<AstS>),
    Mod(Box<AstS>, Box<AstS>),
    IDiv(Box<AstS>, Box<AstS>),
    Power(Box<AstS>, Box<AstS>),
    Minus(Box<AstS>),
    Dice(Option<Box<AstS>>, Option<Box<AstS>>, FilterModifier<Box<AstS>>, u64),
    Const(Seq<char>),
}

/// The model of an optional boxed subtree.
pub open spec fn obox_view(o: Option<Box<Ast>>) -> Option<Box<AstS>>
    decreases o,
{
    match o {
        Option::Some(b) => Option::Some(Box::new(ast_view(*b))),
        Option::None => Option::None,
    }
}

/// The model of a filter modifier over subtrees.
pub open spec fn fmb_view(fm: FilterModifier<Box<Ast>>) -> FilterModifier<Box<AstS>>
    decreases fm,
{
    match fm {
        FilterModifier::KeepLowest(b) => FilterModifier::KeepLowest(Box::new(ast_view(*b))),
        FilterModifier::KeepHighest(b) => FilterModifier::KeepHighest(Box::new(ast_view(*b))),
        FilterModifier::DropLowest(b) => FilterModifier::DropLowest(Box::new(ast_view(*b))),
        FilterModifier::DropHighest(b) => FilterModifier::DropHighest(Box::new(ast_view(*b))),
        FilterModifier::Unfiltered => FilterModifier::Unfiltered,
    }
}

/// The model of an executable tree.
pub open spec fn ast_view(a: Ast) -> AstS
    decreases a,
{
    ({
        match a {
            Ast::Add(l, r) => AstS::Add(Box::new(ast_view(*l)), Box::new(ast_view(*r))),
            Ast::Sub(l, r) => AstS::Sub(Box::new(ast_view(*l)), Box::new(ast_view(*r))),
            Ast::Mul(l, r) => AstS::Mul(Box::new(ast_view(*l)), Box::new(ast_view(*r))),
            Ast::Div(l, r) => AstS::Div(Box::new(ast_view(*l)), Box::new(ast_view(*r))),
            Ast::Mod(l, r) => AstS::Mod(Box::new(ast_view(*l)), Box::new(ast_view(*r))),
            Ast::IDiv(l, r) => AstS::IDiv(Box::new(ast_view(*l)), Box::new(ast_view(*r))),
            Ast::Power(l, r) => AstS::Power(Box::new(ast_view(*l)), Box::new(ast_view(*r))),
            Ast::Minus(l) => AstS::Minus(Box::new(ast_view(*l))),
            Ast::Dice(c, s, fm, dp) => AstS::Dice(obox_view(c), obox_view(s), fmb_view(fm), dp),
            Ast::Const(s) => AstS::Const(s@),
        }
    })
}

impl View for Ast {
    type V = AstS;

    open spec fn view(&self) -> AstS {
        ast_view(*self)
    }
}

impl Ast {
    /// A structural copy whose model is the same tree.
    pub fn duplicate(&self) -> (r: Ast)
        ensures
            r@ == self@,
        decreases self,
    {
        match self {
            Ast::Add(l, r) => Ast::Add(Box::new(l.duplicate()), Box::new(r.duplicate())),
            Ast::Sub(l, r) => Ast::Sub(Box::new(l.duplicate()), Box::new(r.duplicate())),
            Ast::Mul(l, r) => Ast::Mul(Box::new(l.duplicate()), Box::new(r.duplicate())),
            Ast::Div(l, r) => Ast::Div(Box::new(l.duplicate()), Box::new(r.duplicate())),
            Ast::Mod(l, r) => Ast::Mod(Box::new(l.duplicate()), Box::new(r.duplicate())),
            Ast::IDiv(l, r) => Ast::IDiv(Box::new(l.duplicate()), Box::new(r.duplicate())),
            Ast::Power(l, r) => Ast::Power(Box::new(l.duplicate()), Box::new(r.duplicate())),
            Ast::Minus(l) => Ast::Minus(Box::new(l.duplicate())),
            Ast::Dice(c, s, fm, dp) => {
                let c2: Option<Box<Ast>> = match c {
                    Option::Some(b) => Option::Some(Box::new(b.duplicate())),
                    Option::None => Option::None,
                };
                proof {
                    assert(obox_view(c2) == obox_view(*c));
                }
                let s2: Option<Box<Ast>> = match s {
                    Option::Some(b) => Option::Some(Box::new(b.duplicate())),
                    Option::None => Option::None,
                };
                proof {
                    assert(obox_view(s2) == obox_view(*s));
                }
                let fm2: FilterModifier<Box<Ast>> = match fm {
                    FilterModifier::KeepLowest(b) => FilterModifier::KeepLowest(
                        Box::new(b.duplicate()),
                    ),
                    FilterModifier::KeepHighest(b) => FilterModifier::KeepHighest(
                        Box::new(b.duplicate()),
                    ),
                    FilterModifier::DropLowest(b) => FilterModifier::DropLowest(
                        Box::new(b.duplicate()),
                    ),
                    FilterModifier::DropHighest(b) => FilterModifier::DropHighest(
                        Box::new(b.duplicate()),
                    ),
                    FilterModifier::Unfiltered => FilterModifier::Unfiltered,
                };
                proof {
                    assert(fmb_view(fm2) == fmb_view(*fm));
                }
                Ast::Dice(c2, s2, fm2, *dp)
            },
            Ast::Const(s) => Ast::Const(s.clone()),
        }
    }
}

} // verus!
