//! An earlier shape of the interpreter's data model: one value type
//! for both parsed and evaluated data, with its own reference-counted
//! list and a parser straight into it.

use crate::expression::Expression;
use crate::expression::ExpressionList;
use crate::expression::SExpr;
use crate::expression::elist_view;
use crate::expression::expr_view;
use crate::expression::spec_parse;
use crate::util::List;
use std::rc::Rc;
use vstd::prelude::*;

verus! {

/// An immutable list of values with shared tails.
#[derive(Debug, PartialEq)]
pub enum LispList {
    Cons(Type, Rc<LispList>),
    Nil,
}

/// Walks a list, handing out each successive suffix.
pub struct LispListIterator {
    list: LispList,
}

/// A value: an integer, an atom, a variable reference or a list.
#[derive(Debug, PartialEq)]
pub enum Type {
    Int(i32),
    Atom(Rc<Vec<u8>>),
    Var(Rc<Vec<u8>>),
    LispList(Rc<LispList>),
}

/// The error of a parse: the input is not one well-formed value.
#[derive(Debug, Clone, PartialEq)]
pub enum TypeConversionError {
    InvalidToken,
}

/// The elements of a list, in order.
pub open spec fn lseq(l: LispList) -> Seq<Type>
    decreases l,
{
    match l {
        LispList::Nil => Seq::empty(),
        LispList::Cons(h, t) => seq![h] + lseq(*t),
    }
}

/// The grammar shape a value stands for.
pub open spec fn type_shape(t: Type) -> SExpr
    decreases t,
{
    match t {
        Type::Int(i) => SExpr::Int(i),
        Type::Atom(s) => SExpr::Atom(s@),
        Type::Var(s) => SExpr::Var(s@),
        Type::LispList(l) => SExpr::List(list_shape(*l)),
    }
}

/// The grammar shapes of the elements of a list, in order.
pub open spec fn list_shape(l: LispList) -> Seq<SExpr>
    decreases l,
{
    match l {
        LispList::Nil => Seq::empty(),
        LispList::Cons(h, t) => seq![type_shape(h)] + list_shape(*t),
    }
}

impl Clone for Type {
    /// A clone is the same value; list and text contents are shared.
    fn clone(&self) -> (res: Self)
        ensures
            res == *self,
    {
        match self {
            Type::Int(i) => Type::Int(*i),
            Type::Atom(s) => Type::Atom(s.clone()),
            Type::Var(s) => Type::Var(s.clone()),
            Type::LispList(l) => Type::LispList(l.clone()),
        }
    }
}

impl Clone for LispList {
    /// A clone is the same list; the tail is shared.
    fn clone(&self) -> (res: Self)
        ensures
            res == *self,
    {
        match self {
            LispList::Nil => LispList::Nil,
            LispList::Cons(h, t) => LispList::Cons(h.clone(), t.clone()),
        }
    }
}

impl LispList {
    /// The empty list.
    pub fn new() -> (r: LispList)
        ensures
            r == LispList::Nil,
    {
        LispList::Nil
    }

    /// Prepend one value; the receiver becomes the shared tail.
    pub fn cons(&self, tp: &Type) -> (r: LispList)
        ensures
            lseq(r) == seq![*tp] + lseq(*self),
    {
        LispList::Cons(tp.clone(), Rc::new(self.clone()))
    }

    /// The first element, if there is one.
    pub fn head(&self) -> (r: Option<Type>)
        ensures
            match r {
                Some(v) => lseq(*self).len() > 0 && v == lseq(*self)[0],
                None => lseq(*self).len() == 0,
            },
    {
        match self {
            LispList::Nil => None,
            LispList::Cons(tp, _) => Some(tp.clone()),
        }
    }

    /// Everything after the first element; the empty list stays empty.
    pub fn tail(&self) -> (r: LispList)
        ensures
            lseq(*self).len() == 0 ==> lseq(r) == lseq(*self),
            lseq(*self).len() > 0 ==> lseq(r) == lseq(*self).drop_first(),
    {
        match self {
            LispList::Nil => self.clone(),
            LispList::Cons(_, t) => (**t).clone(),
        }
    }

    /// The number of elements, by walking the chain.
    pub fn len(&self) -> (r: u32)
        requires
            lseq(*self).len() <= u32::MAX,
        ensures
            r == lseq(*self).len(),
        decreases *self,
    {
        match self {
            LispList::Nil => 0,
            LispList::Cons(_, t) => (**t).len() + 1,
        }
    }

    /// A new list holding this list's elements in reverse order; the
    /// original is left untouched.
    pub fn reverse(&self) -> (r: LispList)
        ensures
            lseq(r) == lseq(*self).reverse(),
    {
        let r = Self::reverse_(self.clone(), LispList::new());
        proof {
            assert(lseq(r) =~= lseq(*self).reverse());
        }
        r
    }

    fn reverse_(rest: LispList, acc: LispList) -> (r: LispList)
        ensures
            lseq(r) == lseq(rest).reverse() + lseq(acc),
        decreases rest,
    {
        match rest {
            LispList::Nil => {
                proof {
                    assert(lseq(LispList::Nil).reverse() + lseq(acc) =~= lseq(acc));
                }
                acc
            },
            LispList::Cons(h, t) => {
                let next = acc.cons(&h);
                let tl = (*t).clone();
                let r = Self::reverse_(tl, next);
                proof {
                    assert(lseq(r) =~= lseq(LispList::Cons(h, t)).reverse() + lseq(acc));
                }
                r
            },
        }
    }

    /// Start walking the suffixes of this list.
    pub fn into_iter(self) -> (r: LispListIterator)
        ensures
            r.remaining() == lseq(self),
    {
        LispListIterator { list: self }
    }
}

impl LispListIterator {
    /// The suffix the walk stands at.
    pub closed spec fn remaining(&self) -> Seq<Type> {
        lseq(self.list)
    }

    /// Hand out the current suffix and step past its first element;
    /// `None` once the remaining suffix is empty.
    pub fn next(&mut self) -> (r: Option<LispList>)
        ensures
            match r {
                Some(suffix) => old(self).remaining().len() > 0 && lseq(suffix) == old(
                    self,
                ).remaining() && final(self).remaining() == old(self).remaining().drop_first(),
                None => old(self).remaining().len() == 0 && final(self).remaining() == old(
                    self,
                ).remaining(),
            },
    {
        let cur = self.list.clone();
        if let LispList::Cons(_, t) = &cur {
            self.list = (**t).clone();
            Some(cur)
        } else {
            None
        }
    }
}

impl Type {
    /// Parse the whole input as exactly one value.  `Ok` holds the
    /// parsed value when `spec_parse` accepts the input; every
    /// rejected input is reported as `InvalidToken`.
    pub fn try_from(bytes: &[u8]) -> (r: Result<Type, TypeConversionError>)
        ensures
            match r {
                Ok(t) => spec_parse(bytes@) == Some(type_shape(t)),
                Err(err) => spec_parse(bytes@) is None && err == TypeConversionError::InvalidToken,
            },
    {
        match Expression::try_from(bytes) {
            Ok(e) => Ok(Self::from_expression(&e)),
            Err(_) => Err(TypeConversionError::InvalidToken),
        }
    }

    /// The same tree as the expression, node for node.
    fn from_expression(e: &Expression) -> (r: Type)
        ensures
            type_shape(r) == expr_view(*e),
        decreases *e,
    {
        match e {
            Expression::Int(i) => Type::Int(*i),
            Expression::Atom(s) => Type::Atom(s.clone()),
            Expression::Var(s) => Type::Var(s.clone()),
            Expression::ExpressionList(l) => {
                let ll = Self::list_from_expressions(&**l);
                Type::LispList(Rc::new(ll))
            },
        }
    }

    fn list_from_expressions(l: &ExpressionList) -> (r: LispList)
        ensures
            list_shape(r) == elist_view(*l),
        decreases *l,
    {
        match l {
            List::Nil => LispList::Nil,
            List::Cons(h, t) => LispList::Cons(
                Self::from_expression(h),
                Rc::new(Self::list_from_expressions(&**t)),
            ),
        }
    }
}

} // verus!
