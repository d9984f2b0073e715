//! The run-time values of the evaluator.

use crate::util::List;
use std::rc::Rc;
use vstd::prelude::*;

verus! {

/// A list of evaluated values, sharing structure with the lists it was
/// built from.
pub type TypeList = List<Type>;

/// An evaluated value: what running an expression leaves behind.
/// `Void` is the result of the loop form alone.
#[derive(Debug, PartialEq)]
pub enum Type {
    Int(i32),
    Atom(Rc<Vec<u8>>),
    TypeList(Rc<TypeList>),
    Void,
}

/// The mathematical shape of a value, with sharing and reference
/// counts forgotten.
pub enum SVal {
    Int(i32),
    Atom(Seq<u8>),
    List(Seq<SVal>),
    Void,
}

/// The shape of one value.
pub open spec fn type_view(t: Type) -> SVal
    decreases t,
{
    match t {
        Type::Int(i) => SVal::Int(i),
        Type::Atom(s) => SVal::Atom(s@),
        Type::TypeList(l) => SVal::List(tlist_view(*l)),
        Type::Void => SVal::Void,
    }
}

/// The shapes of the values of a list, in order.
pub open spec fn tlist_view(l: TypeList) -> Seq<SVal>
    decreases l,
{
    match l {
        List::Nil => Seq::empty(),
        List::Cons(h, t) => seq![type_view(h)] + tlist_view(*t),
    }
}

impl View for Type {
    type V = SVal;

    open spec fn view(&self) -> SVal {
        type_view(*self)
    }
}

impl Clone for Type {
    /// A clone is the same value; list and text contents are shared.
    fn clone(&self) -> (res: Self)
        ensures
            res == *self,
    {
        match self {
            Type::Int(i) => Type::Int(*i),
            Type::Atom(s) => Type::Atom(s.clone()),
            Type::TypeList(l) => Type::TypeList(l.clone()),
            Type::Void => Type::Void,
        }
    }
}

} // verus!
