//! The first shape of the interpreter's data model: one value type, a
//! boxed list, and a parser for integers, atoms and parenthesized
//! lists.  Only spaces separate forms, variables are not yet part of
//! the grammar, trailing input after one form is ignored, and a parsed
//! list keeps its elements in the order they were prepended — the
//! reverse of the source order.

use crate::expression::SExpr;
use crate::expression::digits_value;
use crate::expression::is_alpha_byte;
use crate::expression::is_atom_byte;
use crate::expression::is_digit_byte;
use crate::expression::lemma_scan_while_advances;
use crate::expression::scan_atom;
use crate::expression::scan_digits;
use std::rc::Rc;
use vstd::prelude::*;

verus! {

/// An immutable list of values with boxed tails.
#[derive(Debug, PartialEq)]
pub enum LispList {
    Cons(Type, Box<LispList>),
    Nil,
}

/// A value: an integer, an atom or a list.
#[derive(Debug, PartialEq)]
pub enum Type {
    Int(i32),
    Atom(Rc<Vec<u8>>),
    LispList(Box<LispList>),
}

/// The error of a parse: no well-formed value starts the input.
#[derive(Debug, Clone, PartialEq)]
pub enum TypeConversionError {
    InvalidToken,
}

/// The elements of a list, in order.
pub open spec fn lseq(l: LispList) -> Seq<Type>
    decreases l,
{
    match l {
        LispList::Nil => Seq::empty(),
        LispList::Cons(h, t) => seq![h] + lseq(*t),
    }
}

/// The grammar shape a value stands for.
pub open spec fn type_shape(t: Type) -> SExpr
    decreases t,
{
    match t {
        Type::Int(i) => SExpr::Int(i),
        Type::Atom(s) => SExpr::Atom(s@),
        Type::LispList(l) => SExpr::List(list_shape(*l)),
    }
}

/// The grammar shapes of the elements of a list, in order.
pub open spec fn list_shape(l: LispList) -> Seq<SExpr>
    decreases l,
{
    match l {
        LispList::Nil => Seq::empty(),
        LispList::Cons(h, t) => seq![type_shape(h)] + list_shape(*t),
    }
}

/// The grammar shapes of a sequence of values, in order.
pub open spec fn shapes(s: Seq<Type>) -> Seq<SExpr> {
    s.map_values(|t: Type| type_shape(t))
}

/// A byte that may follow a finished token here: `)` or a space.
pub open spec fn is_early_token_end_byte(b: u8) -> bool {
    b == 41 || b == 32
}

/// One form starting at position `i`: the parsed shape and the
/// position just past it.  A parsed list holds its elements in
/// reverse source order.
pub open spec fn spec_to_type_form(s: Seq<u8>, i: int) -> Option<(SExpr, int)>
    decreases s.len() - i, 0int,
{
    if i < 0 || i >= s.len() {
        None
    } else if s[i] == 40 {
        // '('
        match spec_to_type_list(s, i + 1) {
            Some((es, j)) => Some((SExpr::List(es.reverse()), j)),
            None => None,
        }
    } else if is_digit_byte(s[i]) {
        let end = scan_digits(s, i);
        if end < s.len() && !is_early_token_end_byte(s[end]) {
            None
        } else {
            Some((SExpr::Int(digits_value(s.subrange(i, end))), end))
        }
    } else if is_alpha_byte(s[i]) {
        let end = scan_atom(s, i);
        if end < s.len() && !is_early_token_end_byte(s[end]) {
            None
        } else {
            Some((SExpr::Atom(s.subrange(i, end)), end))
        }
    } else {
        None
    }
}

/// The elements of a list from position `i` to the matching `)`, in
/// source order, and the position just past the `)`.
pub open spec fn spec_to_type_list(s: Seq<u8>, i: int) -> Option<(Seq<SExpr>, int)>
    decreases s.len() - i, 1int,
{
    if i < 0 || i >= s.len() {
        // the input ended inside the list
        None
    } else if s[i] == 32 {
        spec_to_type_list(s, i + 1)
    } else if s[i] == 41 {
        // ')'
        Some((Seq::empty(), i + 1))
    } else {
        match spec_to_type_form(s, i) {
            None => None,
            Some((e, j)) => if j <= i || j > s.len() {
                // a parsed form always moves forward (lemma_spec_to_type_form_advances);
                // the test keeps the recursion visibly bounded
                None
            } else {
                match spec_to_type_list(s, j) {
                    None => None,
                    Some((es, k)) => Some((seq![e] + es, k)),
                }
            },
        }
    }
}

/// The first form of the input; whatever follows it is ignored.
pub open spec fn spec_to_type(s: Seq<u8>) -> Option<SExpr> {
    match spec_to_type_form(s, 0) {
        Some((e, j)) => Some(e),
        None => None,
    }
}

/// A successfully parsed form consumes at least one byte and stops
/// within the input.
pub proof fn lemma_spec_to_type_form_advances(s: Seq<u8>, i: int)
    ensures
        match spec_to_type_form(s, i) {
            Some((e, j)) => i < j <= s.len(),
            None => true,
        },
    decreases s.len() - i, 0int,
{
    if 0 <= i < s.len() {
        if s[i] == 40 {
            lemma_spec_to_type_list_advances(s, i + 1);
        } else if is_digit_byte(s[i]) {
            lemma_scan_while_advances(s, i, |b: u8| is_digit_byte(b));
        } else if is_alpha_byte(s[i]) {
            lemma_scan_while_advances(s, i, |b: u8| is_atom_byte(b));
        }
    }
}

/// A successfully parsed list body consumes at least its closing `)`.
pub proof fn lemma_spec_to_type_list_advances(s: Seq<u8>, i: int)
    ensures
        match spec_to_type_list(s, i) {
            Some((es, j)) => i < j <= s.len(),
            None => true,
        },
    decreases s.len() - i, 1int,
{
    if 0 <= i < s.len() {
        if s[i] == 32 {
            lemma_spec_to_type_list_advances(s, i + 1);
        } else if s[i] == 41 {
        } else {
            lemma_spec_to_type_form_advances(s, i);
            match spec_to_type_form(s, i) {
                Some((e, j)) => {
                    if i < j && j <= s.len() {
                        lemma_spec_to_type_list_advances(s, j);
                    }
                },
                None => {},
            }
        }
    }
}

impl Clone for Type {
    /// A clone is the same value, list spine included.
    fn clone(&self) -> (res: Self)
        ensures
            res == *self,
        decreases *self,
    {
        match self {
            Type::Int(i) => Type::Int(*i),
            Type::Atom(s) => Type::Atom(s.clone()),
            Type::LispList(l) => Type::LispList(Box::new((**l).clone())),
        }
    }
}

impl Clone for LispList {
    /// A clone is the same list, rebuilt node by node.
    fn clone(&self) -> (res: Self)
        ensures
            res == *self,
        decreases *self,
    {
        match self {
            LispList::Nil => LispList::Nil,
            LispList::Cons(h, t) => LispList::Cons(h.clone(), Box::new((**t).clone())),
        }
    }
}

impl LispList {
    /// The empty list.
    pub fn new() -> (r: LispList)
        ensures
            r == LispList::Nil,
    {
        LispList::Nil
    }

    /// Prepend one value to a copy of this list.
    pub fn cons(&self, tp: &Type) -> (r: LispList)
        ensures
            lseq(r) == seq![*tp] + lseq(*self),
    {
        LispList::Cons(tp.clone(), Box::new(self.clone()))
    }

    /// The first element, if there is one.
    pub fn head(&self) -> (r: Option<Type>)
        ensures
            match r {
                Some(v) => lseq(*self).len() > 0 && v == lseq(*self)[0],
                None => lseq(*self).len() == 0,
            },
    {
        match self {
            LispList::Nil => None,
            LispList::Cons(tp, _) => Some(tp.clone()),
        }
    }

    /// Everything after the first element; the empty list stays empty.
    pub fn tail(&self) -> (r: LispList)
        ensures
            lseq(*self).len() == 0 ==> lseq(r) == lseq(*self),
            lseq(*self).len() > 0 ==> lseq(r) == lseq(*self).drop_first(),
    {
        match self {
            LispList::Nil => self.clone(),
            LispList::Cons(_, t) => (**t).clone(),
        }
    }

    /// The number of elements, by walking the chain.
    pub fn len(&self) -> (r: u32)
        requires
            lseq(*self).len() <= u32::MAX,
        ensures
            r == lseq(*self).len(),
        decreases *self,
    {
        match self {
            LispList::Nil => 0,
            LispList::Cons(_, t) => (**t).len() + 1,
        }
    }
}

/// Parse the first form of the input as a value.  `Ok` holds the
/// parsed value when `spec_to_type` accepts the input; every rejected
/// input is reported as `InvalidToken`.
pub fn to_type(bytes: &[u8]) -> (r: Result<Type, TypeConversionError>)
    ensures
        match r {
            Ok(t) => spec_to_type(bytes@) == Some(type_shape(t)),
            Err(err) => spec_to_type(bytes@) is None && err == TypeConversionError::InvalidToken,
        },
{
    let (res, _) = to_type_(bytes, 0);
    res
}

/// Turn a buffer of parsed values into a boxed list holding the same
/// values in reverse order.
#[verifier::loop_isolation(false)]
fn vec_to_llist_reversed(v: &Vec<Type>) -> (r: LispList)
    ensures
        list_shape(r) == shapes(v@).reverse(),
{
    let mut l = LispList::Nil;
    let mut k: usize = 0;
    proof {
        assert(list_shape(l) =~= shapes(v@.subrange(0, 0)).reverse());
    }
    while k < v.len()
        invariant
            k <= v@.len(),
            list_shape(l) == shapes(v@.subrange(0, k as int)).reverse(),
        decreases v@.len() - k,
    {
        l = LispList::Cons(v[k].clone(), Box::new(l));
        proof {
            assert(list_shape(l) =~= shapes(v@.subrange(0, k + 1)).reverse());
        }
        k = k + 1;
    }
    proof {
        assert(v@.subrange(0, v@.len() as int) =~= v@);
    }
    l
}

/// Parse one form starting at position `i`, returning the form and
/// the position just past it.
#[verifier::loop_isolation(false)]
fn to_type_(bytes: &[u8], i: usize) -> (r: (Result<Type, TypeConversionError>, usize))
    requires
        i <= bytes@.len(),
    ensures
        match spec_to_type_form(bytes@, i as int) {
            Some((e, j)) => match r.0 {
                Ok(t) => type_shape(t) == e && r.1 == j,
                Err(_) => false,
            },
            None => match r.0 {
                Ok(_) => false,
                Err(err) => err == TypeConversionError::InvalidToken,
            },
        },
    decreases bytes@.len() - i,
{
    let ghost s = bytes@;
    if i >= bytes.len() {
        return (Err(TypeConversionError::InvalidToken), i);
    }
    let head_ch = bytes[i];
    if head_ch == 40 {
        // '(' — gather the elements up to the matching ')'
        let mut elems: Vec<Type> = Vec::new();
        let mut cur = i + 1;
        proof {
            assert(shapes(elems@) =~= Seq::<SExpr>::empty());
            match spec_to_type_list(s, i + 1) {
                Some((es, k)) => {
                    assert(shapes(elems@) + es =~= es);
                },
                None => {},
            }
        }
        while !(cur < bytes.len() && bytes[cur] == 41)
            invariant
                i + 1 <= cur <= s.len(),
                spec_to_type_list(s, i + 1) == (match spec_to_type_list(s, cur as int) {
                    Some((es, k)) => Some((shapes(elems@) + es, k)),
                    None => None::<(Seq<SExpr>, int)>,
                }),
            decreases s.len() - cur,
        {
            let ghost cur0 = cur;
            // skip runs of spaces
            while cur < bytes.len() && bytes[cur] == 32
                invariant
                    i + 1 <= cur <= s.len(),
                    cur0 <= cur,
                    spec_to_type_list(s, i + 1) == (match spec_to_type_list(s, cur as int) {
                        Some((es, k)) => Some((shapes(elems@) + es, k)),
                        None => None::<(Seq<SExpr>, int)>,
                    }),
                decreases s.len() - cur,
            {
                cur = cur + 1;
            }
            if cur == bytes.len() {
                // the input ended inside the list
                return (Err(TypeConversionError::InvalidToken), cur);
            }
            if bytes[cur] == 41 {
                // ')' — the while condition stops the walk here
                proof {
                    assert(cur > cur0);
                }
                continue ;
            }
            let (res, j) = to_type_(bytes, cur);
            proof {
                lemma_spec_to_type_form_advances(s, cur as int);
            }
            let e = match res {
                Ok(e) => e,
                Err(err) => {
                    return (Err(err), j);
                },
            };
            proof {
                assert(shapes(elems@.push(e)) =~= shapes(elems@) + seq![type_shape(e)]);
                match spec_to_type_list(s, j as int) {
                    Some((es, k)) => {
                        assert((shapes(elems@) + (seq![type_shape(e)] + es)) =~= (shapes(elems@)
                            + seq![type_shape(e)]) + es);
                    },
                    None => {},
                }
            }
            elems.push(e);
            cur = j;
        }
        proof {
            assert(shapes(elems@) + Seq::<SExpr>::empty() =~= shapes(elems@));
        }
        let l = vec_to_llist_reversed(&elems);
        (Ok(Type::LispList(Box::new(l))), cur + 1)
    } else if 48 <= head_ch && head_ch <= 57 {
        let mut num: i32 = 0;
        let mut j = i;
        while j < bytes.len() && 48 <= bytes[j] && bytes[j] <= 57
            invariant
                i <= j <= s.len(),
                scan_digits(s, i as int) == scan_digits(s, j as int),
                num == digits_value(s.subrange(i as int, j as int)),
            decreases s.len() - j,
        {
            proof {
                assert(s.subrange(i as int, j + 1).drop_last() =~= s.subrange(i as int, j as int));
            }
            num = num.wrapping_mul(10).wrapping_add((bytes[j] - 48) as i32);
            j = j + 1;
        }
        if j < bytes.len() && !(bytes[j] == 41 || bytes[j] == 32) {
            return (Err(TypeConversionError::InvalidToken), j);
        }
        (Ok(Type::Int(num)), j)
    } else if (65 <= head_ch && head_ch <= 90) || (97 <= head_ch && head_ch <= 122) {
        let mut j = i;
        while j < bytes.len() && ((65 <= bytes[j] && bytes[j] <= 90) || (97 <= bytes[j] && bytes[j]
            <= 122) || (48 <= bytes[j] && bytes[j] <= 57))
            invariant
                i <= j <= s.len(),
                scan_atom(s, i as int) == scan_atom(s, j as int),
            decreases s.len() - j,
        {
            j = j + 1;
        }
        if j < bytes.len() && !(bytes[j] == 41 || bytes[j] == 32) {
            return (Err(TypeConversionError::InvalidToken), j);
        }
        let mut text: Vec<u8> = Vec::new();
        let mut k = i;
        while k < j
            invariant
                i <= k <= j <= s.len(),
                text@ == s.subrange(i as int, k as int),
            decreases j - k,
        {
            text.push(bytes[k]);
            proof {
                assert(text@ =~= s.subrange(i as int, k + 1));
            }
            k = k + 1;
        }
        (Ok(Type::Atom(Rc::new(text))), j)
    } else {
        (Err(TypeConversionError::InvalidToken), i)
    }
}

} // verus!
