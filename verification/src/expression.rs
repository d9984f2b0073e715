//! The S-expression abstract syntax tree and the parser that builds it.
//!
//! The grammar is small: a form is an integer (a run of ASCII digits), an
//! atom (an ASCII letter followed by letters and digits), a variable
//! reference (`*name*`, with exactly two `*`, one at each end), or a
//! parenthesized list of forms separated by runs of spaces and newlines.
//! A token must be followed by `)`, a space, a newline or the end of the
//! input; the whole input must be consumed by exactly one form.

use crate::util::List;
use crate::util::seq_of;
use std::rc::Rc;
use vstd::prelude::*;
use vstd::wrapping::i32_specs;

verus! {

/// A list of sub-expressions inside a parenthesized form.
pub type ExpressionList = List<Expression>;

/// A parsed, not yet evaluated expression.
#[derive(Debug, PartialEq)]
pub enum Expression {
    Int(i32),
    Atom(Rc<Vec<u8>>),
    Var(Rc<Vec<u8>>),
    ExpressionList(Rc<ExpressionList>),
}

/// The error of a parse: the input is not one well-formed expression.
#[derive(Debug, Clone, PartialEq)]
pub enum ExpressionConversionError {
    InvalidToken,
}

/// The mathematical shape of an expression: what an `Expression` holds,
/// with the sharing and the reference counts forgotten.
pub enum SExpr {
    Int(i32),
    Atom(Seq<u8>),
    Var(Seq<u8>),
    List(Seq<SExpr>),
}

/// The shape of one expression.
pub open spec fn expr_view(e: Expression) -> SExpr
    decreases e,
{
    match e {
        Expression::Int(i) => SExpr::Int(i),
        Expression::Atom(s) => SExpr::Atom(s@),
        Expression::Var(s) => SExpr::Var(s@),
        Expression::ExpressionList(l) => SExpr::List(elist_view(*l)),
    }
}

/// The shapes of the expressions of a list, in order.
pub open spec fn elist_view(l: ExpressionList) -> Seq<SExpr>
    decreases l,
{
    match l {
        List::Nil => Seq::empty(),
        List::Cons(h, t) => seq![expr_view(h)] + elist_view(*t),
    }
}

impl View for Expression {
    type V = SExpr;

    open spec fn view(&self) -> SExpr {
        expr_view(*self)
    }
}

// ---- byte classes of the grammar ----
/// A byte that separates forms inside a list: space or newline.
pub open spec fn is_ws_byte(b: u8) -> bool {
    b == 32 || b == 10
}

/// An ASCII digit.
pub open spec fn is_digit_byte(b: u8) -> bool {
    48 <= b && b <= 57
}

/// An ASCII letter.
pub open spec fn is_alpha_byte(b: u8) -> bool {
    (65 <= b && b <= 90) || (97 <= b && b <= 122)
}

/// A byte that may continue an atom: a letter or a digit.
pub open spec fn is_atom_byte(b: u8) -> bool {
    is_alpha_byte(b) || is_digit_byte(b)
}

/// A byte that may continue a variable token: a letter, a digit or `*`.
pub open spec fn is_var_byte(b: u8) -> bool {
    is_atom_byte(b) || b == 42
}

/// A byte that may follow a finished token: `)`, space or newline.
pub open spec fn is_token_end_byte(b: u8) -> bool {
    b == 41 || b == 32 || b == 10
}

/// The first position at or after `i` whose byte does not satisfy `p`,
/// or the end of the input.
pub open spec fn scan_while(s: Seq<u8>, i: int, p: spec_fn(u8) -> bool) -> int
    decreases s.len() - i,
{
    if 0 <= i < s.len() && p(s[i]) {
        scan_while(s, i + 1, p)
    } else {
        i
    }
}

/// The value of a run of ASCII digits, read base 10 with wrapping
/// 32-bit arithmetic: no sign, no overflow check.
pub open spec fn digits_value(s: Seq<u8>) -> i32
    decreases s.len(),
{
    if s.len() == 0 {
        0
    } else {
        i32_specs::wrapping_add(
            i32_specs::wrapping_mul(digits_value(s.drop_last()), 10),
            (s.last() - 48) as i32,
        )
    }
}

/// How many `*` bytes a token holds.
pub open spec fn star_count(s: Seq<u8>) -> int
    decreases s.len(),
{
    if s.len() == 0 {
        0
    } else {
        star_count(s.drop_last()) + if s.last() == 42 {
            1int
        } else {
            0int
        }
    }
}

/// The end of a run of digits starting at `i`.
pub open spec fn scan_digits(s: Seq<u8>, i: int) -> int {
    scan_while(s, i, |b: u8| is_digit_byte(b))
}

/// The end of a run of atom bytes starting at `i`.
pub open spec fn scan_atom(s: Seq<u8>, i: int) -> int {
    scan_while(s, i, |b: u8| is_atom_byte(b))
}

/// The end of a run of variable bytes starting at `i`.
pub open spec fn scan_var(s: Seq<u8>, i: int) -> int {
    scan_while(s, i, |b: u8| is_var_byte(b))
}

// ---- the grammar itself ----
/// One form starting at position `i`: the parsed shape and the position
/// just past it, or `None` if no well-formed form starts there.
pub open spec fn spec_parse_expr(s: Seq<u8>, i: int) -> Option<(SExpr, int)>
    decreases s.len() - i, 0int,
{
    if i < 0 || i >= s.len() {
        None
    } else if s[i] == 40 {
        // '(' — a parenthesized list
        match spec_parse_list(s, i + 1) {
            Some((es, j)) => Some((SExpr::List(es), j)),
            None => None,
        }
    } else if is_digit_byte(s[i]) {
        let end = scan_digits(s, i);
        if end < s.len() && !is_token_end_byte(s[end]) {
            None
        } else {
            Some((SExpr::Int(digits_value(s.subrange(i, end))), end))
        }
    } else if is_alpha_byte(s[i]) {
        let end = scan_atom(s, i);
        if end < s.len() && !is_token_end_byte(s[end]) {
            None
        } else {
            Some((SExpr::Atom(s.subrange(i, end)), end))
        }
    } else if s[i] == 42 {
        // '*' — a variable token; the byte after the leading '*' must be a letter
        if i + 1 >= s.len() || !is_alpha_byte(s[i + 1]) {
            None
        } else {
            let end = scan_var(s, i + 1);
            if end < s.len() && !is_token_end_byte(s[end]) {
                None
            } else {
                let tok = s.subrange(i, end);
                if star_count(tok) == 2 && s[end - 1] == 42 {
                    Some((SExpr::Var(tok), end))
                } else {
                    None
                }
            }
        }
    } else {
        None
    }
}

/// The elements of a list from position `i` (just past `(` or past the
/// previous element) to the matching `)`: the elements in source order
/// and the position just past the `)`.
pub open spec fn spec_parse_list(s: Seq<u8>, i: int) -> Option<(Seq<SExpr>, int)>
    decreases s.len() - i, 1int,
{
    if i < 0 || i >= s.len() {
        // the input ended inside the list
        None
    } else if is_ws_byte(s[i]) {
        spec_parse_list(s, i + 1)
    } else if s[i] == 41 {
        // ')'
        Some((Seq::empty(), i + 1))
    } else {
        match spec_parse_expr(s, i) {
            None => None,
            Some((e, j)) => if j <= i || j > s.len() {
                // a parsed form always moves forward (lemma_spec_parse_expr_advances);
                // the test keeps the recursion visibly bounded
                None
            } else {
                match spec_parse_list(s, j) {
                    None => None,
                    Some((es, k)) => Some((seq![e] + es, k)),
                }
            },
        }
    }
}

/// The whole input as exactly one form, with nothing left over.
pub open spec fn spec_parse(s: Seq<u8>) -> Option<SExpr> {
    match spec_parse_expr(s, 0) {
        Some((e, j)) => if j == s.len() {
            Some(e)
        } else {
            None
        },
        None => None,
    }
}

/// A scan never moves backwards and never runs past the end.
pub proof fn lemma_scan_while_bounds(s: Seq<u8>, i: int, p: spec_fn(u8) -> bool)
    requires
        0 <= i <= s.len(),
    ensures
        i <= scan_while(s, i, p) <= s.len(),
    decreases s.len() - i,
{
    if i < s.len() && p(s[i]) {
        lemma_scan_while_bounds(s, i + 1, p);
    }
}

/// A scan that starts on a matching byte moves at least one position.
pub proof fn lemma_scan_while_advances(s: Seq<u8>, i: int, p: spec_fn(u8) -> bool)
    requires
        0 <= i < s.len(),
        p(s[i]),
    ensures
        i < scan_while(s, i, p) <= s.len(),
{
    lemma_scan_while_bounds(s, i + 1, p);
}

/// A successfully parsed form consumes at least one byte and stops
/// within the input.
pub proof fn lemma_spec_parse_expr_advances(s: Seq<u8>, i: int)
    ensures
        match spec_parse_expr(s, i) {
            Some((e, j)) => i < j <= s.len(),
            None => true,
        },
    decreases s.len() - i, 0int,
{
    if 0 <= i < s.len() {
        if s[i] == 40 {
            lemma_spec_parse_list_advances(s, i + 1);
        } else if is_digit_byte(s[i]) {
            lemma_scan_while_advances(s, i, |b: u8| is_digit_byte(b));
        } else if is_alpha_byte(s[i]) {
            lemma_scan_while_advances(s, i, |b: u8| is_atom_byte(b));
        } else if s[i] == 42 {
            if i + 1 < s.len() && is_alpha_byte(s[i + 1]) {
                lemma_scan_while_advances(s, i + 1, |b: u8| is_var_byte(b));
            }
        }
    }
}

/// A successfully parsed list body consumes at least its closing `)`.
pub proof fn lemma_spec_parse_list_advances(s: Seq<u8>, i: int)
    ensures
        match spec_parse_list(s, i) {
            Some((es, j)) => i < j <= s.len(),
            None => true,
        },
    decreases s.len() - i, 1int,
{
    if 0 <= i < s.len() {
        if is_ws_byte(s[i]) {
            lemma_spec_parse_list_advances(s, i + 1);
        } else if s[i] == 41 {
        } else {
            lemma_spec_parse_expr_advances(s, i);
            match spec_parse_expr(s, i) {
                Some((e, j)) => {
                    if i < j && j <= s.len() {
                        lemma_spec_parse_list_advances(s, j);
                    }
                },
                None => {},
            }
        }
    }
}

impl Clone for Expression {
    /// A clone is the same expression; list and text contents are shared.
    fn clone(&self) -> (res: Self)
        ensures
            res == *self,
    {
        match self {
            Expression::Int(i) => Expression::Int(*i),
            Expression::Atom(s) => Expression::Atom(s.clone()),
            Expression::Var(s) => Expression::Var(s.clone()),
            Expression::ExpressionList(l) => Expression::ExpressionList(l.clone()),
        }
    }
}

/// The shapes of a sequence of expressions, in order.
pub open spec fn exprs_view(v: Seq<Expression>) -> Seq<SExpr> {
    v.map_values(|e: Expression| expr_view(e))
}

// ---- exec mirrors of the byte classes ----
fn ws_byte(b: u8) -> (r: bool)
    ensures
        r == is_ws_byte(b),
{
    b == 32 || b == 10
}

fn digit_byte(b: u8) -> (r: bool)
    ensures
        r == is_digit_byte(b),
{
    48 <= b && b <= 57
}

fn alpha_byte(b: u8) -> (r: bool)
    ensures
        r == is_alpha_byte(b),
{
    (65 <= b && b <= 90) || (97 <= b && b <= 122)
}

fn atom_byte(b: u8) -> (r: bool)
    ensures
        r == is_atom_byte(b),
{
    alpha_byte(b) || digit_byte(b)
}

fn var_byte(b: u8) -> (r: bool)
    ensures
        r == is_var_byte(b),
{
    atom_byte(b) || b == 42
}

fn token_end_byte(b: u8) -> (r: bool)
    ensures
        r == is_token_end_byte(b),
{
    b == 41 || b == 32 || b == 10
}

/// Copy the token bytes `s[from..to]` into an owned buffer.
#[verifier::loop_isolation(false)]
fn copy_range(s: &[u8], from: usize, to: usize) -> (r: Vec<u8>)
    requires
        from <= to <= s@.len(),
    ensures
        r@ == s@.subrange(from as int, to as int),
{
    let mut v: Vec<u8> = Vec::new();
    let mut k = from;
    while k < to
        invariant
            from <= k <= to,
            v@ == s@.subrange(from as int, k as int),
        decreases to - k,
    {
        v.push(s[k]);
        proof {
            assert(v@ =~= s@.subrange(from as int, k + 1));
        }
        k = k + 1;
    }
    v
}

/// The shape list of an expression list is the shape of each element.
pub proof fn lemma_elist_view_is_exprs_view(l: &ExpressionList)
    ensures
        elist_view(*l) == exprs_view(seq_of(*l)),
    decreases *l,
{
    match l {
        List::Nil => {
            assert(elist_view(*l) =~= exprs_view(seq_of(*l)));
        },
        List::Cons(h, t) => {
            lemma_elist_view_is_exprs_view(&**t);
            assert(elist_view(*l) =~= exprs_view(seq_of(*l)));
        },
    }
}

/// Turn a buffer of parsed elements into a persistent list holding the
/// same expressions in the same order.
#[verifier::loop_isolation(false)]
fn vec_to_elist(v: &Vec<Expression>) -> (r: ExpressionList)
    ensures
        seq_of(r) == v@,
{
    let mut l = List::new();
    let mut k = v.len();
    proof {
        assert(v@.subrange(v@.len() as int, v@.len() as int) =~= Seq::<Expression>::empty());
    }
    while k > 0
        invariant
            k <= v@.len(),
            seq_of(l) == v@.subrange(k as int, v@.len() as int),
        decreases k,
    {
        k = k - 1;
        l = l.cons(v[k].clone());
        proof {
            assert(seq_of(l) =~= v@.subrange(k as int, v@.len() as int));
        }
    }
    proof {
        assert(v@.subrange(0, v@.len() as int) =~= v@);
    }
    l
}

impl Expression {
    /// Parse the whole input as exactly one expression.  `Ok` holds the
    /// parsed form when `spec_parse` accepts the input; every rejected
    /// input is reported as `InvalidToken`.
    pub fn try_from(bytes: &[u8]) -> (r: Result<Expression, ExpressionConversionError>)
        ensures
            match r {
                Ok(e) => spec_parse(bytes@) == Some(e@),
                Err(err) => spec_parse(bytes@) is None && err
                    == ExpressionConversionError::InvalidToken,
            },
    {
        let (res, consumed) = Self::try_from_(bytes, 0);
        if consumed != bytes.len() {
            return Err(ExpressionConversionError::InvalidToken);
        }
        res
    }

    /// Parse one form starting at position `i`, returning the form and
    /// the position just past it.
    #[verifier::loop_isolation(false)]
    fn try_from_(bytes: &[u8], i: usize) -> (r: (
        Result<Expression, ExpressionConversionError>,
        usize,
    ))
        requires
            i <= bytes@.len(),
        ensures
            match spec_parse_expr(bytes@, i as int) {
                Some((e, j)) => match r.0 {
                    Ok(ex) => ex@ == e && r.1 == j,
                    Err(_) => false,
                },
                None => match r.0 {
                    Ok(_) => false,
                    Err(err) => err == ExpressionConversionError::InvalidToken,
                },
            },
        decreases bytes@.len() - i,
    {
        let ghost s = bytes@;
        if i >= bytes.len() {
            return (Err(ExpressionConversionError::InvalidToken), i);
        }
        let head_ch = bytes[i];
        if head_ch == 40 {
            // '(' — gather the elements up to the matching ')'
            let mut elems: Vec<Expression> = Vec::new();
            let mut cur = i + 1;
            proof {
                assert(exprs_view(elems@) =~= Seq::<SExpr>::empty());
                match spec_parse_list(s, i + 1) {
                    Some((es, k)) => {
                        assert(exprs_view(elems@) + es =~= es);
                    },
                    None => {},
                }
            }
            while !(cur < bytes.len() && bytes[cur] == 41)
                invariant
                    i + 1 <= cur <= s.len(),
                    spec_parse_list(s, i + 1) == (match spec_parse_list(s, cur as int) {
                        Some((es, k)) => Some((exprs_view(elems@) + es, k)),
                        None => None::<(Seq<SExpr>, int)>,
                    }),
                decreases s.len() - cur,
            {
                let ghost cur0 = cur;
                // skip runs of spaces and newlines
                while cur < bytes.len() && ws_byte(bytes[cur])
                    invariant
                        i + 1 <= cur <= s.len(),
                        cur0 <= cur,
                        spec_parse_list(s, i + 1) == (match spec_parse_list(s, cur as int) {
                            Some((es, k)) => Some((exprs_view(elems@) + es, k)),
                            None => None::<(Seq<SExpr>, int)>,
                        }),
                    decreases s.len() - cur,
                {
                    cur = cur + 1;
                }
                if cur == bytes.len() {
                    // the input ended inside the list
                    return (Err(ExpressionConversionError::InvalidToken), cur);
                }
                if bytes[cur] == 41 {
                    // ')' — the while condition stops the walk here
                    proof {
                        assert(cur > cur0);
                    }
                    continue ;
                }
                let (res, j) = Self::try_from_(bytes, cur);
                proof {
                    lemma_spec_parse_expr_advances(s, cur as int);
                }
                let e = match res {
                    Ok(e) => e,
                    Err(err) => {
                        return (Err(err), j);
                    },
                };
                proof {
                    assert(exprs_view(elems@.push(e)) =~= exprs_view(elems@) + seq![e@]);
                    match spec_parse_list(s, j as int) {
                        Some((es, k)) => {
                            assert((exprs_view(elems@) + (seq![e@] + es)) =~= (exprs_view(elems@)
                                + seq![e@]) + es);
                        },
                        None => {},
                    }
                }
                elems.push(e);
                cur = j;
            }
            proof {
                assert(exprs_view(elems@) + Seq::<SExpr>::empty() =~= exprs_view(elems@));
            }
            let l = vec_to_elist(&elems);
            proof {
                lemma_elist_view_is_exprs_view(&l);
            }
            (Ok(Expression::ExpressionList(Rc::new(l))), cur + 1)
        } else if digit_byte(head_ch) {
            let mut num: i32 = 0;
            let mut j = i;
            while j < bytes.len() && digit_byte(bytes[j])
                invariant
                    i <= j <= s.len(),
                    scan_digits(s, i as int) == scan_digits(s, j as int),
                    num == digits_value(s.subrange(i as int, j as int)),
                decreases s.len() - j,
            {
                proof {
                    assert(s.subrange(i as int, j + 1).drop_last() =~= s.subrange(
                        i as int,
                        j as int,
                    ));
                }
                num = num.wrapping_mul(10).wrapping_add((bytes[j] - 48) as i32);
                j = j + 1;
            }
            if j < bytes.len() && !token_end_byte(bytes[j]) {
                return (Err(ExpressionConversionError::InvalidToken), j);
            }
            (Ok(Expression::Int(num)), j)
        } else if alpha_byte(head_ch) {
            let mut j = i;
            while j < bytes.len() && atom_byte(bytes[j])
                invariant
                    i <= j <= s.len(),
                    scan_atom(s, i as int) == scan_atom(s, j as int),
                decreases s.len() - j,
            {
                j = j + 1;
            }
            if j < bytes.len() && !token_end_byte(bytes[j]) {
                return (Err(ExpressionConversionError::InvalidToken), j);
            }
            let text = copy_range(bytes, i, j);
            (Ok(Expression::Atom(Rc::new(text))), j)
        } else if head_ch == 42 {
            // '*' — a variable token
            if i + 1 >= bytes.len() || !alpha_byte(bytes[i + 1]) {
                return (Err(ExpressionConversionError::InvalidToken), i);
            }
            let mut stars: usize = 1;
            let mut j = i + 1;
            proof {
                let t = s.subrange(i as int, i + 1);
                assert(t.len() == 1);
                assert(t.last() == s[i as int]);
                assert(t.drop_last() =~= Seq::<u8>::empty());
                assert(star_count(t.drop_last()) == 0);
                assert(star_count(t) == 1);
            }
            while j < bytes.len() && var_byte(bytes[j])
                invariant
                    i + 1 <= j <= s.len(),
                    scan_var(s, i + 1 as int) == scan_var(s, j as int),
                    stars == star_count(s.subrange(i as int, j as int)),
                    stars <= j - i,
                decreases s.len() - j,
            {
                proof {
                    assert(s.subrange(i as int, j + 1).drop_last() =~= s.subrange(
                        i as int,
                        j as int,
                    ));
                }
                if bytes[j] == 42 {
                    stars = stars + 1;
                }
                j = j + 1;
            }
            if j < bytes.len() && !token_end_byte(bytes[j]) {
                return (Err(ExpressionConversionError::InvalidToken), j);
            }
            if stars == 2 && bytes[j - 1] == 42 {
                let text = copy_range(bytes, i, j);
                (Ok(Expression::Var(Rc::new(text))), j)
            } else {
                (Err(ExpressionConversionError::InvalidToken), j)
            }
        } else {
            (Err(ExpressionConversionError::InvalidToken), i)
        }
    }
}

} // verus!
