use liblisp::expression::Expression;
use liblisp::expression::ExpressionConversionError;
use liblisp::expression::ExpressionList;
use liblisp::lisp;
use liblisp::ltypes;
use liblisp::util::List;
use std::rc::Rc;

#[test]
fn empty_and_truncated_inputs_are_errors() {
    assert_eq!(
        Expression::try_from("".as_bytes()),
        Err(ExpressionConversionError::InvalidToken)
    );
    assert_eq!(
        Expression::try_from("(".as_bytes()),
        Err(ExpressionConversionError::InvalidToken)
    );
    assert_eq!(
        Expression::try_from("(add 1".as_bytes()),
        Err(ExpressionConversionError::InvalidToken)
    );
    assert_eq!(
        Expression::try_from("*".as_bytes()),
        Err(ExpressionConversionError::InvalidToken)
    );
}

#[test]
fn variable_token_shapes() {
    assert_eq!(
        Expression::try_from("*x*".as_bytes()),
        Ok(Expression::Var(Rc::new(b"*x*".to_vec())))
    );
    assert_eq!(
        Expression::try_from("*x1*".as_bytes()),
        Ok(Expression::Var(Rc::new(b"*x1*".to_vec())))
    );
    // the token must hold exactly two asterisks, one at each end
    assert_eq!(
        Expression::try_from("*x".as_bytes()),
        Err(ExpressionConversionError::InvalidToken)
    );
    assert_eq!(
        Expression::try_from("*1*".as_bytes()),
        Err(ExpressionConversionError::InvalidToken)
    );
    assert_eq!(
        Expression::try_from("*x*y*".as_bytes()),
        Err(ExpressionConversionError::InvalidToken)
    );
    assert_eq!(
        Expression::try_from("*x*y".as_bytes()),
        Err(ExpressionConversionError::InvalidToken)
    );
}

#[test]
fn newlines_separate_forms() {
    assert_eq!(
        Expression::try_from("(add 1\n2)".as_bytes()),
        Expression::try_from("(add 1 2)".as_bytes())
    );
}

#[test]
fn tokens_need_a_clean_end() {
    assert_eq!(
        Expression::try_from("(ab(cd))".as_bytes()),
        Err(ExpressionConversionError::InvalidToken)
    );
    assert_eq!(
        Expression::try_from("12*".as_bytes()),
        Err(ExpressionConversionError::InvalidToken)
    );
}

#[test]
fn nested_lists_keep_source_order() {
    assert_eq!(
        Expression::try_from("(1 2)".as_bytes()),
        Ok(Expression::ExpressionList(Rc::new(ExpressionList::Cons(
            Expression::Int(1),
            Rc::new(ExpressionList::Cons(
                Expression::Int(2),
                Rc::new(ExpressionList::Nil)
            ))
        ))))
    );
}

#[test]
fn early_parser_quirks() {
    // trailing input after the first form is ignored
    assert_eq!(lisp::to_type("12 34".as_bytes()), Ok(lisp::Type::Int(12)));
    // a parsed list keeps its elements in reverse source order
    assert_eq!(
        lisp::to_type("(1 2)".as_bytes()),
        Ok(lisp::Type::LispList(Box::new(lisp::LispList::Cons(
            lisp::Type::Int(2),
            Box::new(lisp::LispList::Cons(
                lisp::Type::Int(1),
                Box::new(lisp::LispList::Nil)
            ))
        ))))
    );
    // only spaces separate forms here
    assert_eq!(
        lisp::to_type("(1\n2)".as_bytes()),
        Err(lisp::TypeConversionError::InvalidToken)
    );
}

#[test]
fn list_walk_yields_each_suffix() {
    let l: List<u32> = List::new().cons(3).cons(2).cons(1);
    let mut it = l.into_iter();
    let first = it.next().unwrap();
    assert_eq!(first.head(), Some(&1));
    let second = it.next().unwrap();
    assert_eq!(second.head(), Some(&2));
    let third = it.next().unwrap();
    assert_eq!(third.head(), Some(&3));
    assert_eq!(third.tail(), &List::Nil);
    assert!(it.next().is_none());
}

#[test]
fn list_reverse_builds_a_fresh_list() {
    let l: List<u32> = List::new().cons(3).cons(2).cons(1);
    let r = l.reverse();
    assert_eq!(r.head(), Some(&3));
    assert_eq!(r.tail().head(), Some(&2));
    assert_eq!(r.tail().tail().head(), Some(&1));
    // the original is untouched
    assert_eq!(l.head(), Some(&1));
    assert_eq!(l.len(), 3);
}

#[test]
fn ltypes_reverse_and_iterator() {
    let l = ltypes::LispList::new()
        .cons(&ltypes::Type::Int(3))
        .cons(&ltypes::Type::Int(2))
        .cons(&ltypes::Type::Int(1));
    let r = l.reverse();
    assert_eq!(r.head(), Some(ltypes::Type::Int(3)));
    assert_eq!(r.tail().head(), Some(ltypes::Type::Int(2)));
    assert_eq!(r.tail().tail().head(), Some(ltypes::Type::Int(1)));
    assert_eq!(l.head(), Some(ltypes::Type::Int(1)));

    let mut it = l.into_iter();
    assert_eq!(it.next().unwrap().head(), Some(ltypes::Type::Int(1)));
    assert_eq!(it.next().unwrap().head(), Some(ltypes::Type::Int(2)));
    assert_eq!(it.next().unwrap().head(), Some(ltypes::Type::Int(3)));
    assert!(it.next().is_none());
}
