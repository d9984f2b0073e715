use liblisp::expression::Expression;
use liblisp::expression::ExpressionConversionError;
use liblisp::expression::ExpressionList;
use std::rc::Rc;

#[test]
fn expression_type_tests() {
    assert_eq!(
        Expression::try_from("12345".as_bytes()),
        Ok(Expression::Int(12345))
    );
    assert_eq!(
        Expression::try_from("atom".as_bytes()),
        Ok(Expression::Atom(Rc::new(b"atom".to_vec())))
    );
    assert_eq!(
        Expression::try_from("atom123".as_bytes()),
        Ok(Expression::Atom(Rc::new(b"atom123".to_vec())))
    );
    assert_eq!(
        Expression::try_from("123atom".as_bytes()),
        Err(ExpressionConversionError::InvalidToken)
    );
    assert_eq!(
        Expression::try_from("( )".as_bytes()),
        Ok(Expression::ExpressionList(Rc::new(ExpressionList::Nil)))
    );
    assert_eq!(
        Expression::try_from("( ( ) )".as_bytes()),
        Ok(Expression::ExpressionList(Rc::new(ExpressionList::Cons(
            Expression::ExpressionList(Rc::new(ExpressionList::Nil)),
            Rc::new(ExpressionList::Nil)
        ))))
    );
    assert_eq!(
        Expression::try_from("(atom ( ) )".as_bytes()),
        Ok(Expression::ExpressionList(Rc::new(ExpressionList::Cons(
            Expression::Atom(Rc::new(b"atom".to_vec())),
            Rc::new(ExpressionList::Cons(
                Expression::ExpressionList(Rc::new(ExpressionList::Nil)),
                Rc::new(ExpressionList::Nil)
            ))
        ))))
    );
    assert_eq!(
        Expression::try_from("*abcdefg*".as_bytes()),
        Ok(Expression::Var(Rc::new(b"*abcdefg*".to_vec())))
    );

    assert_eq!(
        Expression::try_from("abc def".as_bytes()),
        Err(ExpressionConversionError::InvalidToken)
    );
    assert_eq!(
        Expression::try_from("(abc def) ()".as_bytes()),
        Err(ExpressionConversionError::InvalidToken)
    );
}

#[test]
fn expression_lisplist_tests() {
    let list1 = ExpressionList::Cons(
        Expression::Int(32),
        Rc::new(ExpressionList::Cons(
            Expression::Atom(Rc::new(b"a".to_vec())),
            Rc::new(ExpressionList::Nil),
        )),
    );
    let list2 = ExpressionList::Cons(
        Expression::ExpressionList(Rc::new(ExpressionList::Nil)),
        Rc::new(ExpressionList::Nil),
    );

    // len test
    assert_eq!(list1.len(), 2);
    assert_eq!(list2.len(), 1);

    // head test
    assert_eq!(list1.head(), Some(&Expression::Int(32)));

    // tail test
    assert_eq!(
        list1.tail(),
        &ExpressionList::Cons(
            Expression::Atom(Rc::new(b"a".to_vec())),
            Rc::new(ExpressionList::Nil)
        )
    );

    // cons test
    {
        let l1 = ExpressionList::Cons(Expression::Int(10), Rc::new(ExpressionList::Nil));
        assert_eq!(
            l1.clone().cons(Expression::Int(11)),
            ExpressionList::Cons(Expression::Int(11), Rc::new(l1))
        );
    }

    // equality looks through the shared text
    {
        let t1 = Expression::Atom(Rc::new(b"abc".to_vec()));
        let t2 = Expression::Atom(Rc::new(b"abc".to_vec()));
        assert_eq!(t1, t2);
    }
    {
        let t1 = Expression::Atom(Rc::new(b"abc".to_vec()));
        let t2 = Expression::Atom(Rc::new(b"ab".to_vec()));
        assert_ne!(t1, t2);
    }
}
