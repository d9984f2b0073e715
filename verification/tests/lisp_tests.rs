use liblisp::lisp::LispList;
use liblisp::lisp::Type;
use liblisp::lisp::TypeConversionError;
use liblisp::lisp::to_type;
use std::rc::Rc;

#[test]
fn to_type_tests() {
    assert_eq!(to_type("12345".as_bytes()), Ok(Type::Int(12345)));
    assert_eq!(
        to_type("atom".as_bytes()),
        Ok(Type::Atom(Rc::new(b"atom".to_vec())))
    );
    assert_eq!(
        to_type("atom123".as_bytes()),
        Ok(Type::Atom(Rc::new(b"atom123".to_vec())))
    );
    assert_eq!(
        to_type("123atom".as_bytes()),
        Err(TypeConversionError::InvalidToken)
    );
    assert_eq!(
        to_type("( )".as_bytes()),
        Ok(Type::LispList(Box::new(LispList::Nil)))
    );
    assert_eq!(
        to_type("( ( ) )".as_bytes()),
        Ok(Type::LispList(Box::new(LispList::Cons(
            Type::LispList(Box::new(LispList::Nil)),
            Box::new(LispList::Nil)
        ))))
    );
}

#[test]
fn lib_lisplist_tests() {
    let list1 = LispList::Cons(
        Type::Int(32),
        Box::new(LispList::Cons(
            Type::Atom(Rc::new(b"a".to_vec())),
            Box::new(LispList::Nil),
        )),
    );
    let list2 = LispList::Cons(
        Type::LispList(Box::new(LispList::Nil)),
        Box::new(LispList::Nil),
    );

    // len test
    assert_eq!(list1.len(), 2);
    assert_eq!(list2.len(), 1);

    // head test
    assert_eq!(list1.head(), Some(Type::Int(32)));

    // tail test
    assert_eq!(
        list1.tail(),
        LispList::Cons(Type::Atom(Rc::new(b"a".to_vec())), Box::new(LispList::Nil))
    );

    // cons test
    {
        let l1 = LispList::Cons(Type::Int(10), Box::new(LispList::Nil));
        assert_eq!(
            l1.cons(&Type::Int(11)),
            LispList::Cons(Type::Int(11), Box::new(l1))
        );
    }

    // equality looks through the boxes
    {
        let t1 = Type::Atom(Rc::new(b"abc".to_vec()));
        let t2 = Type::Atom(Rc::new(b"abc".to_vec()));
        assert_eq!(t1, t2);
    }
    {
        let t1 = Type::Atom(Rc::new(b"abc".to_vec()));
        let t2 = Type::Atom(Rc::new(b"ab".to_vec()));
        assert_ne!(t1, t2);
    }
}
