use liblisp::ltypes::LispList;
use liblisp::ltypes::Type;
use liblisp::ltypes::TypeConversionError;
use std::rc::Rc;

#[test]
fn ltypes_type_tests() {
    assert_eq!(Type::try_from("12345".as_bytes()), Ok(Type::Int(12345)));
    assert_eq!(
        Type::try_from("atom".as_bytes()),
        Ok(Type::Atom(Rc::new(b"atom".to_vec())))
    );
    assert_eq!(
        Type::try_from("atom123".as_bytes()),
        Ok(Type::Atom(Rc::new(b"atom123".to_vec())))
    );
    assert_eq!(
        Type::try_from("123atom".as_bytes()),
        Err(TypeConversionError::InvalidToken)
    );
    assert_eq!(
        Type::try_from("( )".as_bytes()),
        Ok(Type::LispList(Rc::new(LispList::Nil)))
    );
    assert_eq!(
        Type::try_from("( ( ) )".as_bytes()),
        Ok(Type::LispList(Rc::new(LispList::Cons(
            Type::LispList(Rc::new(LispList::Nil)),
            Rc::new(LispList::Nil)
        ))))
    );
    assert_eq!(
        Type::try_from("(atom ( ) )".as_bytes()),
        Ok(Type::LispList(Rc::new(LispList::Cons(
            Type::Atom(Rc::new(b"atom".to_vec())),
            Rc::new(LispList::Cons(
                Type::LispList(Rc::new(LispList::Nil)),
                Rc::new(LispList::Nil)
            ))
        ))))
    );
    assert_eq!(
        Type::try_from("*abcdefg*".as_bytes()),
        Ok(Type::Var(Rc::new(b"*abcdefg*".to_vec())))
    );

    assert_eq!(
        Type::try_from("abc def".as_bytes()),
        Err(TypeConversionError::InvalidToken)
    );
    assert_eq!(
        Type::try_from("(abc def) ()".as_bytes()),
        Err(TypeConversionError::InvalidToken)
    );
}

#[test]
fn ltypes_lisplist_tests() {
    let list1 = LispList::Cons(
        Type::Int(32),
        Rc::new(LispList::Cons(
            Type::Atom(Rc::new(b"a".to_vec())),
            Rc::new(LispList::Nil),
        )),
    );
    let list2 = LispList::Cons(
        Type::LispList(Rc::new(LispList::Nil)),
        Rc::new(LispList::Nil),
    );

    // len test
    assert_eq!(list1.len(), 2);
    assert_eq!(list2.len(), 1);

    // head test
    assert_eq!(list1.head(), Some(Type::Int(32)));

    // tail test
    assert_eq!(
        list1.tail(),
        LispList::Cons(Type::Atom(Rc::new(b"a".to_vec())), Rc::new(LispList::Nil))
    );

    // cons test
    {
        let l1 = LispList::Cons(Type::Int(10), Rc::new(LispList::Nil));
        assert_eq!(
            l1.cons(&Type::Int(11)),
            LispList::Cons(Type::Int(11), Rc::new(l1))
        );
    }

    // equality looks through the shared text
    {
        let t1 = Type::Atom(Rc::new(b"abc".to_vec()));
        let t2 = Type::Atom(Rc::new(b"abc".to_vec()));
        assert_eq!(t1, t2);
    }
    {
        let t1 = Type::Atom(Rc::new(b"abc".to_vec()));
        let t2 = Type::Atom(Rc::new(b"ab".to_vec()));
        assert_ne!(t1, t2);
    }
}
