use liblisp::eval::EvalError;
use liblisp::eval::eval;
use liblisp::expression::Expression;
use liblisp::types::Type;
use liblisp::types::TypeList;
use std::rc::Rc;

#[test]
fn arithmetic_tests() {
    {
        let exp = Expression::try_from("(add 1 2)".as_bytes()).unwrap();
        match eval(&exp) {
            Ok(Type::Int(3)) => assert!(true),
            _ => assert!(false),
        }
    }

    {
        let exp = Expression::try_from("(sub 1 2)".as_bytes()).unwrap();
        match eval(&exp) {
            Ok(Type::Int(-1)) => assert!(true),
            _ => assert!(false),
        }
    }

    {
        let exp = Expression::try_from("(add (add (sub 1 2) 3) 4)".as_bytes()).unwrap();
        match eval(&exp) {
            Ok(Type::Int(6)) => assert!(true),
            _ => assert!(false),
        }
    }

    {
        let exp = Expression::try_from("(add 1)".as_bytes()).unwrap();
        match eval(&exp) {
            Ok(_) => assert!(false),
            Err(e) => assert_eq!(EvalError::BadArrity, e),
        }
    }

    {
        let exp = Expression::try_from("(1 2)".as_bytes()).unwrap();
        match eval(&exp) {
            Ok(_) => assert!(false),
            Err(e) => assert_eq!(EvalError::EvaluatingNonAtomHeadList, e),
        }
    }
}

#[test]
fn comparision_operation_tests() {
    {
        let exp = Expression::try_from("(gt 3 2)".as_bytes()).unwrap();
        match eval(&exp) {
            Ok(Type::Int(1)) => assert!(true),
            _ => assert!(false),
        }
    }
    {
        let exp = Expression::try_from("(gt 2 3)".as_bytes()).unwrap();
        match eval(&exp) {
            Ok(Type::Int(0)) => assert!(true),
            _ => assert!(false),
        }
    }

    {
        let exp = Expression::try_from("(lt 3 2)".as_bytes()).unwrap();
        match eval(&exp) {
            Ok(Type::Int(0)) => assert!(true),
            _ => assert!(false),
        }
    }
    {
        let exp = Expression::try_from("(lt 2 3)".as_bytes()).unwrap();
        match eval(&exp) {
            Ok(Type::Int(1)) => assert!(true),
            _ => assert!(false),
        }
    }

    {
        let exp = Expression::try_from("(eq 3 3)".as_bytes()).unwrap();
        match eval(&exp) {
            Ok(Type::Int(1)) => assert!(true),
            _ => assert!(false),
        }
    }
    {
        let exp = Expression::try_from("(eq 2 3)".as_bytes()).unwrap();
        match eval(&exp) {
            Ok(Type::Int(0)) => assert!(true),
            _ => assert!(false),
        }
    }
}

#[test]
fn list_tests() {
    {
        let exp = eval(&Expression::try_from("(list 1 2 3)".as_bytes()).unwrap());
        assert_eq!(
            exp,
            Ok(Type::TypeList(Rc::new(TypeList::Cons(
                Type::Int(1),
                Rc::new(TypeList::Cons(
                    Type::Int(2),
                    Rc::new(TypeList::Cons(Type::Int(3), Rc::new(TypeList::Nil)))
                ))
            ))))
        );
    }
    {
        let exp = eval(&Expression::try_from("(list a b c)".as_bytes()).unwrap());
        assert_eq!(
            exp,
            Ok(Type::TypeList(Rc::new(TypeList::Cons(
                Type::Atom(Rc::new(b"a".to_vec())),
                Rc::new(TypeList::Cons(
                    Type::Atom(Rc::new(b"b".to_vec())),
                    Rc::new(TypeList::Cons(
                        Type::Atom(Rc::new(b"c".to_vec())),
                        Rc::new(TypeList::Nil)
                    ))
                ))
            ))))
        );
    }

    {
        let exp = eval(&Expression::try_from("(head (list 10 (list 20) 30))".as_bytes()).unwrap());
        assert_eq!(exp, Ok(Type::Int(10)));
    }

    {
        let exp = eval(&Expression::try_from("(tail (list 1 2 3))".as_bytes()).unwrap());
        assert_eq!(
            exp,
            Ok(Type::TypeList(Rc::new(TypeList::Cons(
                Type::Int(2),
                Rc::new(TypeList::Cons(Type::Int(3), Rc::new(TypeList::Nil)))
            ))))
        );
    }
}

#[test]
fn cond_tests() {
    {
        let exp = Expression::try_from("(cond (eq 3 2) 10 (mul 20 10))".as_bytes()).unwrap();
        match eval(&exp) {
            Ok(Type::Int(200)) => assert!(true),
            _ => assert!(false),
        }
    }
    {
        let exp = Expression::try_from("(cond (eq 3 3) (div 10 2) 20)".as_bytes()).unwrap();
        match eval(&exp) {
            Ok(Type::Int(5)) => assert!(true),
            _ => assert!(false),
        }
    }
}

#[test]
fn progn_tests() {
    {
        let exp =
            Expression::try_from("(progn (set *a* 10) (add *a* (add *a* 20)))".as_bytes()).unwrap();
        match eval(&exp) {
            Ok(Type::Int(40)) => assert!(true),
            _ => assert!(false),
        }
    }
}

#[test]
fn while_tests() {
    {
        let exp = Expression::try_from("(progn (set *i* 0) (set *a* 0) (while (lt *i* 10) (progn (set *a* (add *i* *a*)) (set *i* (add *i* 1)))) *a*)".as_bytes()).unwrap();
        match eval(&exp) {
            Ok(Type::Int(45)) => assert!(true),
            _ => assert!(false),
        }
    }
    {
        let exp = Expression::try_from("(progn (set *i* 0) (set *a* 0) (while (lt *i* 10) (progn (set *a* (add *i* *a*)) (set *i* (add *i* 1)))))".as_bytes()).unwrap();
        match eval(&exp) {
            Ok(Type::Void) => assert!(true),
            _ => assert!(false),
        }
    }
}

#[test]
fn set_tests() {
    let exp = Expression::try_from("(set *i* 1)".as_bytes()).unwrap();
    match eval(&exp) {
        Ok(Type::Int(1)) => assert!(true),
        _ => assert!(false),
    }
}
