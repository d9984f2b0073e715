use liblisp::eval::eval;
use liblisp::expression::Expression;
use liblisp::types::Type;

#[test]
fn make_expression_from_string_and_eval_test() {
    let exp = Expression::try_from("(progn (set *i* 0) (set *a* 0) (while (lt *i* 10) (progn (set *a* (add *i* *a*)) (set *i* (add *i* 1)))))".as_bytes()).unwrap();
    match eval(&exp) {
        Ok(Type::Void) => assert!(true),
        _ => assert!(false),
    }

    assert!(true);
}
