use liblisp::eval::Context;
use liblisp::eval::EvalError;
use liblisp::eval::eval;
use liblisp::eval::eval_with_context;
use liblisp::expression::Expression;
use liblisp::types::Type;
use liblisp::types::TypeList;
use std::rc::Rc;

fn parse(text: &str) -> Expression {
    Expression::try_from(text.as_bytes()).unwrap()
}

#[test]
fn determinism_two_fresh_contexts() {
    let exp = parse("(progn (set *i* 0) (while (lt *i* 5) (set *i* (add *i* 1))) *i*)");
    let first = eval(&exp);
    let second = eval(&exp);
    assert_eq!(first, second);
    assert_eq!(first, Ok(Type::Int(5)));
}

#[test]
fn head_of_flat_list() {
    assert_eq!(eval(&parse("(head (list 10 20 30))")), Ok(Type::Int(10)));
}

#[test]
fn lazy_cond_leaves_untaken_branch_unevaluated() {
    let mut context = Context::new();
    let exp = parse("(cond (eq 1 0) (set *x* 1) 0)");
    assert_eq!(eval_with_context(&exp, &mut context), Ok(Type::Int(0)));
    // the then-branch never ran, so *x* is still unbound
    let var = parse("*x*");
    assert_eq!(
        eval_with_context(&var, &mut context),
        Err(EvalError::UndefinedVariableReference)
    );
}

#[test]
fn lazy_cond_runs_taken_branch() {
    let mut context = Context::new();
    let exp = parse("(cond (eq 1 1) (set *x* 1) 0)");
    assert_eq!(eval_with_context(&exp, &mut context), Ok(Type::Int(1)));
    let var = parse("*x*");
    assert_eq!(eval_with_context(&var, &mut context), Ok(Type::Int(1)));
}

#[test]
fn undefined_variable_reference() {
    let var = Expression::Var(Rc::new(b"*x*".to_vec()));
    assert_eq!(eval(&var), Err(EvalError::UndefinedVariableReference));
}

#[test]
fn context_keeps_bindings_between_evaluations() {
    let mut context = Context::new();
    assert_eq!(
        eval_with_context(&parse("(set *a* 7)"), &mut context),
        Ok(Type::Int(7))
    );
    assert_eq!(
        eval_with_context(&parse("(add *a* 1)"), &mut context),
        Ok(Type::Int(8))
    );
}

#[test]
fn error_variants() {
    assert_eq!(eval(&parse("(add 1 a)")), Err(EvalError::TypeMismatch));
    assert_eq!(
        eval(&parse("(foo 1)")),
        Err(EvalError::NotFoundFunctionName)
    );
    assert_eq!(eval(&parse("()")), Err(EvalError::Unexpected));
    assert_eq!(eval(&parse("(head (list))")), Err(EvalError::DoHeadForNil));
    assert_eq!(eval(&parse("(div 1 0)")), Err(EvalError::DividedByZero));
    assert_eq!(eval(&parse("(head 1)")), Err(EvalError::TypeMismatch));
    assert_eq!(eval(&parse("(tail a)")), Err(EvalError::TypeMismatch));
    assert_eq!(eval(&parse("(lt 1 a)")), Err(EvalError::TypeMismatch));
    assert_eq!(eval(&parse("(set 1 2)")), Err(EvalError::TypeMismatch));
    assert_eq!(eval(&parse("(set *x*)")), Err(EvalError::BadArrity));
    assert_eq!(eval(&parse("(progn)")), Err(EvalError::BadArrity));
    assert_eq!(eval(&parse("(cond 1 2)")), Err(EvalError::BadArrity));
    assert_eq!(eval(&parse("(while 0)")), Err(EvalError::BadArrity));
    assert_eq!(eval(&parse("(while a 1)")), Err(EvalError::TypeMismatch));
}

#[test]
fn while_with_false_condition_returns_void() {
    assert_eq!(eval(&parse("(while 0 1)")), Ok(Type::Void));
}

#[test]
fn arithmetic_wraps_on_overflow() {
    assert_eq!(
        eval(&parse("(add 2147483647 1)")),
        Ok(Type::Int(-2147483648))
    );
    assert_eq!(
        eval(&parse("(sub (sub 0 2147483647) 2)")),
        Ok(Type::Int(2147483647))
    );
    assert_eq!(eval(&parse("(mul 65536 65536)")), Ok(Type::Int(0)));
    // an overlong digit run wraps the same way
    assert_eq!(eval(&parse("2147483648")), Ok(Type::Int(-2147483648)));
}

#[test]
fn division_truncates_toward_zero() {
    assert_eq!(eval(&parse("(div 7 2)")), Ok(Type::Int(3)));
    assert_eq!(eval(&parse("(div (sub 0 7) 2)")), Ok(Type::Int(-3)));
    assert_eq!(eval(&parse("(div 7 (sub 0 2))")), Ok(Type::Int(-3)));
    assert_eq!(eval(&parse("(div (sub 0 7) (sub 0 2))")), Ok(Type::Int(3)));
    // the one overflowing quotient wraps
    assert_eq!(
        eval(&parse("(div 2147483648 (sub 0 1))")),
        Ok(Type::Int(-2147483648))
    );
}

#[test]
fn atom_comparison_is_lexicographic() {
    assert_eq!(eval(&parse("(lt a b)")), Ok(Type::Int(1)));
    assert_eq!(eval(&parse("(gt b a)")), Ok(Type::Int(1)));
    assert_eq!(eval(&parse("(lt ab abc)")), Ok(Type::Int(1)));
    assert_eq!(eval(&parse("(gt ab abc)")), Ok(Type::Int(0)));
    assert_eq!(eval(&parse("(eq abc abc)")), Ok(Type::Int(1)));
    assert_eq!(eval(&parse("(eq abc abd)")), Ok(Type::Int(0)));
}

#[test]
fn tail_of_short_lists() {
    assert_eq!(
        eval(&parse("(tail (list))")),
        Ok(Type::TypeList(Rc::new(TypeList::Nil)))
    );
    assert_eq!(
        eval(&parse("(tail (list 1))")),
        Ok(Type::TypeList(Rc::new(TypeList::Nil)))
    );
}

#[test]
fn set_returns_the_value_and_evaluates_it_first() {
    // the value is evaluated even when the target is not a variable,
    // so an error inside it wins over the type check
    assert_eq!(eval(&parse("(set 1 (add 1))")), Err(EvalError::BadArrity));
}
