//! Tests for the inference driver.

use algorithm_j::algorithm_j::{infer, InferenceError};
use algorithm_j::ctxt::Ctxt;
use algorithm_j::parse::{parse, parse_poly};

#[test]
fn test_var_from_context() {
    let c = parse_poly("C").unwrap();
    let gamma = Ctxt::new().bind("x", c.clone());

    assert_eq!(infer(&parse("x").unwrap(), &gamma), Ok(c));
}

#[test]
fn test_var_not_in_context() {
    let empty = Ctxt::new();
    assert_eq!(
        infer(&parse("x").unwrap(), &empty),
        Err(InferenceError::UnknownVar("x".into()))
    );
}

#[test]
fn test_identity() {
    let empty = Ctxt::new();
    assert_eq!(
        infer(&parse("λ x . x").unwrap(), &empty),
        Ok(parse_poly("∀ a . a → a").unwrap())
    );
}

#[test]
fn test_unify_vars() {
    let unifier = parse_poly("∀ x . x → x → x").unwrap();

    let gamma = Ctxt::new().bind("unify", unifier);

    assert_eq!(
        infer(&parse("λ x . λ y . unify x y").unwrap(), &gamma),
        Ok(parse_poly("∀ a . a → a → a ").unwrap())
    );
}

#[test]
fn test_unify_type_and_var() {
    let unifier = parse_poly("∀ x . x → x → x").unwrap();
    let int = parse_poly("Int").unwrap();
    let a = parse_poly("a").unwrap();

    let gamma = Ctxt::new()
        .bind("unify", unifier)
        .bind("n", int.clone())
        .bind("x", a);

    assert_eq!(infer(&parse("unify n x").unwrap(), &gamma), Ok(int));
}

#[test]
fn test_unify_identical_types() {
    let unifier = parse_poly("∀ x . x → x → x").unwrap();
    let int = parse_poly("Int").unwrap();

    let gamma = Ctxt::new()
        .bind("unify", unifier)
        .bind("n", int.clone())
        .bind("m", int.clone());

    assert_eq!(infer(&parse("unify n m").unwrap(), &gamma), Ok(int));
}

#[test]
fn test_unify_distinct_types() {
    let unifier = parse_poly("∀ x . x → x → x").unwrap();
    let int = parse_poly("Int").unwrap();
    let string = parse_poly("String").unwrap();

    let gamma = Ctxt::new()
        .bind("unify", unifier)
        .bind("n", int)
        .bind("s", string);

    assert!(matches!(
        infer(&parse("unify n s").unwrap(), &gamma),
        Err(InferenceError::ImpossibleUnification(..))
    ));
}

#[test]
fn test_apply() {
    let empty = Ctxt::new();
    assert_eq!(
        infer(&parse("λ f . λ x . f x").unwrap(), &empty),
        Ok(parse_poly("∀ a b . (a → b) → a → b").unwrap())
    )
}

#[test]
fn test_apply_2() {
    let empty = Ctxt::new();
    assert_eq!(
        infer(&parse("λ f . λ x . x f").unwrap(), &empty),
        Ok(parse_poly("∀ a b . a → (a → b) → b").unwrap())
    )
}

#[test]
fn test_concat() {
    let empty = Ctxt::new();
    assert_eq!(
        infer(&parse("λ f . λ g . λ x . f (g x)").unwrap(), &empty),
        Ok(parse_poly("∀ a b c . (b → c) → (a → b) → (a → c)").unwrap())
    )
}

#[test]
fn test_specialize_let() {
    let int = parse_poly("Int").unwrap();

    let gamma = Ctxt::new().bind("n", int.clone());

    assert_eq!(
        infer(&parse("let id = λ x . x in id n").unwrap(), &gamma),
        Ok(int)
    );
}

#[test]
fn test_recursive_unification() {
    let empty = Ctxt::new();
    assert!(matches!(
        infer(&parse("λ x . x x").unwrap(), &empty),
        Err(InferenceError::RecursiveType(..))
    ));
}
