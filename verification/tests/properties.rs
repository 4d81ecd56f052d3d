//! Tests for the stated properties of the type algebra and the
//! unification engine.

use algorithm_j::algorithm_j::{AlgorithmJ, InferenceError};
use algorithm_j::ctxt::Ctxt;
use algorithm_j::expr::Expr;
use algorithm_j::parse::{parse, parse_poly, ParseError};
use algorithm_j::token::{tokenize, Token};
use algorithm_j::types::{Mono, Poly};
use algorithm_j::typing::Typing;

fn mono_of(text: &str) -> Mono {
    let Poly(_, tau) = parse_poly(text).unwrap();
    tau
}

#[test]
fn test_unify_agreement_on_success() {
    let pairs = [
        ("a → Int", "Int → b"),
        ("a", "Int → Int"),
        ("Int", "b"),
        ("Pair a b", "Pair Int String"),
    ];
    for (left, right) in pairs {
        let mut forward = AlgorithmJ::new();
        let mut backward = AlgorithmJ::new();
        let f = forward.unify(mono_of(left), mono_of(right));
        let b = backward.unify(mono_of(right), mono_of(left));
        assert!(f.is_ok());
        assert!(b.is_ok());
    }
}

#[test]
fn test_unify_agreement_on_failure() {
    let pairs = [
        ("Int", "String"),
        ("a → a", "a"),
        ("Pair a b", "Pair Int"),
        ("Int → b", "String → b"),
    ];
    for (left, right) in pairs {
        let mut forward = AlgorithmJ::new();
        let mut backward = AlgorithmJ::new();
        let f = forward.unify(mono_of(left), mono_of(right));
        let b = backward.unify(mono_of(right), mono_of(left));
        assert!(f.is_err());
        assert!(b.is_err());
        // both orders report the same kind of failure
        match (f.unwrap_err(), b.unwrap_err()) {
            (InferenceError::ImpossibleUnification(..), InferenceError::ImpossibleUnification(..)) => {}
            (InferenceError::RecursiveType(..), InferenceError::RecursiveType(..)) => {}
            (x, y) => panic!("kinds differ: {x:?} vs {y:?}"),
        }
    }
}

#[test]
fn test_generalize_inst_regeneralize() {
    let empty = Ctxt::new();
    let tau = mono_of("a → b → a");
    let sigma = tau.clone().generalize(&empty);
    let news = vec![
        Mono::Var(String::from("f1")),
        Mono::Var(String::from("f2")),
    ];
    let tau_prime = sigma.inst(&news);
    let regeneralized = tau_prime.generalize(&empty);
    assert_eq!(regeneralized, tau.generalize(&Ctxt::new()));
}

#[test]
fn test_alpha_equivalence() {
    let id_a = parse_poly("∀ a . a → a").unwrap();
    let id_b = parse_poly("∀ b . b → b").unwrap();
    let arrow_ab = parse_poly("∀ a b . a → b").unwrap();
    let int_int = parse_poly("Int → Int").unwrap();

    assert_eq!(id_a, id_b);
    assert_ne!(id_a, arrow_ab);
    assert_ne!(id_b, arrow_ab);
    assert_ne!(id_a, int_int);
    assert_ne!(id_b, int_int);
    assert_ne!(arrow_ab, int_int);
}

#[test]
fn test_alpha_equivalence_free_vars_by_name() {
    // free variables must match by name, not by bijection
    let free_a = parse_poly("a → a").unwrap();
    let free_b = parse_poly("b → b").unwrap();
    assert_ne!(free_a, free_b);
    assert_eq!(free_a, parse_poly("a → a").unwrap());
}

#[test]
fn test_tokenize_words() {
    let toks = tokenize("forall ab Cd9 to λ∀→").unwrap();
    assert_eq!(
        toks,
        vec![
            Token::ForAll,
            Token::Var(String::from("ab")),
            Token::VarCap(String::from("Cd9")),
            Token::Arrow,
            Token::Lambda,
            Token::ForAll,
            Token::Arrow,
        ]
    );
}

#[test]
fn test_occurs() {
    let tau = mono_of("a → B a");
    assert!(tau.occurs(&String::from("a")));
    assert!(!tau.occurs(&String::from("c")));
    assert!(!tau.occurs(&String::from("B")));
}

#[test]
fn test_replace() {
    let tau = mono_of("a → B a c");
    let int = Mono::nullary(String::from("Int"));
    let replaced = tau.replace(&String::from("a"), &int);
    assert_eq!(replaced, mono_of("Int → B Int c"));
}

#[test]
fn test_mono_free() {
    let tau = mono_of("a → B a c");
    assert_eq!(tau.free(), vec![String::from("a"), String::from("c")]);
}

#[test]
fn test_poly_free() {
    let sigma = parse_poly("∀ a . a → b").unwrap();
    assert_eq!(sigma.free(), vec![String::from("b")]);
}

#[test]
fn test_ctxt_shadowing() {
    let int = parse_poly("Int").unwrap();
    let string = parse_poly("String").unwrap();
    let gamma = Ctxt::new().bind("x", int).bind("x", string.clone());
    assert_eq!(gamma.get(&String::from("x")), Some(&string));
    assert_eq!(gamma.get(&String::from("y")), None);
}

#[test]
fn test_canonicalize_resolves_chains() {
    let mut alg = AlgorithmJ::new();
    alg.unify(mono_of("a"), mono_of("b")).unwrap();
    alg.unify(mono_of("b"), mono_of("Int")).unwrap();
    let resolved = mono_of("a → c").canonicalize(alg.aliases());
    assert_eq!(resolved, mono_of("Int → c"));
}

#[test]
fn test_unify_is_not_transactional() {
    let mut alg = AlgorithmJ::new();
    let outcome = alg.unify(mono_of("Pair a Int"), mono_of("Pair Int String"));
    assert!(outcome.is_err());
    // the first argument pair was already unified, and stays unified
    let resolved = mono_of("a").canonicalize(alg.aliases());
    assert_eq!(resolved, mono_of("Int"));
}

#[test]
fn test_expr_helpers() {
    assert!(Expr::var("x").is_closed());
    assert!(Expr::app(Expr::var("x"), Expr::var("y")).is_closed());
    assert!(!Expr::abs("x", Expr::var("x")).is_closed());
    assert!(!Expr::let_in("x", Expr::var("y"), Expr::var("x")).is_closed());
    assert!(Expr::var("x").is_var());
    assert!(!Expr::abs("x", Expr::var("x")).is_var());
}

#[test]
fn test_typing_free() {
    let gamma = Ctxt::new().bind("n", parse_poly("a → Int").unwrap());
    let judgment = Typing(gamma, Expr::var("n"), parse_poly("∀ c . c → a → b").unwrap());
    assert_eq!(judgment.free(), vec![String::from("b")]);
}

#[test]
fn test_nullary_and_arrow_shape() {
    let int = Mono::nullary(String::from("Int"));
    let arr = Mono::arrow(int.clone(), int.clone());
    assert_eq!(arr, mono_of("Int → Int"));
    assert_ne!(arr, int);
}

#[test]
fn test_parse_empty_input() {
    assert_eq!(parse(""), Err(ParseError::UnexpectedEOF));
    assert_eq!(parse("   "), Err(ParseError::UnexpectedEOF));
    assert_eq!(parse_poly(""), Err(ParseError::UnexpectedEOF));
}

#[test]
fn test_parse_poly_duplicate_quantifier() {
    // a quantifier list keeps one entry per name
    let twice = parse_poly("∀ a a . a → a").unwrap();
    let once = parse_poly("∀ a . a → a").unwrap();
    assert_eq!(twice, once);
}

#[test]
fn test_parse_whitespace_variants() {
    assert_eq!(
        parse("\tlambda x .\n y"),
        Ok(Expr::abs("x", Expr::var("y")))
    );
}

#[test]
fn test_unify_constructor_arity() {
    let mut alg = AlgorithmJ::new();
    assert!(alg.unify(mono_of("Pair a b"), mono_of("Pair Int String")).is_ok());
    let mut alg2 = AlgorithmJ::new();
    assert!(alg2.unify(mono_of("Pair a"), mono_of("Pair Int String")).is_err());
}

#[test]
fn test_canonicalize_unaliased_is_identity() {
    let alg = AlgorithmJ::new();
    let tau = mono_of("a → B c");
    assert_eq!(tau.canonicalize(alg.aliases()), tau);
}
