use stlc_hm::stlc::infer;
use stlc_hm::stlc::ty_eq;
use stlc_hm::stlc::Arena;
use stlc_hm::stlc::Context;
use stlc_hm::stlc::Error;
use stlc_hm::stlc::Term;
use stlc_hm::stlc::Type;

#[test]
fn var() {
    let mut arena = Arena::new();
    let mut ctx: Context = Context::default();
    let int_t = arena.allocate(Type::Int);
    ctx.insert(1, int_t);
    let r = infer(&mut arena, &ctx, &Term::Var(1)).unwrap();
    let expected = arena.allocate(Type::Int);
    assert!(ty_eq(&arena, r, expected));
}

#[test]
fn lam() {
    let mut arena = Arena::new();
    let int_t = arena.allocate(Type::Int);
    let term = Term::Lam(1, int_t, Box::new(Term::Var(1)));
    let r = infer(&mut arena, &Context::default(), &term).unwrap();
    let i2 = arena.allocate(Type::Int);
    let expected = arena.allocate(Type::Fun(i2, i2));
    assert!(ty_eq(&arena, r, expected));
}

#[test]
fn app() {
    let mut arena = Arena::new();
    let mut ctx: Context = Context::default();
    let i1 = arena.allocate(Type::Int);
    let i2 = arena.allocate(Type::Int);
    let f = arena.allocate(Type::Fun(i1, i2));
    ctx.insert(1, f);
    let i3 = arena.allocate(Type::Int);
    ctx.insert(2, i3);
    let term = Term::App(Box::new(Term::Var(1)), Box::new(Term::Var(2)));
    let r = infer(&mut arena, &ctx, &term).unwrap();
    let expected = arena.allocate(Type::Int);
    assert!(ty_eq(&arena, r, expected));
}

#[test]
fn nested_lambda_1() {
    let mut arena = Arena::new();
    let int_t = arena.allocate(Type::Int);
    let bool_t = arena.allocate(Type::Bool);
    let term = Term::Lam(
        1,
        int_t,
        Box::new(Term::Lam(2, bool_t, Box::new(Term::Var(1)))),
    );
    let r = infer(&mut arena, &Context::default(), &term).unwrap();
    let i = arena.allocate(Type::Int);
    let b = arena.allocate(Type::Bool);
    let inner = arena.allocate(Type::Fun(b, i));
    let expected = arena.allocate(Type::Fun(i, inner));
    assert!(ty_eq(&arena, r, expected));
}

#[test]
fn nested_lambda_2() {
    let mut arena = Arena::new();
    let int_t = arena.allocate(Type::Int);
    let bool_t = arena.allocate(Type::Bool);
    let term = Term::Lam(
        1,
        int_t,
        Box::new(Term::Lam(2, bool_t, Box::new(Term::Var(2)))),
    );
    let r = infer(&mut arena, &Context::default(), &term).unwrap();
    let i = arena.allocate(Type::Int);
    let b = arena.allocate(Type::Bool);
    let inner = arena.allocate(Type::Fun(b, b));
    let expected = arena.allocate(Type::Fun(i, inner));
    assert!(ty_eq(&arena, r, expected));
}

#[test]
fn shadowing() {
    let mut arena = Arena::new();
    let int_t = arena.allocate(Type::Int);
    let bool_t = arena.allocate(Type::Bool);
    let term = Term::Lam(
        1,
        int_t,
        Box::new(Term::Lam(1, bool_t, Box::new(Term::Var(1)))),
    );
    let r = infer(&mut arena, &Context::default(), &term).unwrap();
    let i = arena.allocate(Type::Int);
    let b = arena.allocate(Type::Bool);
    let inner = arena.allocate(Type::Fun(b, b));
    let expected = arena.allocate(Type::Fun(i, inner));
    assert!(ty_eq(&arena, r, expected));
}

#[test]
fn unknown_variable() {
    let mut arena = Arena::new();
    let r = infer(&mut arena, &Context::default(), &Term::Var(99));
    assert_eq!(r, Err(Error::UnknownVariable(99)));
}

#[test]
fn applying_non_function() {
    let mut arena = Arena::new();
    let mut ctx: Context = Context::default();
    let int_t = arena.allocate(Type::Int);
    ctx.insert(1, int_t);
    let term = Term::App(Box::new(Term::Var(1)), Box::new(Term::Var(1)));
    let r = infer(&mut arena, &ctx, &term);
    match r {
        Err(Error::ApplyingNonFunction { fun_ty, arg_ty }) => {
            let i = arena.allocate(Type::Int);
            assert!(ty_eq(&arena, fun_ty, i));
            assert!(ty_eq(&arena, arg_ty, i));
        }
        _ => panic!("expected an ApplyingNonFunction error"),
    }
}

#[test]
fn arg_type_mismatch() {
    let mut arena = Arena::new();
    let mut ctx: Context = Context::default();
    let i1 = arena.allocate(Type::Int);
    let i2 = arena.allocate(Type::Int);
    let f = arena.allocate(Type::Fun(i1, i2));
    ctx.insert(1, f);
    let b = arena.allocate(Type::Bool);
    ctx.insert(2, b);
    let term = Term::App(Box::new(Term::Var(1)), Box::new(Term::Var(2)));
    let r = infer(&mut arena, &ctx, &term);
    match r {
        Err(Error::ArgTypeMismatch { expected, actual }) => {
            let i = arena.allocate(Type::Int);
            let bb = arena.allocate(Type::Bool);
            assert!(ty_eq(&arena, expected, i));
            assert!(ty_eq(&arena, actual, bb));
        }
        _ => panic!("expected an ArgTypeMismatch error"),
    }
}

#[test]
fn function_checked_before_argument() {
    // Both subterms are ill typed; the checker reports the function's
    // error because the function is checked strictly first.
    let mut arena = Arena::new();
    let term = Term::App(Box::new(Term::Var(8)), Box::new(Term::Var(9)));
    let r = infer(&mut arena, &Context::default(), &term);
    assert_eq!(r, Err(Error::UnknownVariable(8)));
}

#[test]
fn context_untouched_by_infer() {
    let mut arena = Arena::new();
    let mut ctx: Context = Context::default();
    let int_t = arena.allocate(Type::Int);
    ctx.insert(1, int_t);
    let bool_t = arena.allocate(Type::Bool);
    let term = Term::Lam(1, bool_t, Box::new(Term::Var(1)));
    let _ = infer(&mut arena, &ctx, &term).unwrap();
    assert_eq!(ctx.get(&1), Some(&int_t));
}
