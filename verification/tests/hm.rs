use std::collections::HashMap;
use stlc_hm::hm::generalize;
use stlc_hm::hm::infer;
use stlc_hm::hm::instantiate;
use stlc_hm::hm::subst;
use stlc_hm::hm::ty_eq;
use stlc_hm::hm::Arena;
use stlc_hm::hm::Context;
use stlc_hm::hm::Error;
use stlc_hm::hm::PolyType;
use stlc_hm::hm::Term;
use stlc_hm::hm::TyEnv;
use stlc_hm::hm::Type;

#[test]
fn test_instantiate_1() {
    let mut arena = Arena::new();
    let mut tyenv = TyEnv::new();
    assert_eq!(0, tyenv.fresh());
    let var0 = arena.allocate(Type::Var(0));
    let poly = PolyType {
        foralls: vec![0],
        ty: var0,
    };
    let r = instantiate(&mut arena, &mut tyenv, &poly);
    let expected = arena.allocate(Type::Var(1));
    assert!(ty_eq(&arena, r, expected));
}

#[test]
fn test_instantiate_2() {
    let mut arena = Arena::new();
    let mut tyenv = TyEnv::new();
    assert_eq!(0, tyenv.fresh());
    assert_eq!(1, tyenv.fresh());
    let var0 = arena.allocate(Type::Var(0));
    let poly = PolyType {
        foralls: vec![1],
        ty: var0,
    };
    let r = instantiate(&mut arena, &mut tyenv, &poly);
    let expected = arena.allocate(Type::Var(0));
    assert!(ty_eq(&arena, r, expected));
}

#[test]
fn test_instantiate_3() {
    let mut arena = Arena::new();
    let mut tyenv = TyEnv::new();
    assert_eq!(0, tyenv.fresh());
    let int_t = arena.allocate(Type::Int);
    let var0 = arena.allocate(Type::Var(0));
    let fun = arena.allocate(Type::Fun(int_t, var0));
    let poly = PolyType {
        foralls: vec![0],
        ty: fun,
    };
    let r = instantiate(&mut arena, &mut tyenv, &poly);
    let i = arena.allocate(Type::Int);
    let var1 = arena.allocate(Type::Var(1));
    let expected = arena.allocate(Type::Fun(i, var1));
    assert!(ty_eq(&arena, r, expected));
}

#[test]
fn subst_identity_avoidance() {
    // A mapping that touches no variable of the type: the same index
    // comes back and nothing is allocated.
    let mut arena = Arena::new();
    let i1 = arena.allocate(Type::Int);
    let i2 = arena.allocate(Type::Int);
    let fun = arena.allocate(Type::Fun(i1, i2));
    let len_before = arena.len();
    let mut mapping: HashMap<usize, usize> = HashMap::new();
    mapping.insert(5, 7);
    let r = subst(&mut arena, &mapping, fun);
    assert_eq!(r, fun);
    assert_eq!(arena.len(), len_before);
    let r2 = subst(&mut arena, &mapping, i1);
    assert_eq!(r2, i1);
    assert_eq!(arena.len(), len_before);
}

#[test]
fn subst_rewrites_mapped_variables() {
    let mut arena = Arena::new();
    let var0 = arena.allocate(Type::Var(0));
    let int_t = arena.allocate(Type::Int);
    let fun = arena.allocate(Type::Fun(var0, int_t));
    let mut mapping: HashMap<usize, usize> = HashMap::new();
    mapping.insert(0, 7);
    let r = subst(&mut arena, &mapping, fun);
    assert_ne!(r, fun);
    let var7 = arena.allocate(Type::Var(7));
    let i = arena.allocate(Type::Int);
    let expected = arena.allocate(Type::Fun(var7, i));
    assert!(ty_eq(&arena, r, expected));
}

#[test]
fn instantiate_freshness() {
    // Two successive instantiations of the same fully quantified
    // polytype share no type variable.
    let mut arena = Arena::new();
    let mut tyenv = TyEnv::new();
    assert_eq!(0, tyenv.fresh());
    let var0 = arena.allocate(Type::Var(0));
    let poly = PolyType {
        foralls: vec![0],
        ty: var0,
    };
    let r1 = instantiate(&mut arena, &mut tyenv, &poly);
    let r2 = instantiate(&mut arena, &mut tyenv, &poly);
    let var1 = arena.allocate(Type::Var(1));
    let var2 = arena.allocate(Type::Var(2));
    assert!(ty_eq(&arena, r1, var1));
    assert!(ty_eq(&arena, r2, var2));
    assert!(!ty_eq(&arena, r1, r2));
}

#[test]
fn generalize_fresh_renaming() {
    // Generalization renames every free variable to a fresh one and
    // quantifies exactly the fresh ones.
    let mut arena = Arena::new();
    let mut tyenv = TyEnv::new();
    assert_eq!(0, tyenv.fresh());
    let var0 = arena.allocate(Type::Var(0));
    let fun = arena.allocate(Type::Fun(var0, var0));
    let p = generalize(&mut arena, &mut tyenv, fun);
    assert_eq!(p.foralls, vec![1]);
    let var1 = arena.allocate(Type::Var(1));
    let expected = arena.allocate(Type::Fun(var1, var1));
    assert!(ty_eq(&arena, p.ty, expected));
}

#[test]
fn generalize_instantiate_coherence() {
    // Instantiating a freshly generalized type gives the type back up
    // to a renaming of its variables.
    let mut arena = Arena::new();
    let mut tyenv = TyEnv::new();
    assert_eq!(0, tyenv.fresh());
    let var0 = arena.allocate(Type::Var(0));
    let int_t = arena.allocate(Type::Int);
    let t = arena.allocate(Type::Fun(var0, int_t));
    let p = generalize(&mut arena, &mut tyenv, t);
    let r = instantiate(&mut arena, &mut tyenv, &p);
    let var2 = arena.allocate(Type::Var(2));
    let i = arena.allocate(Type::Int);
    let expected = arena.allocate(Type::Fun(var2, i));
    assert!(ty_eq(&arena, r, expected));
}

#[test]
fn generalize_without_variables_reuses_node() {
    let mut arena = Arena::new();
    let mut tyenv = TyEnv::new();
    let int_t = arena.allocate(Type::Int);
    let len_before = arena.len();
    let p = generalize(&mut arena, &mut tyenv, int_t);
    assert_eq!(p.ty, int_t);
    assert_eq!(p.foralls.len(), 0);
    assert_eq!(arena.len(), len_before);
}

#[test]
fn from_ty_quantifies_nothing() {
    let mut arena = Arena::new();
    let b = arena.allocate(Type::Bool);
    let p = PolyType::from_ty(b);
    assert_eq!(p.foralls.len(), 0);
    assert_eq!(p.ty, b);
}

#[test]
fn fresh_counts_up() {
    let mut tyenv = TyEnv::new();
    assert_eq!(0, tyenv.fresh());
    assert_eq!(1, tyenv.fresh());
    assert_eq!(2, tyenv.fresh());
}

#[test]
fn hm_infer_identity_lambda() {
    let mut arena = Arena::new();
    let ctx: Context = Context::default();
    let term = Term::Lam(1, Box::new(Term::Var(1)));
    let p = infer(&mut arena, &ctx, &term).unwrap();
    assert_eq!(p.foralls, vec![1]);
    let var1 = arena.allocate(Type::Var(1));
    let expected = arena.allocate(Type::Fun(var1, var1));
    assert!(ty_eq(&arena, p.ty, expected));
}

#[test]
fn hm_infer_let_polymorphism() {
    // let id = \x. x in id — the bound identity is generalized and the
    // body instantiates it with fresh variables.
    let mut arena = Arena::new();
    let ctx: Context = Context::default();
    let def = Term::Lam(2, Box::new(Term::Var(2)));
    let term = Term::Let(1, Box::new(def), Box::new(Term::Var(1)));
    let p = infer(&mut arena, &ctx, &term).unwrap();
    assert_eq!(p.foralls, vec![3]);
    let var3 = arena.allocate(Type::Var(3));
    let expected = arena.allocate(Type::Fun(var3, var3));
    assert!(ty_eq(&arena, p.ty, expected));
}

#[test]
fn hm_unknown_variable() {
    let mut arena = Arena::new();
    let ctx: Context = Context::default();
    let r = infer(&mut arena, &ctx, &Term::Var(99));
    match r {
        Err(Error::UnknownVariable(id)) => assert_eq!(id, 99),
        _ => panic!("expected an UnknownVariable error"),
    }
}

#[test]
fn hm_context_untouched_by_infer() {
    let mut arena = Arena::new();
    let mut ctx: Context = Context::default();
    let int_t = arena.allocate(Type::Int);
    ctx.insert(1, PolyType::from_ty(int_t));
    let term = Term::Lam(1, Box::new(Term::Var(1)));
    let _ = infer(&mut arena, &ctx, &term).unwrap();
    let bound = ctx.get(&1).unwrap();
    assert_eq!(bound.ty, int_t);
    assert_eq!(bound.foralls.len(), 0);
}
