use stlc_hm::context_hashed;
use stlc_hm::context_linear;
use stlc_hm::context_linear::matches_key_or_empty;

#[test]
fn round_trip_absent_linear() {
    let mut ctx: context_linear::Context<usize> = Default::default();
    ctx.insert(7, 70);
    assert!(ctx.get(&3).is_none());
    let g = ctx.with(3, 30);
    assert_eq!(ctx.get(&3), Some(&30));
    assert_eq!(ctx.get(&7), Some(&70));
    g.release(&mut ctx);
    assert!(ctx.get(&3).is_none());
    assert_eq!(ctx.get(&7), Some(&70));
}

#[test]
fn round_trip_absent_hashed() {
    let mut ctx: context_hashed::Context<usize> = Default::default();
    ctx.insert(7, 70);
    assert!(ctx.get(&3).is_none());
    let g = ctx.with(3, 30);
    assert_eq!(ctx.get(&3), Some(&30));
    assert_eq!(ctx.get(&7), Some(&70));
    g.release(&mut ctx);
    assert!(ctx.get(&3).is_none());
    assert_eq!(ctx.get(&7), Some(&70));
}

#[test]
fn shadow_restore_linear() {
    let mut ctx: context_linear::Context<usize> = Default::default();
    ctx.insert(3, 1);
    let g = ctx.with(3, 2);
    assert_eq!(ctx.get(&3), Some(&2));
    g.release(&mut ctx);
    assert_eq!(ctx.get(&3), Some(&1));
}

#[test]
fn shadow_restore_hashed() {
    let mut ctx: context_hashed::Context<usize> = Default::default();
    ctx.insert(3, 1);
    let g = ctx.with(3, 2);
    assert_eq!(ctx.get(&3), Some(&2));
    g.release(&mut ctx);
    assert_eq!(ctx.get(&3), Some(&1));
}

#[test]
fn insert_overwrites_both_backings() {
    let mut lin: context_linear::Context<usize> = Default::default();
    let mut hsh: context_hashed::Context<usize> = Default::default();
    lin.insert(1, 10);
    lin.insert(1, 11);
    hsh.insert(1, 10);
    hsh.insert(1, 11);
    assert_eq!(lin.get(&1), Some(&11));
    assert_eq!(hsh.get(&1), Some(&11));
}

#[test]
fn backing_equivalence_sequence() {
    // The same sequence of insert/with/get operations, step by step on
    // both backings; the observable results must agree at every step.
    let mut lin: context_linear::Context<usize> = Default::default();
    let mut hsh: context_hashed::Context<usize> = Default::default();
    let keys: [usize; 5] = [2, 9, 2, 4, 9];
    let vals: [usize; 5] = [20, 90, 21, 40, 91];
    for i in 0..keys.len() {
        lin.insert(keys[i], vals[i]);
        hsh.insert(keys[i], vals[i]);
        for k in 0..12usize {
            assert_eq!(lin.get(&k), hsh.get(&k));
        }
    }
    let gl = lin.with(4, 400);
    let gh = hsh.with(4, 400);
    for k in 0..12usize {
        assert_eq!(lin.get(&k), hsh.get(&k));
    }
    gl.release(&mut lin);
    gh.release(&mut hsh);
    for k in 0..12usize {
        assert_eq!(lin.get(&k), hsh.get(&k));
    }
    let gl2 = lin.with(5, 500);
    let gh2 = hsh.with(5, 500);
    for k in 0..12usize {
        assert_eq!(lin.get(&k), hsh.get(&k));
    }
    gl2.release(&mut lin);
    gh2.release(&mut hsh);
    for k in 0..12usize {
        assert_eq!(lin.get(&k), hsh.get(&k));
    }
}

#[test]
fn nested_scopes_restore_in_order() {
    let mut ctx: context_linear::Context<usize> = Default::default();
    ctx.insert(1, 100);
    let g1 = ctx.with(1, 101);
    let g2 = ctx.with(2, 200);
    assert_eq!(ctx.get(&1), Some(&101));
    assert_eq!(ctx.get(&2), Some(&200));
    g2.release(&mut ctx);
    assert_eq!(ctx.get(&1), Some(&101));
    assert!(ctx.get(&2).is_none());
    g1.release(&mut ctx);
    assert_eq!(ctx.get(&1), Some(&100));
    assert!(ctx.get(&2).is_none());
}

#[test]
fn slot_scan_predicate() {
    let empty: Option<(usize, usize)> = None;
    let hit: Option<(usize, usize)> = Some((4, 40));
    let miss: Option<(usize, usize)> = Some((5, 50));
    assert!(matches_key_or_empty(4, &empty));
    assert!(matches_key_or_empty(4, &hit));
    assert!(!matches_key_or_empty(4, &miss));
}

#[test]
fn dup_copies_bindings() {
    let mut ctx: context_linear::Context<usize> = Default::default();
    ctx.insert(1, 10);
    ctx.insert(2, 20);
    let copy = ctx.dup();
    ctx.insert(1, 11);
    assert_eq!(copy.get(&1), Some(&10));
    assert_eq!(copy.get(&2), Some(&20));
    assert_eq!(ctx.get(&1), Some(&11));
}
