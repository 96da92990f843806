//! Support machinery for a let-polymorphic (Hindley–Milner-style)
//! extension of the checker: fresh type variables, substitution with
//! structural sharing, instantiation and generalization, composed by a
//! let-polymorphic [`infer`].
//!
//! Types live in an index-addressed [`Arena`], read mathematically as
//! [`TypeShape`] trees with numbered variables.  Substitution
//! ([`subst`]) rewrites mapped variables and provably returns its input
//! index unchanged — allocating nothing — whenever the mapping touches
//! no variable of the subtree.  Instantiation opens a [`PolyType`] with
//! fresh variables drawn from a [`TyEnv`]; generalization closes a type
//! over its free variables by renaming each to a fresh one.
//!
//! The application case of the let-polymorphic checker would need
//! unification and is not part of the contract: [`infer`] demands
//! App-free terms ([`no_app`]).

use vstd::prelude::*;

verus! {

use std::collections::HashMap;
use crate::context_linear;
use crate::context_linear::DupValue;
use crate::context_linear::extends_with_nones;
use crate::context_linear::lemma_scoped_restore;
use crate::context_linear::slots_view;

broadcast use vstd::std_specs::hash::group_hash_axioms;

/// A term-level binder identifier.
pub type Id = usize;

/// A type variable: a small integer unique within one [`TyEnv`].
pub type TyVar = usize;

/// One node of a type tree.  The children of `Fun` are indices of
/// earlier nodes in the same [`Arena`].
#[derive(Clone, Copy, PartialEq, Eq, Structural, Debug)]
pub enum Type {
    Int,
    Bool,
    Var(TyVar),
    Fun(usize, usize),
}

/// The tree a type node denotes once all indices are followed.
pub ghost enum TypeShape {
    Int,
    Bool,
    Var(int),
    Fun(Box<TypeShape>, Box<TypeShape>),
}

/// A term of the let-polymorphic calculus.  Lambda parameters carry no
/// annotation; `Let` generalizes the type of its first subterm.
#[derive(PartialEq, Eq, Debug)]
pub enum Term {
    Var(Id),
    Let(Id, Box<Term>, Box<Term>),
    Lam(Id, Box<Term>),
    App(Box<Term>, Box<Term>),
}

/// A type error.  The carried indices point at the offending type nodes
/// in the arena the checker ran against.
#[derive(Clone, Copy, PartialEq, Eq, Structural, Debug)]
pub enum Error {
    UnknownVariable(Id),
    ApplyingNonFunction { fun_ty: usize, arg_ty: usize },
    ArgTypeMismatch { expected: usize, actual: usize },
}

/// The mathematical reading of an [`Error`].
pub ghost enum ErrorShape {
    UnknownVariable(Id),
    ApplyingNonFunction { fun_ty: TypeShape, arg_ty: TypeShape },
    ArgTypeMismatch { expected: TypeShape, actual: TypeShape },
}

/// A node is well formed at position `bound` when its children lie
/// strictly before it, so that type trees are acyclic.
pub open spec fn node_wf(node: Type, bound: int) -> bool {
    match node {
        Type::Fun(a, b) => a < bound && b < bound,
        _ => true,
    }
}

/// An arena of type nodes.  Allocation hands out the index of the new
/// node; nodes are never mutated or freed, and indices handed out
/// earlier stay valid as the arena grows.
pub struct Arena {
    nodes: Vec<Type>,
}

impl Arena {
    /// The nodes allocated so far, earliest first.
    pub closed spec fn nodes_seq(&self) -> Seq<Type> {
        self.nodes@
    }

    /// Every node refers only to earlier nodes.
    pub open spec fn wf(&self) -> bool {
        forall|i: int|
            0 <= i < self.nodes_seq().len() ==> node_wf(#[trigger] self.nodes_seq()[i], i)
    }

    /// An empty arena.
    pub fn new() -> (r: Arena)
        ensures
            r.nodes_seq() == Seq::<Type>::empty(),
            r.wf(),
    {
        Arena { nodes: Vec::new() }
    }

    /// The number of nodes allocated so far.
    pub fn len(&self) -> (r: usize)
        ensures
            r == self.nodes_seq().len(),
    {
        self.nodes.len()
    }

    /// Read the node at index `i`.
    pub fn node(&self, i: usize) -> (r: Type)
        requires
            i < self.nodes_seq().len(),
        ensures
            r == self.nodes_seq()[i as int],
    {
        self.nodes[i]
    }

    /// Allocate a node and return its index.  Indices handed out
    /// earlier keep denoting the same nodes.
    pub fn allocate(&mut self, node: Type) -> (i: usize)
        requires
            node_wf(node, old(self).nodes_seq().len() as int),
        ensures
            i == old(self).nodes_seq().len(),
            final(self).nodes_seq() == old(self).nodes_seq().push(node),
            old(self).wf() ==> final(self).wf(),
    {
        let i = self.nodes.len();
        self.nodes.push(node);
        proof {
            if old(self).wf() {
                assert forall|j: int| 0 <= j < self.nodes_seq().len() implies node_wf(
                    #[trigger] self.nodes_seq()[j],
                    j,
                ) by {
                    if j < i as int {
                        assert(self.nodes_seq()[j] == old(self).nodes_seq()[j]);
                    }
                }
            }
        }
        i
    }
}

/// The shape the node at index `i` denotes.  Out-of-range or forward
/// references (which a well-formed arena never contains) read as `Int`.
pub open spec fn shape_at(nodes: Seq<Type>, i: int) -> TypeShape
    decreases i,
{
    if 0 <= i < nodes.len() {
        match nodes[i] {
            Type::Int => TypeShape::Int,
            Type::Bool => TypeShape::Bool,
            Type::Var(v) => TypeShape::Var(v as int),
            Type::Fun(a, b) => if a < i && b < i {
                TypeShape::Fun(
                    Box::new(shape_at(nodes, a as int)),
                    Box::new(shape_at(nodes, b as int)),
                )
            } else {
                TypeShape::Int
            },
        }
    } else {
        TypeShape::Int
    }
}

/// Growing an arena never changes the shape an existing index denotes.
pub proof fn lemma_shape_at_grow(n1: Seq<Type>, n2: Seq<Type>, i: int)
    requires
        n1.len() <= n2.len(),
        forall|j: int| 0 <= j < n1.len() ==> n1[j] == n2[j],
        0 <= i < n1.len(),
    ensures
        shape_at(n2, i) == shape_at(n1, i),
    decreases i,
{
    assert(n1[i] == n2[i]);
    match n1[i] {
        Type::Fun(a, b) => {
            if a < i && b < i {
                lemma_shape_at_grow(n1, n2, a as int);
                lemma_shape_at_grow(n1, n2, b as int);
            }
        },
        _ => {},
    }
}

/// Decide structural equality of the types denoted by two indices of a
/// well-formed arena.
pub fn ty_eq(arena: &Arena, i: usize, j: usize) -> (r: bool)
    requires
        arena.wf(),
        i < arena.nodes_seq().len(),
        j < arena.nodes_seq().len(),
    ensures
        r == (shape_at(arena.nodes_seq(), i as int) == shape_at(arena.nodes_seq(), j as int)),
    decreases i,
{
    let ni = arena.node(i);
    let nj = arena.node(j);
    match (ni, nj) {
        (Type::Int, Type::Int) => true,
        (Type::Bool, Type::Bool) => true,
        (Type::Var(v1), Type::Var(v2)) => v1 == v2,
        (Type::Fun(a1, b1), Type::Fun(a2, b2)) => {
            proof {
                assert(node_wf(arena.nodes_seq()[i as int], i as int));
                assert(node_wf(arena.nodes_seq()[j as int], j as int));
            }
            ty_eq(arena, a1, a2) && ty_eq(arena, b1, b2)
        },
        _ => false,
    }
}

/// A polymorphic type: a body type (an arena index) closed over the
/// listed quantified type variables.  Variables of the body not listed
/// in `foralls` stay free.
#[derive(Debug)]
pub struct PolyType {
    /// The quantified type variables.  Their order only fixes which
    /// fresh variable each one receives at instantiation.
    pub foralls: Vec<TyVar>,
    /// The arena index of the body type.
    pub ty: usize,
}

/// The mathematical content of a [`PolyType`]: the quantified
/// variables and the body's arena index.
pub ghost struct PolyView {
    pub foralls: Seq<TyVar>,
    pub ty: usize,
}

impl View for PolyType {
    type V = PolyView;

    open spec fn view(&self) -> PolyView {
        PolyView { foralls: self.foralls@, ty: self.ty }
    }
}

impl DupValue for PolyType {
    fn dup(&self) -> (r: Self) {
        let mut foralls: Vec<TyVar> = Vec::new();
        let mut i: usize = 0;
        while i < self.foralls.len()
            invariant
                i <= self.foralls@.len(),
                foralls@ == self.foralls@.take(i as int),
            decreases self.foralls@.len() - i,
        {
            foralls.push(self.foralls[i]);
            proof {
                assert(foralls@ =~= self.foralls@.take(i as int + 1));
            }
            i = i + 1;
        }
        proof {
            assert(self.foralls@.take(self.foralls@.len() as int) =~= self.foralls@);
        }
        PolyType { foralls, ty: self.ty }
    }
}

impl PolyType {
    /// A monomorphic polytype: the bare body with nothing quantified.
    pub fn from_ty(ty: usize) -> (r: PolyType)
        ensures
            r.foralls@ == Seq::<TyVar>::empty(),
            r.ty == ty,
    {
        PolyType { foralls: Vec::new(), ty }
    }
}

/// The binding environment of the let-polymorphic checker: binder
/// identifiers mapped to polytypes.
pub type Context = context_linear::Context<PolyType>;

/// The supply of fresh type variables for one inference session, with
/// a union-find-shaped table reserved for a future unification step
/// (no operation specified here uses the reserved bindings).
pub struct TyEnv {
    tyvar_union: Vec<TyVar>,
    tyvar_ty: Vec<Option<usize>>,
}

impl TyEnv {
    /// How many variables have been drawn so far; the next fresh
    /// variable.
    pub closed spec fn count(&self) -> int {
        self.tyvar_union@.len() as int
    }

    /// Each drawn variable is its own union-find representative and has
    /// no reserved binding yet.
    pub closed spec fn wf(&self) -> bool {
        &&& self.tyvar_union@.len() == self.tyvar_ty@.len()
        &&& forall|i: int| 0 <= i < self.tyvar_union@.len() ==> self.tyvar_union@[i] == i
    }

    /// A fresh supply: no variables drawn yet.
    pub fn new() -> (r: TyEnv)
        ensures
            r.wf(),
            r.count() == 0,
    {
        TyEnv { tyvar_union: Vec::new(), tyvar_ty: Vec::new() }
    }

    /// Draw the next fresh type variable: the count so far, which has
    /// never been returned before and never will be again.
    pub fn fresh(&mut self) -> (r: TyVar)
        requires
            old(self).wf(),
        ensures
            final(self).wf(),
            r as int == old(self).count(),
            final(self).count() == old(self).count() + 1,
    {
        let id = self.tyvar_union.len();
        self.tyvar_union.push(id);
        self.tyvar_ty.push(None);
        proof {
            assert forall|i: int| 0 <= i < self.tyvar_union@.len() implies self.tyvar_union@[i]
                == i by {
                if i < id as int {
                    assert(self.tyvar_union@[i] == old(self).tyvar_union@[i]);
                }
            }
        }
        id
    }
}

/// A variable-to-variable mapping read mathematically.
pub open spec fn lift_mapping(m: Map<usize, usize>) -> Map<int, int> {
    Map::new(
        |v: int| 0 <= v <= usize::MAX && m.contains_key(v as usize),
        |v: int| m[v as usize] as int,
    )
}

/// A variable list read mathematically.
pub open spec fn lift_seq(s: Seq<usize>) -> Seq<int> {
    s.map_values(|v: usize| v as int)
}

/// Substitution on shapes: every variable the mapping covers is
/// rewritten to its image; everything else stays.
pub open spec fn subst_shape(m: Map<int, int>, t: TypeShape) -> TypeShape
    decreases t,
{
    match t {
        TypeShape::Int => t,
        TypeShape::Bool => t,
        TypeShape::Var(v) => if m.contains_key(v) {
            TypeShape::Var(m[v])
        } else {
            t
        },
        TypeShape::Fun(a, b) => TypeShape::Fun(
            Box::new(subst_shape(m, *a)),
            Box::new(subst_shape(m, *b)),
        ),
    }
}

/// Whether the mapping touches any variable actually present in the
/// shape.  When it does not, substitution is the identity and [`subst`]
/// returns its input index without allocating.
pub open spec fn shape_touched(m: Map<int, int>, t: TypeShape) -> bool
    decreases t,
{
    match t {
        TypeShape::Int => false,
        TypeShape::Bool => false,
        TypeShape::Var(v) => m.contains_key(v),
        TypeShape::Fun(a, b) => shape_touched(m, *a) || shape_touched(m, *b),
    }
}

/// Rewrite the type at index `ty` through `mapping`, allocating new
/// nodes only for the subtrees the mapping actually touches: an
/// untouched subtree comes back as its own index and nothing is
/// allocated for it.
pub fn subst(arena: &mut Arena, mapping: &HashMap<TyVar, TyVar>, ty: usize) -> (r: usize)
    requires
        old(arena).wf(),
        ty < old(arena).nodes_seq().len(),
    ensures
        final(arena).wf(),
        old(arena).nodes_seq().len() <= final(arena).nodes_seq().len(),
        forall|j: int|
            0 <= j < old(arena).nodes_seq().len() ==> final(arena).nodes_seq()[j] == old(
                arena,
            ).nodes_seq()[j],
        r < final(arena).nodes_seq().len(),
        shape_at(final(arena).nodes_seq(), r as int) == subst_shape(
            lift_mapping(mapping@),
            shape_at(old(arena).nodes_seq(), ty as int),
        ),
        !shape_touched(lift_mapping(mapping@), shape_at(old(arena).nodes_seq(), ty as int)) ==> r
            == ty && final(arena).nodes_seq() == old(arena).nodes_seq(),
        shape_touched(lift_mapping(mapping@), shape_at(old(arena).nodes_seq(), ty as int)) ==> r
            as int >= old(arena).nodes_seq().len(),
    decreases ty,
{
    let ghost n0 = arena.nodes_seq();
    let node = arena.node(ty);
    match node {
        Type::Int => ty,
        Type::Bool => ty,
        Type::Var(tv) => {
            match mapping.get(&tv) {
                Some(new_tv) => {
                    let r = arena.allocate(Type::Var(*new_tv));
                    proof {
                        assert(lift_mapping(mapping@).contains_key(tv as int));
                        assert(lift_mapping(mapping@)[tv as int] == *new_tv as int);
                    }
                    r
                },
                None => {
                    proof {
                        assert(!lift_mapping(mapping@).contains_key(tv as int));
                    }
                    ty
                },
            }
        },
        Type::Fun(a, b) => {
            proof {
                assert(node_wf(n0[ty as int], ty as int));
            }
            let na = subst(arena, mapping, a);
            let ghost n1 = arena.nodes_seq();
            let nb = subst(arena, mapping, b);
            let ghost n2 = arena.nodes_seq();
            proof {
                lemma_shape_at_grow(n0, n1, b as int);
                lemma_shape_at_grow(n1, n2, na as int);
            }
            if na == a && nb == b {
                proof {
                    lemma_shape_at_grow(n0, n2, a as int);
                    lemma_shape_at_grow(n0, n2, b as int);
                    assert(shape_at(n2, ty as int) == TypeShape::Fun(
                        Box::new(shape_at(n2, a as int)),
                        Box::new(shape_at(n2, b as int)),
                    ));
                }
                ty
            } else {
                let r = arena.allocate(Type::Fun(na, nb));
                proof {
                    let n3 = arena.nodes_seq();
                    lemma_shape_at_grow(n2, n3, na as int);
                    lemma_shape_at_grow(n2, n3, nb as int);
                    assert(shape_at(n3, r as int) == TypeShape::Fun(
                        Box::new(shape_at(n3, na as int)),
                        Box::new(shape_at(n3, nb as int)),
                    ));
                }
                r
            }
        },
    }
}

/// The mapping an instantiation builds: the variable listed at position
/// `k` of `foralls` goes to fresh variable `c0 + k`; a variable listed
/// twice keeps its last position.
pub open spec fn inst_mapping(foralls: Seq<int>, c0: int) -> Map<int, int>
    decreases foralls.len(),
{
    if foralls.len() == 0 {
        Map::empty()
    } else {
        inst_mapping(foralls.drop_last(), c0).insert(foralls.last(), c0 + foralls.len() - 1)
    }
}

/// Open a polytype for one use site: draw a fresh variable for each
/// quantified variable and substitute them through the body.  Fresh
/// variables come from the supply, so successive instantiations of the
/// same polytype never share them.
pub fn instantiate(arena: &mut Arena, tyenv: &mut TyEnv, polyty: &PolyType) -> (r: usize)
    requires
        old(arena).wf(),
        old(tyenv).wf(),
        polyty.ty < old(arena).nodes_seq().len(),
    ensures
        final(arena).wf(),
        final(tyenv).wf(),
        old(arena).nodes_seq().len() <= final(arena).nodes_seq().len(),
        forall|j: int|
            0 <= j < old(arena).nodes_seq().len() ==> final(arena).nodes_seq()[j] == old(
                arena,
            ).nodes_seq()[j],
        final(tyenv).count() == old(tyenv).count() + polyty.foralls@.len(),
        r < final(arena).nodes_seq().len(),
        shape_at(final(arena).nodes_seq(), r as int) == subst_shape(
            inst_mapping(lift_seq(polyty.foralls@), old(tyenv).count()),
            shape_at(old(arena).nodes_seq(), polyty.ty as int),
        ),
{
    let ghost c0 = tyenv.count();
    let ghost fl = polyty.foralls@;
    let mut mapping: HashMap<TyVar, TyVar> = HashMap::new();
    proof {
        assert(lift_mapping(mapping@) =~= inst_mapping(lift_seq(fl.take(0)), c0)) by {
            assert(lift_seq(fl.take(0)) =~= Seq::<int>::empty());
        }
    }
    let mut j: usize = 0;
    while j < polyty.foralls.len()
        invariant
            j <= fl.len(),
            fl == polyty.foralls@,
            tyenv.wf(),
            tyenv.count() == c0 + j,
            lift_mapping(mapping@) == inst_mapping(lift_seq(fl.take(j as int)), c0),
        decreases fl.len() - j,
    {
        let from = polyty.foralls[j];
        let fresh_tv = tyenv.fresh();
        mapping.insert(from, fresh_tv);
        proof {
            let fpre = lift_seq(fl.take(j as int));
            let fnow = lift_seq(fl.take(j as int + 1));
            assert(fnow.drop_last() =~= fpre);
            assert(fnow.last() == from as int);
            assert(inst_mapping(fnow, c0) == inst_mapping(fpre, c0).insert(
                from as int,
                c0 + j as int,
            ));
            assert(lift_mapping(mapping@) =~= inst_mapping(fpre, c0).insert(
                from as int,
                c0 + j as int,
            ));
        }
        j = j + 1;
    }
    proof {
        assert(fl.take(fl.len() as int) =~= fl);
    }
    subst(arena, &mapping, polyty.ty)
}

/// The generalization walk, mathematically: traverse the shape left to
/// right, outside in; the first occurrence of each free variable draws
/// the next fresh variable (recorded in the mapping and in `intro`),
/// repeated occurrences reuse it.  Returns the rewritten shape, the
/// extended mapping, the advanced counter and the extended
/// introduction list.
pub open spec fn gen_walk(t: TypeShape, m: Map<int, int>, c: int, intro: Seq<int>) -> (
    TypeShape,
    Map<int, int>,
    int,
    Seq<int>,
)
    decreases t,
{
    match t {
        TypeShape::Int => (t, m, c, intro),
        TypeShape::Bool => (t, m, c, intro),
        TypeShape::Var(v) => if m.contains_key(v) {
            (TypeShape::Var(m[v]), m, c, intro)
        } else {
            (TypeShape::Var(c), m.insert(v, c), c + 1, intro.push(c))
        },
        TypeShape::Fun(a, b) => {
            let ra = gen_walk(*a, m, c, intro);
            let rb = gen_walk(*b, ra.1, ra.2, ra.3);
            (TypeShape::Fun(Box::new(ra.0), Box::new(rb.0)), rb.1, rb.2, rb.3)
        },
    }
}

/// Whether the shape contains any variable at all.  Generalization
/// returns a variable-free subtree as its own index and allocates
/// nothing for it.
pub open spec fn shape_has_var(t: TypeShape) -> bool
    decreases t,
{
    match t {
        TypeShape::Int => false,
        TypeShape::Bool => false,
        TypeShape::Var(_) => true,
        TypeShape::Fun(a, b) => shape_has_var(*a) || shape_has_var(*b),
    }
}

/// Replace every free variable of the type at index `ty` with a fresh
/// one, drawing the fresh variable at a variable's first occurrence
/// (recording it in `mapping` and appending it to `intro`) and reusing
/// it at repeated occurrences.  Subtrees without variables come back
/// as their own index, with nothing allocated.
pub fn generalize_mut(
    arena: &mut Arena,
    tyenv: &mut TyEnv,
    mapping: &mut HashMap<TyVar, TyVar>,
    intro: &mut Vec<TyVar>,
    ty: usize,
) -> (r: usize)
    requires
        old(arena).wf(),
        old(tyenv).wf(),
        ty < old(arena).nodes_seq().len(),
    ensures
        final(arena).wf(),
        final(tyenv).wf(),
        old(arena).nodes_seq().len() <= final(arena).nodes_seq().len(),
        forall|j: int|
            0 <= j < old(arena).nodes_seq().len() ==> final(arena).nodes_seq()[j] == old(
                arena,
            ).nodes_seq()[j],
        r < final(arena).nodes_seq().len(),
        ({
            let w = gen_walk(
                shape_at(old(arena).nodes_seq(), ty as int),
                lift_mapping(old(mapping)@),
                old(tyenv).count(),
                lift_seq(old(intro)@),
            );
            &&& shape_at(final(arena).nodes_seq(), r as int) == w.0
            &&& lift_mapping(final(mapping)@) == w.1
            &&& final(tyenv).count() == w.2
            &&& lift_seq(final(intro)@) == w.3
        }),
        !shape_has_var(shape_at(old(arena).nodes_seq(), ty as int)) ==> r == ty
            && final(arena).nodes_seq() == old(arena).nodes_seq(),
    decreases ty,
{
    let ghost n0 = arena.nodes_seq();
    let node = arena.node(ty);
    match node {
        Type::Int => ty,
        Type::Bool => ty,
        Type::Var(tv) => {
            let new_tv: TyVar = match mapping.get(&tv) {
                Some(got) => {
                    proof {
                        assert(lift_mapping(mapping@).contains_key(tv as int));
                        assert(lift_mapping(mapping@)[tv as int] == *got as int);
                    }
                    *got
                },
                None => {
                    proof {
                        assert(!lift_mapping(mapping@).contains_key(tv as int));
                    }
                    let fresh_tv = tyenv.fresh();
                    mapping.insert(tv, fresh_tv);
                    intro.push(fresh_tv);
                    proof {
                        assert(lift_mapping(mapping@) =~= lift_mapping(old(mapping)@).insert(
                            tv as int,
                            fresh_tv as int,
                        ));
                        assert(lift_seq(intro@) =~= lift_seq(old(intro)@).push(fresh_tv as int));
                    }
                    fresh_tv
                },
            };
            arena.allocate(Type::Var(new_tv))
        },
        Type::Fun(a, b) => {
            proof {
                assert(node_wf(n0[ty as int], ty as int));
            }
            let na = generalize_mut(arena, tyenv, mapping, intro, a);
            let ghost n1 = arena.nodes_seq();
            let nb = generalize_mut(arena, tyenv, mapping, intro, b);
            let ghost n2 = arena.nodes_seq();
            proof {
                lemma_shape_at_grow(n0, n1, b as int);
                lemma_shape_at_grow(n1, n2, na as int);
            }
            if na == a && nb == b {
                proof {
                    lemma_shape_at_grow(n0, n2, a as int);
                    lemma_shape_at_grow(n0, n2, b as int);
                    assert(shape_at(n2, ty as int) == TypeShape::Fun(
                        Box::new(shape_at(n2, a as int)),
                        Box::new(shape_at(n2, b as int)),
                    ));
                }
                ty
            } else {
                let r = arena.allocate(Type::Fun(na, nb));
                proof {
                    let n3 = arena.nodes_seq();
                    lemma_shape_at_grow(n2, n3, na as int);
                    lemma_shape_at_grow(n2, n3, nb as int);
                    assert(shape_at(n3, r as int) == TypeShape::Fun(
                        Box::new(shape_at(n3, na as int)),
                        Box::new(shape_at(n3, nb as int)),
                    ));
                }
                r
            }
        },
    }
}

/// Close the type at index `ty` over its free variables: every free
/// variable is renamed to a fresh one (so distinct generalizations
/// never alias), and the result quantifies exactly the fresh variables
/// introduced, in order of first occurrence.
pub fn generalize(arena: &mut Arena, tyenv: &mut TyEnv, ty: usize) -> (r: PolyType)
    requires
        old(arena).wf(),
        old(tyenv).wf(),
        ty < old(arena).nodes_seq().len(),
    ensures
        final(arena).wf(),
        final(tyenv).wf(),
        old(arena).nodes_seq().len() <= final(arena).nodes_seq().len(),
        forall|j: int|
            0 <= j < old(arena).nodes_seq().len() ==> final(arena).nodes_seq()[j] == old(
                arena,
            ).nodes_seq()[j],
        r.ty < final(arena).nodes_seq().len(),
        ({
            let w = gen_walk(
                shape_at(old(arena).nodes_seq(), ty as int),
                Map::empty(),
                old(tyenv).count(),
                Seq::empty(),
            );
            &&& shape_at(final(arena).nodes_seq(), r.ty as int) == w.0
            &&& lift_seq(r.foralls@) == w.3
            &&& final(tyenv).count() == w.2
        }),
{
    let mut mapping: HashMap<TyVar, TyVar> = HashMap::new();
    let mut intro: Vec<TyVar> = Vec::new();
    proof {
        assert(lift_mapping(mapping@) =~= Map::<int, int>::empty());
        assert(lift_seq(intro@) =~= Seq::<int>::empty());
    }
    let new_ty = generalize_mut(arena, tyenv, &mut mapping, &mut intro, ty);
    PolyType { foralls: intro, ty: new_ty }
}

/// The mathematical content of a polytype against an arena: its
/// quantified variables and the shape of its body.
pub ghost struct PolyShape {
    pub foralls: Seq<int>,
    pub body: TypeShape,
}

/// The polytype read mathematically.
pub open spec fn poly_shape(nodes: Seq<Type>, p: PolyView) -> PolyShape {
    PolyShape { foralls: lift_seq(p.foralls), body: shape_at(nodes, p.ty as int) }
}

/// A binding environment is well formed against an arena size when
/// every bound polytype's body index is in range.
pub open spec fn env_wf(env: Map<usize, PolyView>, bound: int) -> bool {
    forall|k: usize| #[trigger] env.contains_key(k) ==> env[k].ty < bound
}

/// The binding environment read mathematically.
pub open spec fn env_shapes(nodes: Seq<Type>, env: Map<usize, PolyView>) -> Map<usize, PolyShape> {
    env.map_values(|p: PolyView| poly_shape(nodes, p))
}

/// Growing an arena never changes the shapes a well-formed environment
/// denotes.
pub proof fn lemma_env_shapes_grow(n1: Seq<Type>, n2: Seq<Type>, env: Map<usize, PolyView>)
    requires
        n1.len() <= n2.len(),
        forall|j: int| 0 <= j < n1.len() ==> n1[j] == n2[j],
        env_wf(env, n1.len() as int),
    ensures
        env_shapes(n2, env) == env_shapes(n1, env),
{
    assert forall|k: usize| #[trigger] env.contains_key(k) implies poly_shape(n2, env[k])
        == poly_shape(n1, env[k]) by {
        lemma_shape_at_grow(n1, n2, env[k].ty as int);
    }
    assert(env_shapes(n2, env) =~= env_shapes(n1, env));
}

/// Whether a term is free of applications.  The application case of
/// the let-polymorphic checker would need unification, which is out of
/// this contract's scope, so the checker demands App-free terms.
pub open spec fn no_app(t: Term) -> bool
    decreases t,
{
    match t {
        Term::Var(_) => true,
        Term::Let(_, d, b) => no_app(*d) && no_app(*b),
        Term::Lam(_, b) => no_app(*b),
        Term::App(_, _) => false,
    }
}

/// The let-polymorphic judgment on App-free terms, threading the fresh
/// variable counter:
///
/// * a variable instantiates its bound polytype with the next fresh
///   variables, and is an `UnknownVariable` error otherwise;
/// * a `Let` infers the bound term, generalizes its type with a fresh
///   mapping, and infers the body under the resulting polytype;
/// * a lambda binds its parameter monomorphically to one fresh
///   variable and returns the function shape.
pub open spec fn hm_infer_spec(env: Map<usize, PolyShape>, c: int, t: Term) -> Result<
    (TypeShape, int),
    ErrorShape,
>
    decreases t,
{
    match t {
        Term::Var(id) => if env.contains_key(id) {
            let p = env[id];
            Ok((subst_shape(inst_mapping(p.foralls, c), p.body), c + p.foralls.len()))
        } else {
            Err(ErrorShape::UnknownVariable(id))
        },
        Term::Let(id, def, body) => match hm_infer_spec(env, c, *def) {
            Ok(dr) => {
                let w = gen_walk(dr.0, Map::empty(), dr.1, Seq::empty());
                hm_infer_spec(env.insert(id, PolyShape { foralls: w.3, body: w.0 }), w.2, *body)
            },
            Err(e) => Err(e),
        },
        Term::Lam(id, body) => {
            let param = PolyShape { foralls: Seq::empty(), body: TypeShape::Var(c) };
            match hm_infer_spec(env.insert(id, param), c + 1, *body) {
                Ok(br) => Ok(
                    (TypeShape::Fun(Box::new(TypeShape::Var(c)), Box::new(br.0)), br.1),
                ),
                Err(e) => Err(e),
            }
        },
        Term::App(_, _) => arbitrary(),
    }
}

/// The mathematical reading of an error value against an arena.
pub open spec fn error_shape(nodes: Seq<Type>, e: Error) -> ErrorShape {
    match e {
        Error::UnknownVariable(id) => ErrorShape::UnknownVariable(id),
        Error::ApplyingNonFunction { fun_ty, arg_ty } => ErrorShape::ApplyingNonFunction {
            fun_ty: shape_at(nodes, fun_ty as int),
            arg_ty: shape_at(nodes, arg_ty as int),
        },
        Error::ArgTypeMismatch { expected, actual } => ErrorShape::ArgTypeMismatch {
            expected: shape_at(nodes, expected as int),
            actual: shape_at(nodes, actual as int),
        },
    }
}

/// Infer the polytype of an App-free term against `ctx`.  The context
/// is left untouched: inference works on a private copy, with a fresh
/// variable supply of its own.  The body type the judgment
/// [`hm_infer_spec`] assigns to the term is generalized into the
/// returned polytype.
pub fn infer(arena: &mut Arena, ctx: &Context, term: &Term) -> (r: Result<PolyType, Error>)
    requires
        old(arena).wf(),
        no_app(*term),
        env_wf(ctx@, old(arena).nodes_seq().len() as int),
    ensures
        final(arena).wf(),
        old(arena).nodes_seq().len() <= final(arena).nodes_seq().len(),
        forall|j: int|
            0 <= j < old(arena).nodes_seq().len() ==> final(arena).nodes_seq()[j] == old(
                arena,
            ).nodes_seq()[j],
        ({
            let spec_r = hm_infer_spec(env_shapes(old(arena).nodes_seq(), ctx@), 0, *term);
            match r {
                Ok(p) => spec_r is Ok && ({
                    let w = gen_walk(spec_r->Ok_0.0, Map::empty(), spec_r->Ok_0.1, Seq::empty());
                    &&& p.ty < final(arena).nodes_seq().len()
                    &&& shape_at(final(arena).nodes_seq(), p.ty as int) == w.0
                    &&& lift_seq(p.foralls@) == w.3
                }),
                Err(e) => spec_r == Err::<(TypeShape, int), ErrorShape>(
                    error_shape(final(arena).nodes_seq(), e),
                ),
            }
        }),
{
    let mut c = ctx.dup();
    let mut tyenv = TyEnv::new();
    let res = infer_mut(arena, &mut c, &mut tyenv, term);
    match res {
        Ok(ty) => Ok(generalize(arena, &mut tyenv, ty)),
        Err(e) => Err(e),
    }
}

/// Infer the type of an App-free term, threading one mutable context
/// and one fresh variable supply through the recursion.  Scoped
/// bindings made while inferring are released on every exit path, so
/// the context leaves with the binding table it came with.  The result
/// and the advance of the fresh variable counter are exactly what the
/// judgment [`hm_infer_spec`] assigns to the term.
pub fn infer_mut(arena: &mut Arena, ctx: &mut Context, tyenv: &mut TyEnv, term: &Term) -> (r:
    Result<usize, Error>)
    requires
        old(arena).wf(),
        old(tyenv).wf(),
        no_app(*term),
        env_wf(old(ctx)@, old(arena).nodes_seq().len() as int),
    ensures
        final(arena).wf(),
        final(tyenv).wf(),
        old(arena).nodes_seq().len() <= final(arena).nodes_seq().len(),
        forall|j: int|
            0 <= j < old(arena).nodes_seq().len() ==> final(arena).nodes_seq()[j] == old(
                arena,
            ).nodes_seq()[j],
        extends_with_nones(slots_view(old(ctx).slots_seq()), slots_view(final(ctx).slots_seq())),
        final(ctx)@ == old(ctx)@,
        match r {
            Ok(i) => i < final(arena).nodes_seq().len() && hm_infer_spec(
                env_shapes(old(arena).nodes_seq(), old(ctx)@),
                old(tyenv).count(),
                *term,
            ) == Ok::<(TypeShape, int), ErrorShape>(
                (shape_at(final(arena).nodes_seq(), i as int), final(tyenv).count()),
            ),
            Err(e) => hm_infer_spec(
                env_shapes(old(arena).nodes_seq(), old(ctx)@),
                old(tyenv).count(),
                *term,
            ) == Err::<(TypeShape, int), ErrorShape>(error_shape(final(arena).nodes_seq(), e)),
        },
    decreases *term,
{
    match term {
        Term::Var(id) => {
            match ctx.get(id) {
                Some(p) => {
                    proof {
                        assert(env_shapes(arena.nodes_seq(), ctx@)[*id] == poly_shape(
                            arena.nodes_seq(),
                            ctx@[*id],
                        ));
                    }
                    let ty = instantiate(arena, tyenv, p);
                    Ok(ty)
                },
                None => {
                    proof {
                        assert(!env_shapes(arena.nodes_seq(), ctx@).contains_key(*id));
                    }
                    Err(Error::UnknownVariable(*id))
                },
            }
        },
        Term::Let(id, def, body) => {
            let ghost n0 = arena.nodes_seq();
            let ghost env0 = ctx@;
            let ghost c0 = tyenv.count();
            let ghost senter = slots_view(ctx.slots_seq());
            let rd = infer_mut(arena, ctx, tyenv, &**def);
            match rd {
                Err(e) => Err(e),
                Ok(var_ty) => {
                    let ghost n1 = arena.nodes_seq();
                    let var_polyty = generalize(arena, tyenv, var_ty);
                    let ghost n2 = arena.nodes_seq();
                    let ghost s0 = slots_view(ctx.slots_seq());
                    proof {
                        ctx.lemma_view_is_slots_map();
                    }
                    let g = ctx.with(*id, var_polyty);
                    proof {
                        assert(env_wf(ctx@, n2.len() as int));
                        lemma_env_shapes_grow(n0, n2, env0);
                        assert(env_shapes(n2, env0.insert(*id, var_polyty@)) =~= env_shapes(
                            n0,
                            env0,
                        ).insert(*id, poly_shape(n2, var_polyty@)));
                    }
                    let rb = infer_mut(arena, ctx, tyenv, &**body);
                    let ghost s2 = slots_view(ctx.slots_seq());
                    proof {
                        assert(s2.len() == ctx.slots_seq().len());
                        assert((g.index as int) < s2.len());
                    }
                    g.release(ctx);
                    proof {
                        lemma_scoped_restore(s0, s2, *id, var_polyty@);
                        ctx.lemma_view_is_slots_map();
                    }
                    rb
                },
            }
        },
        Term::Lam(arg_id, body) => {
            let ghost n0 = arena.nodes_seq();
            let ghost env0 = ctx@;
            let ghost c0 = tyenv.count();
            let fresh_tv = tyenv.fresh();
            let arg_ty = arena.allocate(Type::Var(fresh_tv));
            let ghost n1 = arena.nodes_seq();
            let ghost s0 = slots_view(ctx.slots_seq());
            proof {
                ctx.lemma_view_is_slots_map();
            }
            let param = PolyType::from_ty(arg_ty);
            let ghost paramv = param@;
            let g = ctx.with(*arg_id, param);
            proof {
                assert(env_wf(ctx@, n1.len() as int));
                lemma_env_shapes_grow(n0, n1, env0);
                assert(poly_shape(n1, paramv) == PolyShape {
                    foralls: Seq::<int>::empty(),
                    body: TypeShape::Var(c0),
                }) by {
                    assert(lift_seq(paramv.foralls) =~= Seq::<int>::empty());
                }
                assert(env_shapes(n1, env0.insert(*arg_id, paramv)) =~= env_shapes(
                    n0,
                    env0,
                ).insert(*arg_id, poly_shape(n1, paramv)));
            }
            let rb = infer_mut(arena, ctx, tyenv, &**body);
            let ghost s2 = slots_view(ctx.slots_seq());
            proof {
                assert(s2.len() == ctx.slots_seq().len());
                assert((g.index as int) < s2.len());
            }
            g.release(ctx);
            proof {
                lemma_scoped_restore(s0, s2, *arg_id, paramv);
                ctx.lemma_view_is_slots_map();
            }
            match rb {
                Ok(result_ty) => {
                    let ghost n3 = arena.nodes_seq();
                    let f = arena.allocate(Type::Fun(arg_ty, result_ty));
                    proof {
                        let n4 = arena.nodes_seq();
                        lemma_shape_at_grow(n1, n4, arg_ty as int);
                        lemma_shape_at_grow(n3, n4, result_ty as int);
                        assert(shape_at(n4, f as int) == TypeShape::Fun(
                            Box::new(shape_at(n4, arg_ty as int)),
                            Box::new(shape_at(n4, result_ty as int)),
                        ));
                    }
                    Ok(f)
                },
                Err(e) => Err(e),
            }
        },
        Term::App(_, _) => {
            proof {
                assert(false);
            }
            vstd::pervasive::unreached()
        },
    }
}

/// The variables occurring in a shape.
pub open spec fn shape_vars(t: TypeShape) -> Set<int>
    decreases t,
{
    match t {
        TypeShape::Int => Set::empty(),
        TypeShape::Bool => Set::empty(),
        TypeShape::Var(v) => Set::empty().insert(v),
        TypeShape::Fun(a, b) => shape_vars(*a).union(shape_vars(*b)),
    }
}

proof fn lemma_inst_mapping_props(f: Seq<int>, c0: int)
    ensures
        forall|v: int| #[trigger] inst_mapping(f, c0).contains_key(v) <==> f.contains(v),
        forall|v: int| #[trigger]
            inst_mapping(f, c0).contains_key(v) ==> c0 <= inst_mapping(f, c0)[v] < c0 + f.len(),
    decreases f.len(),
{
    if f.len() == 0 {
    } else {
        let fp = f.drop_last();
        lemma_inst_mapping_props(fp, c0);
        assert forall|v: int| #[trigger] inst_mapping(f, c0).contains_key(v) implies f.contains(
            v,
        ) by {
            if v == f.last() {
                assert(f[f.len() - 1] == v);
            } else {
                assert(inst_mapping(fp, c0).contains_key(v));
                assert(fp.contains(v));
                let i = choose|i: int| 0 <= i < fp.len() && fp[i] == v;
                assert(f[i] == v);
            }
        }
        assert forall|v: int| f.contains(v) implies inst_mapping(f, c0).contains_key(v) by {
            let i = choose|i: int| 0 <= i < f.len() && f[i] == v;
            if i < f.len() - 1 {
                assert(fp[i] == v);
                assert(fp.contains(v));
                assert(inst_mapping(fp, c0).contains_key(v));
            } else {
                assert(v == f.last());
            }
        }
        assert forall|v: int| #[trigger] inst_mapping(f, c0).contains_key(v) implies c0
            <= inst_mapping(f, c0)[v] < c0 + f.len() by {
            if v != f.last() {
                assert(inst_mapping(fp, c0).contains_key(v));
            }
        }
    }
}

proof fn lemma_inst_vars_in_range(f: Seq<int>, c0: int, t: TypeShape)
    requires
        forall|v: int| shape_vars(t).contains(v) ==> f.contains(v),
    ensures
        forall|v: int| #[trigger]
            shape_vars(subst_shape(inst_mapping(f, c0), t)).contains(v) ==> c0 <= v < c0
                + f.len(),
    decreases t,
{
    lemma_inst_mapping_props(f, c0);
    match t {
        TypeShape::Int => {},
        TypeShape::Bool => {},
        TypeShape::Var(v0) => {
            assert(shape_vars(t).contains(v0));
            assert(f.contains(v0));
            assert(inst_mapping(f, c0).contains_key(v0));
            assert(subst_shape(inst_mapping(f, c0), t) == TypeShape::Var(
                inst_mapping(f, c0)[v0],
            ));
        },
        TypeShape::Fun(a, b) => {
            assert forall|v: int| shape_vars(*a).contains(v) implies f.contains(v) by {
                assert(shape_vars(t).contains(v));
            }
            assert forall|v: int| shape_vars(*b).contains(v) implies f.contains(v) by {
                assert(shape_vars(t).contains(v));
            }
            lemma_inst_vars_in_range(f, c0, *a);
            lemma_inst_vars_in_range(f, c0, *b);
            assert forall|v: int| #[trigger]
                shape_vars(subst_shape(inst_mapping(f, c0), t)).contains(v) implies c0 <= v < c0
                + f.len() by {
                assert(shape_vars(subst_shape(inst_mapping(f, c0), t)) == shape_vars(
                    subst_shape(inst_mapping(f, c0), *a),
                ).union(shape_vars(subst_shape(inst_mapping(f, c0), *b))));
            }
        },
    }
}

/// Instantiate-freshness law: instantiating a polytype whose body's
/// variables are all quantified yields a type whose variables lie
/// entirely in the fresh range the instantiation drew, so two
/// successive instantiations of the same polytype — whose fresh ranges
/// are disjoint because the counter only grows — never share a type
/// variable.  (A free variable of the body that is not quantified
/// survives every instantiation unchanged, so the law asks for a fully
/// quantified body.)
pub proof fn lemma_instantiate_freshness(f: Seq<int>, body: TypeShape, c0: int, c1: int)
    requires
        forall|v: int| shape_vars(body).contains(v) ==> f.contains(v),
        c0 + f.len() <= c1,
    ensures
        shape_vars(subst_shape(inst_mapping(f, c0), body)).disjoint(
            shape_vars(subst_shape(inst_mapping(f, c1), body)),
        ),
{
    lemma_inst_vars_in_range(f, c0, body);
    lemma_inst_vars_in_range(f, c1, body);
    let t0 = subst_shape(inst_mapping(f, c0), body);
    let t1 = subst_shape(inst_mapping(f, c1), body);
    assert forall|v: int| shape_vars(t0).contains(v) implies !shape_vars(t1).contains(v) by {
        assert(c0 <= v < c0 + f.len());
    }
}

/// One renaming after another, as a single mapping on the domain of
/// the first.
pub open spec fn compose_renames(m1: Map<int, int>, m2: Map<int, int>) -> Map<int, int> {
    Map::new(
        |v: int| m1.contains_key(v),
        |v: int|
            if m2.contains_key(m1[v]) {
                m2[m1[v]]
            } else {
                m1[v]
            },
    )
}

proof fn lemma_subst_agree(t: TypeShape, m1: Map<int, int>, m2: Map<int, int>)
    requires
        forall|v: int| shape_vars(t).contains(v) ==> m1.contains_key(v),
        forall|v: int| #[trigger] m1.contains_key(v) ==> m2.contains_key(v) && m2[v] == m1[v],
    ensures
        subst_shape(m2, t) == subst_shape(m1, t),
    decreases t,
{
    match t {
        TypeShape::Int => {},
        TypeShape::Bool => {},
        TypeShape::Var(v0) => {
            assert(shape_vars(t).contains(v0));
        },
        TypeShape::Fun(a, b) => {
            assert forall|v: int| shape_vars(*a).contains(v) implies m1.contains_key(v) by {
                assert(shape_vars(t).contains(v));
            }
            assert forall|v: int| shape_vars(*b).contains(v) implies m1.contains_key(v) by {
                assert(shape_vars(t).contains(v));
            }
            lemma_subst_agree(*a, m1, m2);
            lemma_subst_agree(*b, m1, m2);
        },
    }
}

proof fn lemma_subst_compose(t: TypeShape, m1: Map<int, int>, m2: Map<int, int>)
    requires
        forall|v: int| shape_vars(t).contains(v) ==> m1.contains_key(v),
    ensures
        subst_shape(m2, subst_shape(m1, t)) == subst_shape(compose_renames(m1, m2), t),
    decreases t,
{
    match t {
        TypeShape::Int => {},
        TypeShape::Bool => {},
        TypeShape::Var(v0) => {
            assert(shape_vars(t).contains(v0));
        },
        TypeShape::Fun(a, b) => {
            assert forall|v: int| shape_vars(*a).contains(v) implies m1.contains_key(v) by {
                assert(shape_vars(t).contains(v));
            }
            assert forall|v: int| shape_vars(*b).contains(v) implies m1.contains_key(v) by {
                assert(shape_vars(t).contains(v));
            }
            lemma_subst_compose(*a, m1, m2);
            lemma_subst_compose(*b, m1, m2);
        },
    }
}

/// A renaming whose images all lie below the counter and never
/// collide.  The generalization walk keeps its mapping in this form.
pub open spec fn rename_wf(m: Map<int, int>, c: int) -> bool {
    &&& forall|v: int| #[trigger] m.contains_key(v) ==> m[v] < c
    &&& forall|v1: int, v2: int|
        m.contains_key(v1) && m.contains_key(v2) && v1 != v2 ==> m[v1] != m[v2]
}

proof fn lemma_gen_walk_props(t: TypeShape, m: Map<int, int>, c: int, intro: Seq<int>)
    requires
        rename_wf(m, c),
    ensures
        ({
            let w = gen_walk(t, m, c, intro);
            &&& c <= w.2
            &&& intro.len() <= w.3.len()
            &&& w.2 - c == w.3.len() - intro.len()
            &&& forall|j: int| 0 <= j < intro.len() ==> w.3[j] == intro[j]
            &&& forall|j: int| intro.len() <= j < w.3.len() ==> w.3[j] == c + (j - intro.len())
            &&& forall|v: int| #[trigger] m.contains_key(v) ==> w.1.contains_key(v) && w.1[v] == m[v]
            &&& forall|v: int| #[trigger]
                w.1.contains_key(v) <==> m.contains_key(v) || shape_vars(t).contains(v)
            &&& forall|v: int| #[trigger]
                w.1.contains_key(v) && !m.contains_key(v) ==> c <= w.1[v] < w.2
            &&& rename_wf(w.1, w.2)
            &&& w.0 == subst_shape(w.1, t)
        }),
    decreases t,
{
    let w = gen_walk(t, m, c, intro);
    match t {
        TypeShape::Int => {},
        TypeShape::Bool => {},
        TypeShape::Var(v0) => {
            assert(shape_vars(t).contains(v0));
            if m.contains_key(v0) {
            } else {
                assert(w.1 == m.insert(v0, c));
                assert(w.3 == intro.push(c));
                assert forall|j: int| intro.len() <= j < w.3.len() implies w.3[j] == c + (j
                    - intro.len()) by {
                    assert(j == intro.len());
                    assert(w.3[j] == c);
                }
            }
        },
        TypeShape::Fun(a, b) => {
            let ra = gen_walk(*a, m, c, intro);
            lemma_gen_walk_props(*a, m, c, intro);
            let rb = gen_walk(*b, ra.1, ra.2, ra.3);
            lemma_gen_walk_props(*b, ra.1, ra.2, ra.3);
            assert forall|j: int| intro.len() <= j < w.3.len() implies w.3[j] == c + (j
                - intro.len()) by {
                assert(w.3 == rb.3);
                if j < ra.3.len() {
                    assert(rb.3[j] == ra.3[j]);
                    assert(ra.3[j] == c + (j - intro.len()));
                } else {
                    assert(rb.3[j] == ra.2 + (j - ra.3.len()));
                    assert(ra.2 == c + (ra.3.len() - intro.len()));
                }
            }
            assert forall|v: int| #[trigger]
                w.1.contains_key(v) <==> m.contains_key(v) || shape_vars(t).contains(v) by {
                assert(w.1 == rb.1);
                assert(rb.1.contains_key(v) <==> ra.1.contains_key(v) || shape_vars(*b).contains(
                    v,
                ));
                assert(ra.1.contains_key(v) <==> m.contains_key(v) || shape_vars(*a).contains(v));
                assert(shape_vars(t).contains(v) <==> shape_vars(*a).contains(v) || shape_vars(
                    *b,
                ).contains(v));
            }
            assert forall|v: int| shape_vars(*a).contains(v) implies ra.1.contains_key(v) by {}
            lemma_subst_agree(*a, ra.1, rb.1);
            assert(w.0 == TypeShape::Fun(Box::new(ra.0), Box::new(rb.0)));
            assert(ra.0 == subst_shape(ra.1, *a));
            assert(subst_shape(rb.1, *a) == subst_shape(ra.1, *a));
            assert(rb.0 == subst_shape(rb.1, *b));
            assert(w.0 == subst_shape(w.1, t));
        },
    }
}

proof fn lemma_inst_mapping_distinct(f: Seq<int>, c0: int)
    requires
        forall|j1: int, j2: int| 0 <= j1 < j2 < f.len() ==> f[j1] != f[j2],
    ensures
        forall|j: int|
            0 <= j < f.len() ==> inst_mapping(f, c0).contains_key(#[trigger] f[j]) && inst_mapping(
                f,
                c0,
            )[f[j]] == c0 + j,
    decreases f.len(),
{
    if f.len() == 0 {
    } else {
        let fp = f.drop_last();
        lemma_inst_mapping_distinct(fp, c0);
        assert forall|j: int| 0 <= j < f.len() implies inst_mapping(f, c0).contains_key(
            #[trigger] f[j],
        ) && inst_mapping(f, c0)[f[j]] == c0 + j by {
            if j < f.len() - 1 {
                assert(fp[j] == f[j]);
                assert(f[j] != f.last());
            }
        }
    }
}

/// Generalize/instantiate coherence law: generalizing a type with a
/// fresh mapping and then instantiating the resulting polytype yields
/// the type again up to variable renaming — the instance is the image
/// of the original under an injective mapping defined on all its
/// variables.
pub proof fn lemma_generalize_instantiate_coherence(t: TypeShape, c1: int)
    ensures
        ({
            let w = gen_walk(t, Map::empty(), c1, Seq::empty());
            let rho = compose_renames(w.1, inst_mapping(w.3, w.2));
            &&& subst_shape(inst_mapping(w.3, w.2), w.0) == subst_shape(rho, t)
            &&& forall|v: int| shape_vars(t).contains(v) ==> #[trigger] rho.contains_key(v)
            &&& forall|v1: int, v2: int|
                rho.contains_key(v1) && rho.contains_key(v2) && v1 != v2 ==> rho[v1] != rho[v2]
        }),
{
    let m0 = Map::<int, int>::empty();
    let intro0 = Seq::<int>::empty();
    let w = gen_walk(t, m0, c1, intro0);
    lemma_gen_walk_props(t, m0, c1, intro0);
    let im = inst_mapping(w.3, w.2);
    let rho = compose_renames(w.1, im);
    assert forall|v: int| shape_vars(t).contains(v) implies m0.contains_key(v)
        || shape_vars(t).contains(v) by {}
    lemma_subst_compose(t, w.1, im);
    assert(w.0 == subst_shape(w.1, t));
    assert forall|j1: int, j2: int| 0 <= j1 < j2 < w.3.len() implies w.3[j1] != w.3[j2] by {
        assert(w.3[j1] == c1 + j1);
        assert(w.3[j2] == c1 + j2);
    }
    lemma_inst_mapping_distinct(w.3, w.2);
    assert forall|v1: int, v2: int|
        rho.contains_key(v1) && rho.contains_key(v2) && v1 != v2 implies rho[v1] != rho[v2] by {
        let u1 = w.1[v1];
        let u2 = w.1[v2];
        assert(c1 <= u1 < w.2);
        assert(c1 <= u2 < w.2);
        assert(u1 != u2);
        assert(w.3[u1 - c1] == u1);
        assert(w.3[u2 - c1] == u2);
        assert(im.contains_key(u1) && im[u1] == w.2 + (u1 - c1));
        assert(im.contains_key(u2) && im[u2] == w.2 + (u2 - c1));
        assert(rho[v1] == im[u1]);
        assert(rho[v2] == im[u2]);
    }
}

} // verus!
