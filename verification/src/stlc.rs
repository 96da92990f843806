//! Structural type checking for the simply typed lambda calculus.
//!
//! Types are trees of nodes held in an index-addressed [`Arena`]:
//! allocating a node returns a stable index, earlier indices stay valid
//! forever, and a `Fun` node refers to its domain and codomain by
//! index.  The mathematical reading of an index is the recursive
//! [`TypeShape`] it denotes ([`shape_at`]); structural equality of
//! types is equality of shapes, not of indices.
//!
//! [`infer`] checks an annotated term against a typing context and
//! returns either the index of the term's type or a typed [`Error`];
//! its whole behaviour is pinned down by the specification-level
//! judgment [`infer_spec`].

use vstd::prelude::*;

verus! {

use crate::context_linear;
use crate::context_linear::extends_with_nones;
use crate::context_linear::lemma_scoped_restore;
use crate::context_linear::slots_view;

/// A term-level binder identifier.
pub type Id = usize;

/// One node of a type tree.  The children of `Fun` are indices of
/// earlier nodes in the same [`Arena`].
#[derive(Clone, Copy, PartialEq, Eq, Structural, Debug)]
pub enum Type {
    Int,
    Bool,
    Fun(usize, usize),
}

/// The tree a type node denotes once all indices are followed.
pub enum TypeShape {
    Int,
    Bool,
    Fun(Box<TypeShape>, Box<TypeShape>),
}

/// A term of the simply typed lambda calculus.  Every lambda parameter
/// carries an explicit type annotation, given as an arena index.
#[derive(PartialEq, Eq, Debug)]
pub enum Term {
    Var(Id),
    Lam(Id, usize, Box<Term>),
    App(Box<Term>, Box<Term>),
}

/// A type error.  The carried indices point at the offending type nodes
/// in the arena the checker ran against.
#[derive(Clone, Copy, PartialEq, Eq, Structural, Debug)]
pub enum Error {
    UnknownVariable(Id),
    ApplyingNonFunction { fun_ty: usize, arg_ty: usize },
    ArgTypeMismatch { expected: usize, actual: usize },
}

/// The mathematical reading of an [`Error`]: indices replaced by the
/// shapes they denote.
pub enum ErrorShape {
    UnknownVariable(Id),
    ApplyingNonFunction { fun_ty: TypeShape, arg_ty: TypeShape },
    ArgTypeMismatch { expected: TypeShape, actual: TypeShape },
}

/// The typing context of the checker: binder identifiers mapped to
/// arena indices of their types.
pub type Context = context_linear::Context<usize>;

/// A node is well formed at position `bound` when its children lie
/// strictly before it, so that type trees are acyclic.
pub open spec fn node_wf(node: Type, bound: int) -> bool {
    match node {
        Type::Fun(a, b) => a < bound && b < bound,
        _ => true,
    }
}

/// An arena of type nodes.  Allocation hands out the index of the new
/// node; nodes are never mutated or freed, and indices handed out
/// earlier stay valid as the arena grows.
pub struct Arena {
    nodes: Vec<Type>,
}

impl Arena {
    /// The nodes allocated so far, earliest first.
    pub closed spec fn nodes_seq(&self) -> Seq<Type> {
        self.nodes@
    }

    /// Every node refers only to earlier nodes.
    pub open spec fn wf(&self) -> bool {
        forall|i: int|
            0 <= i < self.nodes_seq().len() ==> node_wf(#[trigger] self.nodes_seq()[i], i)
    }

    /// An empty arena.
    pub fn new() -> (r: Arena)
        ensures
            r.nodes_seq() == Seq::<Type>::empty(),
            r.wf(),
    {
        Arena { nodes: Vec::new() }
    }

    /// The number of nodes allocated so far.
    pub fn len(&self) -> (r: usize)
        ensures
            r == self.nodes_seq().len(),
    {
        self.nodes.len()
    }

    /// Read the node at index `i`.
    pub fn node(&self, i: usize) -> (r: Type)
        requires
            i < self.nodes_seq().len(),
        ensures
            r == self.nodes_seq()[i as int],
    {
        self.nodes[i]
    }

    /// Allocate a node and return its index.  Indices handed out
    /// earlier keep denoting the same nodes.
    pub fn allocate(&mut self, node: Type) -> (i: usize)
        requires
            node_wf(node, old(self).nodes_seq().len() as int),
        ensures
            i == old(self).nodes_seq().len(),
            final(self).nodes_seq() == old(self).nodes_seq().push(node),
            old(self).wf() ==> final(self).wf(),
    {
        let i = self.nodes.len();
        self.nodes.push(node);
        proof {
            if old(self).wf() {
                assert forall|j: int| 0 <= j < self.nodes_seq().len() implies node_wf(
                    #[trigger] self.nodes_seq()[j],
                    j,
                ) by {
                    if j < i as int {
                        assert(self.nodes_seq()[j] == old(self).nodes_seq()[j]);
                    }
                }
            }
        }
        i
    }
}

/// The shape the node at index `i` denotes: its tree once all child
/// indices are followed.  Out-of-range or forward references (which a
/// well-formed arena never contains) read as `Int`.
pub open spec fn shape_at(nodes: Seq<Type>, i: int) -> TypeShape
    decreases i,
{
    if 0 <= i < nodes.len() {
        match nodes[i] {
            Type::Int => TypeShape::Int,
            Type::Bool => TypeShape::Bool,
            Type::Fun(a, b) => if a < i && b < i {
                TypeShape::Fun(
                    Box::new(shape_at(nodes, a as int)),
                    Box::new(shape_at(nodes, b as int)),
                )
            } else {
                TypeShape::Int
            },
        }
    } else {
        TypeShape::Int
    }
}

/// Growing an arena never changes the shape an existing index denotes.
pub proof fn lemma_shape_at_grow(n1: Seq<Type>, n2: Seq<Type>, i: int)
    requires
        n1.len() <= n2.len(),
        forall|j: int| 0 <= j < n1.len() ==> n1[j] == n2[j],
        0 <= i < n1.len(),
    ensures
        shape_at(n2, i) == shape_at(n1, i),
    decreases i,
{
    assert(n1[i] == n2[i]);
    match n1[i] {
        Type::Fun(a, b) => {
            if a < i && b < i {
                lemma_shape_at_grow(n1, n2, a as int);
                lemma_shape_at_grow(n1, n2, b as int);
            }
        },
        _ => {},
    }
}

/// A term is well formed against an arena size when every annotation
/// index it carries is in range.
pub open spec fn term_wf(t: Term, bound: int) -> bool
    decreases t,
{
    match t {
        Term::Var(_) => true,
        Term::Lam(_, ty, body) => ty < bound && term_wf(*body, bound),
        Term::App(f, a) => term_wf(*f, bound) && term_wf(*a, bound),
    }
}

/// A term well formed against a small arena is well formed against any
/// larger one.
pub proof fn lemma_term_wf_grow(t: Term, b1: int, b2: int)
    requires
        term_wf(t, b1),
        b1 <= b2,
    ensures
        term_wf(t, b2),
    decreases t,
{
    match t {
        Term::Var(_) => {},
        Term::Lam(_, _, body) => {
            lemma_term_wf_grow(*body, b1, b2);
        },
        Term::App(f, a) => {
            lemma_term_wf_grow(*f, b1, b2);
            lemma_term_wf_grow(*a, b1, b2);
        },
    }
}

/// A typing context is well formed against an arena size when every
/// bound index is in range.
pub open spec fn env_wf(env: Map<usize, usize>, bound: int) -> bool {
    forall|k: usize| #[trigger] env.contains_key(k) ==> env[k] < bound
}

/// The typing context read mathematically: every bound index replaced
/// by the shape it denotes.
pub open spec fn env_shapes(nodes: Seq<Type>, env: Map<usize, usize>) -> Map<usize, TypeShape> {
    env.map_values(|i: usize| shape_at(nodes, i as int))
}

/// Growing an arena never changes the shapes a well-formed context
/// denotes.
pub proof fn lemma_env_shapes_grow(n1: Seq<Type>, n2: Seq<Type>, env: Map<usize, usize>)
    requires
        n1.len() <= n2.len(),
        forall|j: int| 0 <= j < n1.len() ==> n1[j] == n2[j],
        env_wf(env, n1.len() as int),
    ensures
        env_shapes(n2, env) == env_shapes(n1, env),
{
    assert forall|k: usize| #[trigger]
        env.contains_key(k) implies shape_at(n2, env[k] as int) == shape_at(
        n1,
        env[k] as int,
    ) by {
        lemma_shape_at_grow(n1, n2, env[k] as int);
    }
    assert(env_shapes(n2, env) =~= env_shapes(n1, env));
}

/// The typing judgment of the simply typed lambda calculus, as a total
/// function on terms:
///
/// * a variable has the type its context entry denotes, and is an
///   `UnknownVariable` error otherwise;
/// * a lambda types its body under the annotated parameter and returns
///   the function shape;
/// * an application checks the function before the argument, demands a
///   function shape, and demands that the argument's shape equal the
///   domain; its type is the codomain.
pub open spec fn infer_spec(nodes: Seq<Type>, env: Map<usize, TypeShape>, t: Term) -> Result<
    TypeShape,
    ErrorShape,
>
    decreases t,
{
    match t {
        Term::Var(id) => if env.contains_key(id) {
            Ok(env[id])
        } else {
            Err(ErrorShape::UnknownVariable(id))
        },
        Term::Lam(id, ty, body) => {
            let dom = shape_at(nodes, ty as int);
            match infer_spec(nodes, env.insert(id, dom), *body) {
                Ok(cod) => Ok(TypeShape::Fun(Box::new(dom), Box::new(cod))),
                Err(e) => Err(e),
            }
        },
        Term::App(f, a) => match infer_spec(nodes, env, *f) {
            Ok(ft) => match infer_spec(nodes, env, *a) {
                Ok(at) => match ft {
                    TypeShape::Fun(dom, cod) => if at == *dom {
                        Ok(*cod)
                    } else {
                        Err(ErrorShape::ArgTypeMismatch { expected: *dom, actual: at })
                    },
                    _ => Err(ErrorShape::ApplyingNonFunction { fun_ty: ft, arg_ty: at }),
                },
                Err(e) => Err(e),
            },
            Err(e) => Err(e),
        },
    }
}

/// Growing an arena never changes the judgment on a well-formed term.
pub proof fn lemma_infer_spec_grow(
    n1: Seq<Type>,
    n2: Seq<Type>,
    env: Map<usize, TypeShape>,
    t: Term,
)
    requires
        n1.len() <= n2.len(),
        forall|j: int| 0 <= j < n1.len() ==> n1[j] == n2[j],
        term_wf(t, n1.len() as int),
    ensures
        infer_spec(n2, env, t) == infer_spec(n1, env, t),
    decreases t,
{
    match t {
        Term::Var(_) => {},
        Term::Lam(id, ty, body) => {
            lemma_shape_at_grow(n1, n2, ty as int);
            lemma_infer_spec_grow(n1, n2, env.insert(id, shape_at(n1, ty as int)), *body);
        },
        Term::App(f, a) => {
            lemma_infer_spec_grow(n1, n2, env, *f);
            lemma_infer_spec_grow(n1, n2, env, *a);
        },
    }
}

/// The mathematical reading of an error value against an arena.
pub open spec fn error_shape(nodes: Seq<Type>, e: Error) -> ErrorShape {
    match e {
        Error::UnknownVariable(id) => ErrorShape::UnknownVariable(id),
        Error::ApplyingNonFunction { fun_ty, arg_ty } => ErrorShape::ApplyingNonFunction {
            fun_ty: shape_at(nodes, fun_ty as int),
            arg_ty: shape_at(nodes, arg_ty as int),
        },
        Error::ArgTypeMismatch { expected, actual } => ErrorShape::ArgTypeMismatch {
            expected: shape_at(nodes, expected as int),
            actual: shape_at(nodes, actual as int),
        },
    }
}

/// Every index an error carries is in range.
pub open spec fn error_wf(e: Error, bound: int) -> bool {
    match e {
        Error::UnknownVariable(_) => true,
        Error::ApplyingNonFunction { fun_ty, arg_ty } => fun_ty < bound && arg_ty < bound,
        Error::ArgTypeMismatch { expected, actual } => expected < bound && actual < bound,
    }
}

/// Decide structural equality of the types denoted by two indices of a
/// well-formed arena.
pub fn ty_eq(arena: &Arena, i: usize, j: usize) -> (r: bool)
    requires
        arena.wf(),
        i < arena.nodes_seq().len(),
        j < arena.nodes_seq().len(),
    ensures
        r == (shape_at(arena.nodes_seq(), i as int) == shape_at(arena.nodes_seq(), j as int)),
    decreases i,
{
    let ni = arena.node(i);
    let nj = arena.node(j);
    match (ni, nj) {
        (Type::Int, Type::Int) => true,
        (Type::Bool, Type::Bool) => true,
        (Type::Fun(a1, b1), Type::Fun(a2, b2)) => {
            proof {
                assert(node_wf(arena.nodes_seq()[i as int], i as int));
                assert(node_wf(arena.nodes_seq()[j as int], j as int));
            }
            ty_eq(arena, a1, a2) && ty_eq(arena, b1, b2)
        },
        _ => false,
    }
}

/// Check `term` against `ctx`, reading and allocating types in
/// `arena`.  The context is left untouched: the checker works on a
/// private copy.  The result is exactly what the judgment
/// [`infer_spec`] assigns to the term.
pub fn infer(arena: &mut Arena, ctx: &Context, term: &Term) -> (r: Result<usize, Error>)
    requires
        old(arena).wf(),
        term_wf(*term, old(arena).nodes_seq().len() as int),
        env_wf(ctx@, old(arena).nodes_seq().len() as int),
    ensures
        final(arena).wf(),
        old(arena).nodes_seq().len() <= final(arena).nodes_seq().len(),
        forall|j: int|
            0 <= j < old(arena).nodes_seq().len() ==> final(arena).nodes_seq()[j] == old(
                arena,
            ).nodes_seq()[j],
        match r {
            Ok(i) => i < final(arena).nodes_seq().len() && infer_spec(
                old(arena).nodes_seq(),
                env_shapes(old(arena).nodes_seq(), ctx@),
                *term,
            ) == Ok::<TypeShape, ErrorShape>(shape_at(final(arena).nodes_seq(), i as int)),
            Err(e) => error_wf(e, final(arena).nodes_seq().len() as int) && infer_spec(
                old(arena).nodes_seq(),
                env_shapes(old(arena).nodes_seq(), ctx@),
                *term,
            ) == Err::<TypeShape, ErrorShape>(error_shape(final(arena).nodes_seq(), e)),
        },
{
    let mut c = ctx.dup();
    infer_mut(arena, &mut c, term)
}

/// Check `term` against `ctx`, threading one mutable context through
/// the recursion.  Scoped bindings made while checking are released on
/// every exit path, so the context leaves with the binding table it
/// came with (only released empty slots may remain).  The result is
/// exactly what the judgment [`infer_spec`] assigns to the term.
pub fn infer_mut(arena: &mut Arena, ctx: &mut Context, term: &Term) -> (r: Result<usize, Error>)
    requires
        old(arena).wf(),
        term_wf(*term, old(arena).nodes_seq().len() as int),
        env_wf(old(ctx)@, old(arena).nodes_seq().len() as int),
    ensures
        final(arena).wf(),
        old(arena).nodes_seq().len() <= final(arena).nodes_seq().len(),
        forall|j: int|
            0 <= j < old(arena).nodes_seq().len() ==> final(arena).nodes_seq()[j] == old(
                arena,
            ).nodes_seq()[j],
        extends_with_nones(slots_view(old(ctx).slots_seq()), slots_view(final(ctx).slots_seq())),
        final(ctx)@ == old(ctx)@,
        match r {
            Ok(i) => i < final(arena).nodes_seq().len() && infer_spec(
                old(arena).nodes_seq(),
                env_shapes(old(arena).nodes_seq(), old(ctx)@),
                *term,
            ) == Ok::<TypeShape, ErrorShape>(shape_at(final(arena).nodes_seq(), i as int)),
            Err(e) => error_wf(e, final(arena).nodes_seq().len() as int) && infer_spec(
                old(arena).nodes_seq(),
                env_shapes(old(arena).nodes_seq(), old(ctx)@),
                *term,
            ) == Err::<TypeShape, ErrorShape>(error_shape(final(arena).nodes_seq(), e)),
        },
    decreases *term,
{
    match term {
        Term::Var(id) => {
            match ctx.get(id) {
                Some(ty) => {
                    proof {
                        assert(env_shapes(arena.nodes_seq(), ctx@)[*id] == shape_at(
                            arena.nodes_seq(),
                            ctx@[*id] as int,
                        ));
                    }
                    Ok(*ty)
                },
                None => {
                    proof {
                        assert(!env_shapes(arena.nodes_seq(), ctx@).contains_key(*id));
                    }
                    Err(Error::UnknownVariable(*id))
                },
            }
        },
        Term::Lam(id, ty, body) => {
            let ghost n0 = arena.nodes_seq();
            let ghost env0 = ctx@;
            let ghost s0 = slots_view(ctx.slots_seq());
            proof {
                ctx.lemma_view_is_slots_map();
            }
            let g = ctx.with(*id, *ty);
            let ghost s1 = slots_view(ctx.slots_seq());
            proof {
                assert(env_wf(ctx@, n0.len() as int));
                assert(env_shapes(n0, env0.insert(*id, *ty)) =~= env_shapes(n0, env0).insert(
                    *id,
                    shape_at(n0, *ty as int),
                ));
            }
            let res = infer_mut(arena, ctx, &**body);
            let ghost s2 = slots_view(ctx.slots_seq());
            let ghost n2 = arena.nodes_seq();
            proof {
                assert(s2.len() == ctx.slots_seq().len());
                assert((g.index as int) < s2.len());
            }
            g.release(ctx);
            proof {
                lemma_scoped_restore(s0, s2, *id, *ty);
                ctx.lemma_view_is_slots_map();
            }
            match res {
                Ok(cod) => {
                    let f = arena.allocate(Type::Fun(*ty, cod));
                    proof {
                        let n3 = arena.nodes_seq();
                        lemma_shape_at_grow(n0, n3, *ty as int);
                        lemma_shape_at_grow(n2, n3, cod as int);
                        assert(shape_at(n3, f as int) == TypeShape::Fun(
                            Box::new(shape_at(n0, *ty as int)),
                            Box::new(shape_at(n2, cod as int)),
                        ));
                    }
                    Ok(f)
                },
                Err(e) => Err(e),
            }
        },
        Term::App(f, a) => {
            let ghost n0 = arena.nodes_seq();
            let ghost env0 = ctx@;
            let rf = infer_mut(arena, ctx, &**f);
            match rf {
                Err(e) => Err(e),
                Ok(fi) => {
                    let ghost n1 = arena.nodes_seq();
                    proof {
                        lemma_term_wf_grow(**a, n0.len() as int, n1.len() as int);
                        assert(env_wf(ctx@, n1.len() as int));
                        lemma_env_shapes_grow(n0, n1, env0);
                        lemma_infer_spec_grow(n0, n1, env_shapes(n0, env0), **a);
                    }
                    let ra = infer_mut(arena, ctx, &**a);
                    let ghost n2 = arena.nodes_seq();
                    match ra {
                        Err(e) => Err(e),
                        Ok(ai) => {
                            proof {
                                lemma_shape_at_grow(n1, n2, fi as int);
                            }
                            let fnode = arena.node(fi);
                            match fnode {
                                Type::Fun(dom, cod) => {
                                    proof {
                                        assert(node_wf(n2[fi as int], fi as int));
                                    }
                                    if ty_eq(arena, ai, dom) {
                                        Ok(cod)
                                    } else {
                                        Err(Error::ArgTypeMismatch { expected: dom, actual: ai })
                                    }
                                },
                                _ => Err(Error::ApplyingNonFunction { fun_ty: fi, arg_ty: ai }),
                            }
                        },
                    }
                },
            }
        },
    }
}

} // verus!
