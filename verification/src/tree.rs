use vstd::prelude::*;

verus! {

/// A binary tree with values at its tips.
#[derive(Debug, PartialEq, Eq)]
pub enum Tree<A> {
    Tip(A),
    Node(Box<(Tree<A>, Tree<A>)>),
}

/// The family of trees, `A ↦ Tree<A>`.
#[derive(Clone, Copy)]
pub struct TreeFamily;

impl<A> Tree<A> {
    /// `pred` holds of every tip.
    pub open spec fn all_tips(self, pred: spec_fn(A) -> bool) -> bool
        decreases self,
    {
        match self {
            Tree::Tip(a) => pred(a),
            Tree::Node(children) => children.0.all_tips(pred) && children.1.all_tips(pred),
        }
    }

    /// The tips, from left to right.
    pub open spec fn tips(self) -> Seq<A>
        decreases self,
    {
        match self {
            Tree::Tip(a) => seq![a],
            Tree::Node(children) => children.0.tips() + children.1.tips(),
        }
    }

    /// Both trees have the same nodes, whatever their tips hold.
    pub open spec fn same_shape<B>(self, other: Tree<B>) -> bool
        decreases self,
    {
        match (self, other) {
            (Tree::Tip(_), Tree::Tip(_)) => true,
            (Tree::Node(l), Tree::Node(r)) => l.0.same_shape(r.0) && l.1.same_shape(r.1),
            _ => false,
        }
    }
}

/// `out` is `t` with each tip `a` replaced by a tip `b` such that `rel(a, b)`.
pub open spec fn tree_mapped<A, B>(t: Tree<A>, rel: spec_fn(A, B) -> bool, out: Tree<B>) -> bool
    decreases t,
{
    match (t, out) {
        (Tree::Tip(a), Tree::Tip(b)) => rel(a, b),
        (Tree::Node(l), Tree::Node(r)) => tree_mapped(l.0, rel, r.0) && tree_mapped(l.1, rel, r.1),
        _ => false,
    }
}

/// `out` is `t` with each tip `a` replaced by a whole tree `s` such that `rel(a, s)`.
pub open spec fn tree_bound<A, B>(t: Tree<A>, rel: spec_fn(A, Tree<B>) -> bool, out: Tree<B>) -> bool
    decreases t,
{
    match t {
        Tree::Tip(a) => rel(a, out),
        Tree::Node(l) => match out {
            Tree::Node(r) => tree_bound(l.0, rel, r.0) && tree_bound(l.1, rel, r.1),
            Tree::Tip(_) => false,
        },
    }
}

/// The subtrees of `out` that stand where `t` has its tips, from left to right: when
/// `out` is `t` bound, what each tip was replaced with.
pub open spec fn tree_pieces<A, B>(t: Tree<A>, out: Tree<B>) -> Seq<Tree<B>>
    decreases t,
{
    match t {
        Tree::Tip(_) => seq![out],
        Tree::Node(c) => match out {
            Tree::Node(o) => tree_pieces(c.0, o.0) + tree_pieces(c.1, o.1),
            Tree::Tip(_) => Seq::empty(),
        },
    }
}

/// `pred` holds of every pair of tips that combining `a` with `b` brings together.
///
/// Two nodes are combined side by side; a tip facing a node meets the node's left
/// branch, and a node facing a tip brings its right branch to it.
pub open spec fn tree_pairs<A, B>(a: Tree<A>, b: Tree<B>, pred: spec_fn((A, B)) -> bool) -> bool
    decreases a, b,
{
    match (a, b) {
        (Tree::Tip(x), Tree::Tip(y)) => pred((x, y)),
        (Tree::Node(l), Tree::Node(r)) => tree_pairs(l.0, r.0, pred) && tree_pairs(l.1, r.1, pred),
        (Tree::Tip(_), Tree::Node(r)) => tree_pairs(a, r.0, pred),
        (Tree::Node(l), Tree::Tip(_)) => tree_pairs(l.1, b, pred),
    }
}

/// How many pairs of tips combining `a` with `b` brings together.
pub open spec fn tree_pair_count<A, B>(a: Tree<A>, b: Tree<B>) -> nat
    decreases a, b,
{
    match (a, b) {
        (Tree::Tip(_), Tree::Tip(_)) => 1,
        (Tree::Node(l), Tree::Node(r)) => tree_pair_count(l.0, r.0) + tree_pair_count(l.1, r.1),
        (Tree::Tip(_), Tree::Node(r)) => tree_pair_count(a, r.0),
        (Tree::Node(l), Tree::Tip(_)) => tree_pair_count(l.1, b),
    }
}

/// The pairs of tips that combining `a` with `b` brings together, as a tree of the
/// shape that the combination has.
pub open spec fn tree_zip<A, B>(a: Tree<A>, b: Tree<B>) -> Tree<(A, B)>
    decreases a, b,
{
    match (a, b) {
        (Tree::Tip(x), Tree::Tip(y)) => Tree::Tip((x, y)),
        (Tree::Node(l), Tree::Node(r)) => Tree::Node(
            Box::new((tree_zip(l.0, r.0), tree_zip(l.1, r.1))),
        ),
        (Tree::Tip(_), Tree::Node(r)) => tree_zip(a, r.0),
        (Tree::Node(l), Tree::Tip(_)) => tree_zip(l.1, b),
    }
}

/// `out` is what combining `a` with `b` gives when each pair `p` of tips that meet
/// becomes a tip `c` such that `rel(p, c)`.
pub open spec fn tree_lifted<A, B, C>(
    a: Tree<A>,
    b: Tree<B>,
    rel: spec_fn((A, B), C) -> bool,
    out: Tree<C>,
) -> bool
    decreases a, b,
{
    match (a, b) {
        (Tree::Tip(x), Tree::Tip(y)) => out matches Tree::Tip(z) && rel((x, y), z),
        (Tree::Node(l), Tree::Node(r)) => match out {
            Tree::Node(o) => tree_lifted(l.0, r.0, rel, o.0) && tree_lifted(l.1, r.1, rel, o.1),
            Tree::Tip(_) => false,
        },
        (Tree::Tip(_), Tree::Node(r)) => tree_lifted(a, r.0, rel, out),
        (Tree::Node(l), Tree::Tip(_)) => tree_lifted(l.1, b, rel, out),
    }
}

/// `t` with each tip `a` replaced by `f(a)`.
pub open spec fn tree_map<A, B>(t: Tree<A>, f: spec_fn(A) -> B) -> Tree<B>
    decreases t,
{
    match t {
        Tree::Tip(a) => Tree::Tip(f(a)),
        Tree::Node(l) => Tree::Node(Box::new((tree_map(l.0, f), tree_map(l.1, f)))),
    }
}

/// `t` with each tip `a` replaced by the tree `f(a)`.
pub open spec fn tree_bind<A, B>(t: Tree<A>, f: spec_fn(A) -> Tree<B>) -> Tree<B>
    decreases t,
{
    match t {
        Tree::Tip(a) => f(a),
        Tree::Node(l) => Tree::Node(Box::new((tree_bind(l.0, f), tree_bind(l.1, f)))),
    }
}

/// Combining `a` with `b`, each pair of tips `p` that meet becoming `f(p)`.
pub open spec fn tree_lift<A, B, C>(a: Tree<A>, b: Tree<B>, f: spec_fn((A, B)) -> C) -> Tree<C>
    decreases a, b,
{
    match (a, b) {
        (Tree::Tip(x), Tree::Tip(y)) => Tree::Tip(f((x, y))),
        (Tree::Node(l), Tree::Node(r)) => Tree::Node(
            Box::new((tree_lift(l.0, r.0, f), tree_lift(l.1, r.1, f))),
        ),
        (Tree::Tip(_), Tree::Node(r)) => tree_lift(a, r.0, f),
        (Tree::Node(l), Tree::Tip(_)) => tree_lift(l.1, b, f),
    }
}


/// Combining two trees is mapping the tree of the pairs of tips that meet.
pub proof fn lemma_tree_lifted_zip<A, B, C>(
    a: Tree<A>,
    b: Tree<B>,
    rel: spec_fn((A, B), C) -> bool,
    out: Tree<C>,
)
    ensures
        tree_lifted(a, b, rel, out) <==> tree_mapped(tree_zip(a, b), rel, out),
    decreases a, b,
{
    match (a, b) {
        (Tree::Tip(_), Tree::Tip(_)) => {},
        (Tree::Node(l), Tree::Node(r)) => {
            if let Tree::Node(o) = out {
                lemma_tree_lifted_zip(l.0, r.0, rel, o.0);
                lemma_tree_lifted_zip(l.1, r.1, rel, o.1);
            }
        },
        (Tree::Tip(_), Tree::Node(r)) => lemma_tree_lifted_zip(a, r.0, rel, out),
        (Tree::Node(l), Tree::Tip(_)) => lemma_tree_lifted_zip(l.1, b, rel, out),
    }
}

/// Combining two trees gives one tip for each pair of tips that meet.
pub proof fn lemma_lifted_count<A, B, C>(
    a: Tree<A>,
    b: Tree<B>,
    rel: spec_fn((A, B), C) -> bool,
    out: Tree<C>,
)
    requires
        tree_lifted(a, b, rel, out),
    ensures
        out.tips().len() == tree_pair_count(a, b),
    decreases a, b,
{
    match (a, b) {
        (Tree::Tip(_), Tree::Tip(_)) => {},
        (Tree::Node(l), Tree::Node(r)) => {
            let o = out->Node_0;
            lemma_lifted_count(l.0, r.0, rel, o.0);
            lemma_lifted_count(l.1, r.1, rel, o.1);
        },
        (Tree::Tip(_), Tree::Node(r)) => lemma_lifted_count(a, r.0, rel, out),
        (Tree::Node(l), Tree::Tip(_)) => lemma_lifted_count(l.1, b, rel, out),
    }
}

/// Mapping with the identity relation gives the tree back.
pub proof fn lemma_tree_map_identity<A>(t: Tree<A>, out: Tree<A>)
    requires
        tree_mapped(t, |a: A, b: A| b == a, out),
    ensures
        out == t,
    decreases t,
{
    if let (Tree::Node(l), Tree::Node(r)) = (t, out) {
        lemma_tree_map_identity(l.0, r.0);
        lemma_tree_map_identity(l.1, r.1);
    }
}

/// Mapping twice is mapping once with the composed relation.
pub proof fn lemma_tree_map_composition<A, B, C>(
    t: Tree<A>,
    first: spec_fn(A, B) -> bool,
    second: spec_fn(B, C) -> bool,
    mid: Tree<B>,
    out: Tree<C>,
)
    requires
        tree_mapped(t, first, mid),
        tree_mapped(mid, second, out),
    ensures
        tree_mapped(t, |a: A, c: C| exists|b: B| #[trigger] first(a, b) && second(b, c), out),
    decreases t,
{
    match (t, mid, out) {
        (Tree::Tip(a), Tree::Tip(b), Tree::Tip(c)) => {
            assert(first(a, b) && second(b, c));
        },
        (Tree::Node(l), Tree::Node(m), Tree::Node(r)) => {
            lemma_tree_map_composition(l.0, first, second, m.0, r.0);
            lemma_tree_map_composition(l.1, first, second, m.1, r.1);
        },
        _ => {},
    }
}

/// Mapping keeps the shape of the tree.
pub proof fn lemma_tree_map_shape<A, B>(t: Tree<A>, rel: spec_fn(A, B) -> bool, out: Tree<B>)
    requires
        tree_mapped(t, rel, out),
    ensures
        t.same_shape(out),
    decreases t,
{
    if let (Tree::Node(l), Tree::Node(r)) = (t, out) {
        lemma_tree_map_shape(l.0, rel, r.0);
        lemma_tree_map_shape(l.1, rel, r.1);
    }
}

/// Mapping is binding with a function that puts its result in a tip.
pub proof fn lemma_tree_map_is_bind<A, B>(t: Tree<A>, rel: spec_fn(A, B) -> bool, out: Tree<B>)
    ensures
        tree_mapped(t, rel, out) <==> tree_bound(
            t,
            |a: A, s: Tree<B>| exists|b: B| #[trigger] rel(a, b) && s == Tree::Tip(b),
            out,
        ),
    decreases t,
{
    let tip_rel = |a: A, s: Tree<B>| exists|b: B| #[trigger] rel(a, b) && s == Tree::Tip(b);
    match (t, out) {
        (Tree::Tip(a), Tree::Tip(b)) => {
            if rel(a, b) {
                assert(tip_rel(a, out));
            }
        },
        (Tree::Node(l), Tree::Node(r)) => {
            lemma_tree_map_is_bind(l.0, rel, r.0);
            lemma_tree_map_is_bind(l.1, rel, r.1);
        },
        _ => {},
    }
}

/// Binding a tip feeds its value to the function: a tip is a left identity.
pub proof fn lemma_tree_bind_left_identity<A, B>(
    a: A,
    rel: spec_fn(A, Tree<B>) -> bool,
    out: Tree<B>,
)
    ensures
        tree_bound(Tree::Tip(a), rel, out) == rel(a, out),
{
}

/// Binding with a function that puts each value in a tip gives the tree back.
pub proof fn lemma_tree_bind_right_identity<A>(t: Tree<A>, out: Tree<A>)
    requires
        tree_bound(t, |a: A, s: Tree<A>| s == Tree::Tip(a), out),
    ensures
        out == t,
    decreases t,
{
    if let (Tree::Node(l), Tree::Node(r)) = (t, out) {
        lemma_tree_bind_right_identity(l.0, r.0);
        lemma_tree_bind_right_identity(l.1, r.1);
    }
}

/// Binding twice is binding once with a function that binds its own result.
pub proof fn lemma_tree_bind_associative<A, B, C>(
    t: Tree<A>,
    first: spec_fn(A, Tree<B>) -> bool,
    second: spec_fn(B, Tree<C>) -> bool,
    mid: Tree<B>,
    out: Tree<C>,
)
    requires
        tree_bound(t, first, mid),
        tree_bound(mid, second, out),
    ensures
        tree_bound(
            t,
            |a: A, s: Tree<C>| exists|m: Tree<B>| #[trigger] first(a, m) && tree_bound(m, second, s),
            out,
        ),
    decreases t,
{
    match t {
        Tree::Tip(a) => {
            assert(first(a, mid) && tree_bound(mid, second, out));
        },
        Tree::Node(l) => {
            let m = mid->Node_0;
            let r = out->Node_0;
            lemma_tree_bind_associative(l.0, first, second, m.0, r.0);
            lemma_tree_bind_associative(l.1, first, second, m.1, r.1);
        },
    }
}

/// Every tree has at least one tip.
pub proof fn lemma_tips_nonempty<A>(t: Tree<A>)
    ensures
        t.tips().len() >= 1,
    decreases t,
{
    if let Tree::Node(c) = t {
        lemma_tips_nonempty(c.0);
        lemma_tips_nonempty(c.1);
    }
}

/// A tip combined with a tree meets the tree's leftmost tip.
pub proof fn lemma_tree_lift_tip_left<A, B, C>(
    x: A,
    b: Tree<B>,
    rel: spec_fn((A, B), C) -> bool,
    out: Tree<C>,
)
    ensures
        tree_lifted(Tree::Tip(x), b, rel, out) <==> (out matches Tree::Tip(c) && rel(
            (x, b.tips()[0]),
            c,
        )),
    decreases b,
{
    if let Tree::Node(r) = b {
        lemma_tree_lift_tip_left(x, r.0, rel, out);
        lemma_tips_nonempty(r.0);
        assert(b.tips()[0] == r.0.tips()[0]);
    }
}

/// A tree combined with a tip brings its rightmost tip to it.
pub proof fn lemma_tree_lift_tip_right<A, B, C>(
    a: Tree<A>,
    y: B,
    rel: spec_fn((A, B), C) -> bool,
    out: Tree<C>,
)
    ensures
        tree_lifted(a, Tree::Tip(y), rel, out) <==> (out matches Tree::Tip(c) && rel(
            (a.tips().last(), y),
            c,
        )),
    decreases a,
{
    if let Tree::Node(l) = a {
        lemma_tree_lift_tip_right(l.1, y, rel, out);
        lemma_tips_nonempty(l.1);
        assert(a.tips().last() == l.1.tips().last());
    }
}

/// Two trees of the same shape combine tip by tip, into a tree of that shape.
pub proof fn lemma_tree_lift_same_shape<A, B, C>(
    a: Tree<A>,
    b: Tree<B>,
    rel: spec_fn((A, B), C) -> bool,
    out: Tree<C>,
)
    requires
        a.same_shape(b),
    ensures
        tree_lifted(a, b, rel, out) <==> {
            &&& a.same_shape(out)
            &&& out.tips().len() == a.tips().len() == b.tips().len()
            &&& forall|i: int|
                0 <= i < a.tips().len() ==> #[trigger] rel((a.tips()[i], b.tips()[i]), out.tips()[i])
        },
    decreases a,
{
    match (a, b, out) {
        (Tree::Node(l), Tree::Node(r), Tree::Node(o)) => {
            lemma_tree_lift_same_shape(l.0, r.0, rel, o.0);
            lemma_tree_lift_same_shape(l.1, r.1, rel, o.1);
            let (la, lb, lo) = (l.0.tips(), r.0.tips(), o.0.tips());
            let (ra, rb, ro) = (l.1.tips(), r.1.tips(), o.1.tips());
            if tree_lifted(a, b, rel, out) {
                assert forall|i: int| 0 <= i < a.tips().len() implies #[trigger] rel(
                    (a.tips()[i], b.tips()[i]),
                    out.tips()[i],
                ) by {
                    if i < la.len() {
                        assert(rel((la[i], lb[i]), lo[i]));
                    } else {
                        let j = i - la.len();
                        assert(rel((ra[j], rb[j]), ro[j]));
                    }
                }
            }
            if a.same_shape(out) && out.tips().len() == a.tips().len() == b.tips().len() && (forall|
                i: int,
            |
                0 <= i < a.tips().len() ==> #[trigger] rel((a.tips()[i], b.tips()[i]), out.tips()[i])) {
                lemma_same_shape_tips_len(l.0, o.0);
                lemma_same_shape_tips_len(l.0, r.0);
                assert forall|i: int| 0 <= i < la.len() implies #[trigger] rel(
                    (la[i], lb[i]),
                    lo[i],
                ) by {
                    assert(rel((a.tips()[i], b.tips()[i]), out.tips()[i]));
                }
                assert forall|j: int| 0 <= j < ra.len() implies #[trigger] rel(
                    (ra[j], rb[j]),
                    ro[j],
                ) by {
                    let i = j + la.len();
                    assert(rel((a.tips()[i], b.tips()[i]), out.tips()[i]));
                }
            }
        },
        (Tree::Node(l), Tree::Node(r), Tree::Tip(_)) => {
            lemma_tips_nonempty(l.0);
            lemma_tips_nonempty(l.1);
        },
        (Tree::Tip(x), Tree::Tip(y), Tree::Tip(z)) => {
            assert(a.tips()[0] == x && b.tips()[0] == y && out.tips()[0] == z);
            if rel((a.tips()[0], b.tips()[0]), out.tips()[0]) {
            }
        },
        _ => {},
    }
}

/// Trees of the same shape have as many tips.
pub proof fn lemma_same_shape_tips_len<A, B>(a: Tree<A>, b: Tree<B>)
    requires
        a.same_shape(b),
    ensures
        a.tips().len() == b.tips().len(),
    decreases a,
{
    if let (Tree::Node(l), Tree::Node(r)) = (a, b) {
        lemma_same_shape_tips_len(l.0, r.0);
        lemma_same_shape_tips_len(l.1, r.1);
    }
}

/// With a function for relation, mapping gives exactly `tree_map`.
pub proof fn lemma_tree_mapped_fn<A, B>(t: Tree<A>, f: spec_fn(A) -> B, out: Tree<B>)
    ensures
        tree_mapped(t, |a: A, b: B| b == f(a), out) <==> out == tree_map(t, f),
    decreases t,
{
    if let (Tree::Node(l), Tree::Node(r)) = (t, out) {
        lemma_tree_mapped_fn(l.0, f, r.0);
        lemma_tree_mapped_fn(l.1, f, r.1);
    }
}

/// With a function for relation, binding gives exactly `tree_bind`.
pub proof fn lemma_tree_bound_fn<A, B>(t: Tree<A>, f: spec_fn(A) -> Tree<B>, out: Tree<B>)
    ensures
        tree_bound(t, |a: A, s: Tree<B>| s == f(a), out) <==> out == tree_bind(t, f),
    decreases t,
{
    if let (Tree::Node(l), Tree::Node(r)) = (t, out) {
        lemma_tree_bound_fn(l.0, f, r.0);
        lemma_tree_bound_fn(l.1, f, r.1);
    }
}

/// With a function for relation, combining gives exactly `tree_lift`.
pub proof fn lemma_tree_lifted_fn<A, B, C>(
    a: Tree<A>,
    b: Tree<B>,
    f: spec_fn((A, B)) -> C,
    out: Tree<C>,
)
    ensures
        tree_lifted(a, b, |p: (A, B), c: C| c == f(p), out) <==> out == tree_lift(a, b, f),
    decreases a, b,
{
    match (a, b) {
        (Tree::Tip(_), Tree::Tip(_)) => {},
        (Tree::Node(l), Tree::Node(r)) => {
            if let Tree::Node(o) = out {
                lemma_tree_lifted_fn(l.0, r.0, f, o.0);
                lemma_tree_lifted_fn(l.1, r.1, f, o.1);
            }
        },
        (Tree::Tip(_), Tree::Node(r)) => lemma_tree_lifted_fn(a, r.0, f, out),
        (Tree::Node(l), Tree::Tip(_)) => lemma_tree_lifted_fn(l.1, b, f, out),
    }
}

/// Mapping with `f` and then with `g` is mapping with their composition.
pub proof fn lemma_tree_map_map<A, B, C>(t: Tree<A>, f: spec_fn(A) -> B, g: spec_fn(B) -> C)
    ensures
        tree_map(tree_map(t, f), g) == tree_map(t, |a: A| g(f(a))),
    decreases t,
{
    if let Tree::Node(l) = t {
        lemma_tree_map_map(l.0, f, g);
        lemma_tree_map_map(l.1, f, g);
    }
}

/// Binding with `f` and then with `g` is binding with the function that binds the
/// result of `f` with `g`.
pub proof fn lemma_tree_bind_bind<A, B, C>(
    t: Tree<A>,
    f: spec_fn(A) -> Tree<B>,
    g: spec_fn(B) -> Tree<C>,
)
    ensures
        tree_bind(tree_bind(t, f), g) == tree_bind(t, |a: A| tree_bind(f(a), g)),
    decreases t,
{
    if let Tree::Node(l) = t {
        lemma_tree_bind_bind(l.0, f, g);
        lemma_tree_bind_bind(l.1, f, g);
    }
}

/// Binding with a function that puts `h` of its argument in a tip is mapping with `h`.
pub proof fn lemma_tree_bind_tip<A, B>(t: Tree<A>, h: spec_fn(A) -> B)
    ensures
        tree_bind(t, |a: A| Tree::Tip(h(a))) == tree_map(t, h),
    decreases t,
{
    if let Tree::Node(l) = t {
        lemma_tree_bind_tip(l.0, h);
        lemma_tree_bind_tip(l.1, h);
    }
}

/// Mapping a combination with `h` is combining with `f` followed by `h`.
pub proof fn lemma_tree_map_lift<A, B, C, D>(
    a: Tree<A>,
    b: Tree<B>,
    f: spec_fn((A, B)) -> C,
    h: spec_fn(C) -> D,
)
    ensures
        tree_map(tree_lift(a, b, f), h) == tree_lift(a, b, |p: (A, B)| h(f(p))),
    decreases a, b,
{
    match (a, b) {
        (Tree::Tip(_), Tree::Tip(_)) => {},
        (Tree::Node(l), Tree::Node(r)) => {
            lemma_tree_map_lift(l.0, r.0, f, h);
            lemma_tree_map_lift(l.1, r.1, f, h);
        },
        (Tree::Tip(_), Tree::Node(r)) => lemma_tree_map_lift(a, r.0, f, h),
        (Tree::Node(l), Tree::Tip(_)) => lemma_tree_map_lift(l.1, b, f, h),
    }
}

/// Combining two mapped trees is combining the trees with a function that first maps
/// each side.
pub proof fn lemma_tree_lift_map<A, B, X, Y, C>(
    a: Tree<A>,
    b: Tree<B>,
    g: spec_fn(A) -> X,
    k: spec_fn(B) -> Y,
    f: spec_fn((X, Y)) -> C,
)
    ensures
        tree_lift(tree_map(a, g), tree_map(b, k), f) == tree_lift(
            a,
            b,
            |p: (A, B)| f((g(p.0), k(p.1))),
        ),
    decreases a, b,
{
    match (a, b) {
        (Tree::Tip(_), Tree::Tip(_)) => {},
        (Tree::Node(l), Tree::Node(r)) => {
            lemma_tree_lift_map(l.0, r.0, g, k, f);
            lemma_tree_lift_map(l.1, r.1, g, k, f);
        },
        (Tree::Tip(_), Tree::Node(r)) => lemma_tree_lift_map(a, r.0, g, k, f),
        (Tree::Node(l), Tree::Tip(_)) => lemma_tree_lift_map(l.1, b, g, k, f),
    }
}

/// Mapping with `f` gives, from left to right, `f` of each tip.
pub proof fn lemma_tree_map_tips<A, B>(t: Tree<A>, f: spec_fn(A) -> B)
    ensures
        tree_map(t, f).tips() == t.tips().map_values(f),
    decreases t,
{
    if let Tree::Node(c) = t {
        lemma_tree_map_tips(c.0, f);
        lemma_tree_map_tips(c.1, f);
        assert(t.tips().map_values(f) =~= c.0.tips().map_values(f) + c.1.tips().map_values(f));
    }
}

/// Combining with `f` gives, from left to right, `f` of each pair of tips that meet.
pub proof fn lemma_tree_lift_tips<A, B, C>(a: Tree<A>, b: Tree<B>, f: spec_fn((A, B)) -> C)
    ensures
        tree_lift(a, b, f).tips() == tree_zip(a, b).tips().map_values(f),
    decreases a, b,
{
    match (a, b) {
        (Tree::Tip(_), Tree::Tip(_)) => {
            assert(tree_zip(a, b).tips().map_values(f) =~= tree_lift(a, b, f).tips());
        },
        (Tree::Node(l), Tree::Node(r)) => {
            lemma_tree_lift_tips(l.0, r.0, f);
            lemma_tree_lift_tips(l.1, r.1, f);
            assert(tree_zip(a, b).tips().map_values(f) =~= tree_zip(l.0, r.0).tips().map_values(f)
                + tree_zip(l.1, r.1).tips().map_values(f));
        },
        (Tree::Tip(_), Tree::Node(r)) => lemma_tree_lift_tips(a, r.0, f),
        (Tree::Node(l), Tree::Tip(_)) => lemma_tree_lift_tips(l.1, b, f),
    }
}

/// Binding with `f` puts, from left to right, `f` of each tip in its place.
pub proof fn lemma_tree_bind_pieces<A, B>(t: Tree<A>, f: spec_fn(A) -> Tree<B>)
    ensures
        tree_pieces(t, tree_bind(t, f)) == t.tips().map_values(f),
    decreases t,
{
    match t {
        Tree::Tip(a) => {
            assert(t.tips().map_values(f) =~= seq![f(a)]);
        },
        Tree::Node(c) => {
            lemma_tree_bind_pieces(c.0, f);
            lemma_tree_bind_pieces(c.1, f);
            assert(t.tips().map_values(f) =~= c.0.tips().map_values(f) + c.1.tips().map_values(f));
        },
    }
}

} // verus!
