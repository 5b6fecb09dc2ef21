use vstd::prelude::*;

use super::validity::ValidityFamily;
use super::{Applicative, Family, Functor, Monad, Pure, SemiGroup, This, Traverse};
use crate::trait_aliases::{
    call_step, called_in_order, lemma_called_in_order_concat, lemma_called_in_order_one, CallMut,
    Callable, Generic, MaybeOwned, Passing,
};
use crate::validity::Validity;
use crate::OptionFamily;
use crate::tree::{
    lemma_lifted_count, lemma_tree_lifted_zip,
    tree_bound, tree_lifted, tree_map, tree_mapped, tree_pair_count, tree_pairs, tree_pieces, tree_zip, Tree, TreeFamily,
};

verus! {

/// `out` is a result that traversing `t` with the applicative family `F` may give, when
/// the function gives, for a tip `a`, some `fb` such that `grel(a, fb)`.
///
/// A tip's result is mapped into a tip; the two results of a node are combined, as
/// `F`'s `lift_a2` combines them, into a node.
pub open spec fn tree_traversed<A, B, F: Applicative<Tree<B>, Tree<B>> + Functor<B, Tree<B>> + Functor<(Tree<B>, Tree<B>), Tree<B>>>(
    t: Tree<A>,
    grel: spec_fn(A, This<F, B>) -> bool,
    out: This<F, Tree<B>>,
) -> bool
    decreases t,
{
    match t {
        Tree::Tip(a) => exists|fb: This<F, B>|
            #[trigger] grel(a, fb) && <F as Functor<B, Tree<B>>>::mapped(
                fb,
                |b: B, s: Tree<B>| s == Tree::Tip(b),
                out,
            ),
        Tree::Node(c) => exists|l: This<F, Tree<B>>, r: This<F, Tree<B>>|
            tree_traversed::<A, B, F>(c.0, grel, l) && tree_traversed::<A, B, F>(c.1, grel, r)
                && #[trigger] tree_joined::<B, F>(l, r, out),
    }
}

/// `out` is what traversing `t` with the applicative family `F` gives when the function
/// gave the results `fbs` at the tips of `t`, from left to right: each result is mapped
/// into a tip, and the results of a node's two branches are combined into a node.
pub open spec fn tree_assembled<A, B, F: Applicative<Tree<B>, Tree<B>> + Functor<B, Tree<B>> + Functor<(Tree<B>, Tree<B>), Tree<B>>>(
    t: Tree<A>,
    fbs: Seq<This<F, B>>,
    out: This<F, Tree<B>>,
) -> bool
    decreases t,
{
    match t {
        Tree::Tip(_) => fbs.len() == 1 && <F as Functor<B, Tree<B>>>::mapped(
            fbs[0],
            |b: B, s: Tree<B>| s == Tree::Tip(b),
            out,
        ),
        Tree::Node(c) => c.0.tips().len() <= fbs.len() && exists|l: This<F, Tree<B>>, r: This<F, Tree<B>>|
            tree_assembled::<A, B, F>(c.0, fbs.take(c.0.tips().len() as int), l)
                && tree_assembled::<A, B, F>(c.1, fbs.skip(c.0.tips().len() as int), r)
                && #[trigger] tree_joined::<B, F>(l, r, out),
    }
}

/// `out` may be what combining `l` and `r` into a node gives: the value that pairs up
/// their elements, with each pair of trees put under a node.
pub open spec fn tree_joined<B, F: Applicative<Tree<B>, Tree<B>> + Functor<(Tree<B>, Tree<B>), Tree<B>>>(
    l: This<F, Tree<B>>,
    r: This<F, Tree<B>>,
    out: This<F, Tree<B>>,
) -> bool {
    exists|z: This<F, (Tree<B>, Tree<B>)>|
        #[trigger] <F as Applicative<Tree<B>, Tree<B>>>::zipped(l, r, z) && <F as Functor<
            (Tree<B>, Tree<B>),
            Tree<B>,
        >>::mapped(z, |p: (Tree<B>, Tree<B>), s: Tree<B>| s == Tree::Node(Box::new(p)), out)
}

impl<A> Family<A> for TreeFamily {
    type This = Tree<A>;
}

impl TreeFamily {
    /// Maps `this` tip by tip, from left to right, calling `f` by unique reference: the
    /// `i`-th call is made on the `i`-th tip of `this` and gives the `i`-th tip of `out`.
    fn map_helper<A, B, F, FTag>(self, this: This<Self, A>, f: &mut F) -> (out: This<Self, B>) where
        CallMut<A>: Callable<F, FTag, Arg = A, Output = B>,
        requires
            <CallMut<A> as Callable<F, FTag>>::admits(Passing::Mut),
            this.all_tips(|a: A| <CallMut<A> as Callable<F, FTag>>::pre(*old(f), a)),
        ensures
            forall|x: A|
                #[trigger] <CallMut<A> as Callable<F, FTag>>::pre(*final(f), x)
                    == <CallMut<A> as Callable<F, FTag>>::pre(*old(f), x),
            forall|x: A, y: B|
                #[trigger] <CallMut<A> as Callable<F, FTag>>::post(*final(f), x, y)
                    == <CallMut<A> as Callable<F, FTag>>::post(*old(f), x, y),
            exists|states: Seq<F>|
                states[0] == *old(f) && states.last() == *final(f) && #[trigger] called_in_order(
                    states,
                    this.tips(),
                    out.tips(),
                    call_step::<CallMut<A>, F, FTag>(),
                ),
            tree_mapped(this, |a: A, b: B| <CallMut<A> as Callable<F, FTag>>::post(*old(f), a, b), out),
        decreases this,
    {
        let ghost f0 = *f;
        let ghost t0 = this;
        match this {
            Tree::Tip(value) => {
                let ghost v = value;
                let b = CallMut::<A>::call_mut(value, f);
                let out = Tree::Tip(b);
                proof {
                    let step = call_step::<CallMut<A>, F, FTag>();
                    lemma_called_in_order_one(f0, v, b, *f, step);
                    assert(t0.tips() =~= seq![v]);
                    assert(out.tips() =~= seq![b]);
                    let states = seq![f0, *f];
                    assert(states[0] == f0 && states.last() == *f);
                    assert(called_in_order(states, t0.tips(), out.tips(), step));
                }
                out
            },
            Tree::Node(inner) => {
                let (left, right) = *inner;
                let ghost (lt, rt) = (left, right);
                let left = self.map_helper(left, f);
                let ghost f1 = *f;
                proof {
                    assert((|a: A| <CallMut<A> as Callable<F, FTag>>::pre(f1, a)) =~= (|a: A|
                        <CallMut<A> as Callable<F, FTag>>::pre(f0, a)));
                }
                let right = self.map_helper(right, f);
                proof {
                    let step = call_step::<CallMut<A>, F, FTag>();
                    let s1 = choose|states: Seq<F>|
                        states[0] == f0 && states.last() == f1 && #[trigger] called_in_order(
                            states,
                            lt.tips(),
                            left.tips(),
                            step,
                        );
                    let s2 = choose|states: Seq<F>|
                        states[0] == f1 && states.last() == *f && #[trigger] called_in_order(
                            states,
                            rt.tips(),
                            right.tips(),
                            step,
                        );
                    lemma_called_in_order_concat(s1, lt.tips(), left.tips(), s2, rt.tips(), right.tips(), step);
                    assert((|a: A, b: B| <CallMut<A> as Callable<F, FTag>>::post(f1, a, b)) =~= (|a: A, b: B|
                        <CallMut<A> as Callable<F, FTag>>::post(f0, a, b)));
                    let out = Tree::Node(Box::new((left, right)));
                    assert(out.tips() == left.tips() + right.tips());
                    assert(t0.tips() == lt.tips() + rt.tips());
                    assert(called_in_order(s1 + s2.drop_first(), t0.tips(), out.tips(), step));
                }
                Tree::Node(Box::new((left, right)))
            },
        }
    }

    /// Combines `a` with `b`, calling `f` by unique reference on each pair that meets,
    /// from left to right: the `i`-th call is made on the `i`-th pair of `tree_zip(a, b)`
    /// and gives the `i`-th tip of `out`.
    fn lift_a2_helper<A, B, C, F, FTag>(self, a: This<Self, A>, b: This<Self, B>, f: &mut F) -> (out:
        This<Self, C>) where
        CallMut<(A, B)>: Callable<F, FTag, Arg = (A, B), Output = C>,
        requires
            <CallMut<(A, B)> as Callable<F, FTag>>::admits(Passing::Mut),
            tree_pairs(a, b, |p: (A, B)| <CallMut<(A, B)> as Callable<F, FTag>>::pre(*old(f), p)),
        ensures
            forall|x: (A, B)|
                #[trigger] <CallMut<(A, B)> as Callable<F, FTag>>::pre(*final(f), x)
                    == <CallMut<(A, B)> as Callable<F, FTag>>::pre(*old(f), x),
            forall|x: (A, B), y: C|
                #[trigger] <CallMut<(A, B)> as Callable<F, FTag>>::post(*final(f), x, y)
                    == <CallMut<(A, B)> as Callable<F, FTag>>::post(*old(f), x, y),
            exists|states: Seq<F>|
                states[0] == *old(f) && states.last() == *final(f) && #[trigger] called_in_order(
                    states,
                    tree_zip(a, b).tips(),
                    out.tips(),
                    call_step::<CallMut<(A, B)>, F, FTag>(),
                ),
            tree_lifted(
                a,
                b,
                |p: (A, B), c: C| <CallMut<(A, B)> as Callable<F, FTag>>::post(*old(f), p, c),
                out,
            ),
        decreases a, b,
    {
        let ghost f0 = *f;
        let ghost (a0, b0) = (a, b);
        let ghost step = call_step::<CallMut<(A, B)>, F, FTag>();
        match (a, b) {
            (Tree::Tip(x), Tree::Tip(y)) => {
                let ghost p = (x, y);
                let c = CallMut::<(A, B)>::call_mut((x, y), f);
                let out = Tree::Tip(c);
                proof {
                    lemma_called_in_order_one(f0, p, c, *f, step);
                    assert(tree_zip(a0, b0).tips() =~= seq![p]);
                    assert(out.tips() =~= seq![c]);
                    let states = seq![f0, *f];
                    assert(states[0] == f0 && states.last() == *f);
                    assert(called_in_order(states, tree_zip(a0, b0).tips(), out.tips(), step));
                }
                out
            },
            (Tree::Node(a), Tree::Node(b)) => {
                let (al, ar) = *a;
                let (bl, br) = *b;
                let ghost (gal, gar, gbl, gbr) = (al, ar, bl, br);
                let left = self.lift_a2_helper(al, bl, f);
                let ghost f1 = *f;
                proof {
                    assert((|p: (A, B)| <CallMut<(A, B)> as Callable<F, FTag>>::pre(f1, p)) =~= (|p: (A, B)|
                        <CallMut<(A, B)> as Callable<F, FTag>>::pre(f0, p)));
                }
                let right = self.lift_a2_helper(ar, br, f);
                proof {
                    let s1 = choose|states: Seq<F>|
                        states[0] == f0 && states.last() == f1 && #[trigger] called_in_order(
                            states,
                            tree_zip(gal, gbl).tips(),
                            left.tips(),
                            step,
                        );
                    let s2 = choose|states: Seq<F>|
                        states[0] == f1 && states.last() == *f && #[trigger] called_in_order(
                            states,
                            tree_zip(gar, gbr).tips(),
                            right.tips(),
                            step,
                        );
                    lemma_called_in_order_concat(
                        s1,
                        tree_zip(gal, gbl).tips(),
                        left.tips(),
                        s2,
                        tree_zip(gar, gbr).tips(),
                        right.tips(),
                        step,
                    );
                    assert((|p: (A, B), c: C| <CallMut<(A, B)> as Callable<F, FTag>>::post(f1, p, c)) =~= (|
                        p: (A, B),
                        c: C,
                    | <CallMut<(A, B)> as Callable<F, FTag>>::post(f0, p, c)));
                    let out = Tree::Node(Box::new((left, right)));
                    assert(out.tips() == left.tips() + right.tips());
                    assert(tree_zip(a0, b0).tips() == tree_zip(gal, gbl).tips() + tree_zip(gar, gbr).tips());
                    assert(called_in_order(s1 + s2.drop_first(), tree_zip(a0, b0).tips(), out.tips(), step));
                }
                Tree::Node(Box::new((left, right)))
            },
            (a @ Tree::Tip(_), Tree::Node(b)) => {
                let (l, _) = *b;
                let ghost gl = l;
                proof {
                    assert(tree_zip(a0, b0) == tree_zip(a0, gl));
                }
                self.lift_a2_helper(a, l, f)
            },
            (Tree::Node(a), b @ Tree::Tip(_)) => {
                let (_, r) = *a;
                let ghost gr = r;
                proof {
                    assert(tree_zip(a0, b0) == tree_zip(gr, b0));
                }
                self.lift_a2_helper(r, b, f)
            },
        }
    }

    /// Binds `a` tip by tip, from left to right, calling `f` by unique reference: the
    /// `i`-th call is made on the `i`-th tip of `a` and gives the tree that stands in its
    /// place in `out`.
    fn bind_helper<A, B, F, FTag>(self, a: This<Self, A>, f: &mut F) -> (out: This<Self, B>) where
        CallMut<A>: Callable<F, FTag, Arg = A, Output = Tree<B>>,
        requires
            <CallMut<A> as Callable<F, FTag>>::admits(Passing::Mut),
            a.all_tips(|x: A| <CallMut<A> as Callable<F, FTag>>::pre(*old(f), x)),
        ensures
            forall|x: A|
                #[trigger] <CallMut<A> as Callable<F, FTag>>::pre(*final(f), x)
                    == <CallMut<A> as Callable<F, FTag>>::pre(*old(f), x),
            forall|x: A, y: Tree<B>|
                #[trigger] <CallMut<A> as Callable<F, FTag>>::post(*final(f), x, y)
                    == <CallMut<A> as Callable<F, FTag>>::post(*old(f), x, y),
            exists|states: Seq<F>|
                states[0] == *old(f) && states.last() == *final(f) && #[trigger] called_in_order(
                    states,
                    a.tips(),
                    tree_pieces(a, out),
                    call_step::<CallMut<A>, F, FTag>(),
                ),
            tree_bound(a, |x: A, s: Tree<B>| <CallMut<A> as Callable<F, FTag>>::post(*old(f), x, s), out),
        decreases a,
    {
        let ghost f0 = *f;
        let ghost t0 = a;
        let ghost step = call_step::<CallMut<A>, F, FTag>();
        match a {
            Tree::Tip(value) => {
                let ghost v = value;
                let out = CallMut::<A>::call_mut(value, f);
                proof {
                    lemma_called_in_order_one(f0, v, out, *f, step);
                    assert(t0.tips() =~= seq![v]);
                    assert(tree_pieces(t0, out) =~= seq![out]);
                    let states = seq![f0, *f];
                    assert(states[0] == f0 && states.last() == *f);
                    assert(called_in_order(states, t0.tips(), tree_pieces(t0, out), step));
                }
                out
            },
            Tree::Node(a) => {
                let (l, r) = *a;
                let ghost (gl, gr) = (l, r);
                let l: This<Self, B> = self.bind_helper(l, f);
                let ghost f1 = *f;
                proof {
                    assert((|x: A| <CallMut<A> as Callable<F, FTag>>::pre(f1, x)) =~= (|x: A|
                        <CallMut<A> as Callable<F, FTag>>::pre(f0, x)));
                }
                let r: This<Self, B> = self.bind_helper(r, f);
                proof {
                    let s1 = choose|states: Seq<F>|
                        states[0] == f0 && states.last() == f1 && #[trigger] called_in_order(
                            states,
                            gl.tips(),
                            tree_pieces(gl, l),
                            step,
                        );
                    let s2 = choose|states: Seq<F>|
                        states[0] == f1 && states.last() == *f && #[trigger] called_in_order(
                            states,
                            gr.tips(),
                            tree_pieces(gr, r),
                            step,
                        );
                    lemma_called_in_order_concat(
                        s1,
                        gl.tips(),
                        tree_pieces(gl, l),
                        s2,
                        gr.tips(),
                        tree_pieces(gr, r),
                        step,
                    );
                    assert((|x: A, s: Tree<B>| <CallMut<A> as Callable<F, FTag>>::post(f1, x, s)) =~= (|
                        x: A,
                        s: Tree<B>,
                    | <CallMut<A> as Callable<F, FTag>>::post(f0, x, s)));
                    let out = Tree::Node(Box::new((l, r)));
                    assert(tree_pieces(t0, out) == tree_pieces(gl, l) + tree_pieces(gr, r));
                    assert(t0.tips() == gl.tips() + gr.tips());
                    assert(called_in_order(s1 + s2.drop_first(), t0.tips(), tree_pieces(t0, out), step));
                }
                Tree::Node(Box::new((l, r)))
            },
        }
    }

    /// Maps `fb` with `tip`, which puts its argument in a tip.
    fn map_with<B, F, T>(app: F, fb: This<F, B>, tip: T) -> (out: This<F, Tree<B>>) where
        F: Functor<B, Tree<B>>,
        T: Fn(B) -> Tree<B>,
        requires
            forall|b: B| call_requires(tip, (b,)),
            forall|b: B, s: Tree<B>| call_ensures(tip, (b,), s) ==> s == Tree::Tip(b),
        ensures
            <F as Functor<B, Tree<B>>>::mapped(fb, |b: B, s: Tree<B>| s == Tree::Tip(b), out),
    {
        proof {
            <F as Functor<B, Tree<B>>>::lemma_all_elems_everywhere(
                fb,
                |b: B| <<F as Functor<B, Tree<B>>>::FuncBounds as Callable<T, Generic<B>>>::pre(tip, b),
            );
        }
        let out = Functor::<B, Tree<B>>::map::<T, Generic<B>>(app, fb, tip);
        proof {
            <F as Functor<B, Tree<B>>>::lemma_mapped_weaken(
                fb,
                |b: B, s: Tree<B>| <<F as Functor<B, Tree<B>>>::FuncBounds as Callable<T, Generic<B>>>::post(tip, b, s),
                |b: B, s: Tree<B>| s == Tree::Tip(b),
                out,
            );
        }
        out
    }

    /// Combines `l` and `r` with `join`, which puts a pair of trees under a node.
    fn lift_with<B, F, T>(app: F, l: This<F, Tree<B>>, r: This<F, Tree<B>>, join: T) -> (out: This<
        F,
        Tree<B>,
    >) where
        F: Applicative<Tree<B>, Tree<B>> + Functor<(Tree<B>, Tree<B>), Tree<B>>,
        T: Fn((Tree<B>, Tree<B>)) -> Tree<B>,
        requires
            forall|p: (Tree<B>, Tree<B>)| call_requires(join, (p,)),
            forall|p: (Tree<B>, Tree<B>), s: Tree<B>| call_ensures(join, (p,), s) ==> s == Tree::Node(Box::new(p)),
        ensures
            tree_joined::<B, F>(l, r, out),
    {
        proof {
            <F as Applicative<Tree<B>, Tree<B>>>::lemma_all_pairs_everywhere(
                l,
                r,
                |p: (Tree<B>, Tree<B>)| <<F as Applicative<Tree<B>, Tree<B>>>::AppBounds as Callable<T, Generic<(Tree<B>, Tree<B>)>>>::pre(join, p),
            );
        }
        let out = app.lift_a2::<Tree<B>, T, Generic<(Tree<B>, Tree<B>)>>(l, r, join);
        proof {
            let post = |p: (Tree<B>, Tree<B>), s: Tree<B>|
                <<F as Applicative<Tree<B>, Tree<B>>>::AppBounds as Callable<T, Generic<(Tree<B>, Tree<B>)>>>::post(join, p, s);
            let z = choose|z: This<F, (Tree<B>, Tree<B>)>|
                #[trigger] <F as Applicative<Tree<B>, Tree<B>>>::zipped(l, r, z) && <F as Functor<
                    (Tree<B>, Tree<B>),
                    Tree<B>,
                >>::mapped(z, post, out);
            <F as Functor<(Tree<B>, Tree<B>), Tree<B>>>::lemma_mapped_weaken(
                z,
                post,
                |p: (Tree<B>, Tree<B>), s: Tree<B>| s == Tree::Node(Box::new(p)),
                out,
            );
        }
        out
    }

    /// Traverses `this` tip by tip, from left to right, calling `g` by unique reference:
    /// the `i`-th call is made on the `i`-th tip of `this`, and its result is the one
    /// that `out` gathers at that tip.
    fn traverse_helper<A, B, F, G, GTag>(self, app: F, this: This<Self, A>, g: &mut G) -> (out: This<
        F,
        This<Self, B>,
    >) where
        F: Applicative<Tree<B>, Tree<B>> + Functor<B, Tree<B>> + Functor<(Tree<B>, Tree<B>), Tree<B>>,
        CallMut<A>: Callable<G, GTag, Arg = A, Output = This<F, B>>,
        requires
            <CallMut<A> as Callable<G, GTag>>::admits(Passing::Mut),
            this.all_tips(|a: A| <CallMut<A> as Callable<G, GTag>>::pre(*old(g), a)),
        ensures
            forall|x: A|
                #[trigger] <CallMut<A> as Callable<G, GTag>>::pre(*final(g), x)
                    == <CallMut<A> as Callable<G, GTag>>::pre(*old(g), x),
            forall|x: A, y: This<F, B>|
                #[trigger] <CallMut<A> as Callable<G, GTag>>::post(*final(g), x, y)
                    == <CallMut<A> as Callable<G, GTag>>::post(*old(g), x, y),
            exists|states: Seq<G>, fbs: Seq<This<F, B>>|
                states[0] == *old(g) && states.last() == *final(g) && #[trigger] called_in_order(
                    states,
                    this.tips(),
                    fbs,
                    call_step::<CallMut<A>, G, GTag>(),
                ) && tree_assembled::<A, B, F>(this, fbs, out),
            tree_traversed::<A, B, F>(
                this,
                |a: A, fb: This<F, B>| <CallMut<A> as Callable<G, GTag>>::post(*old(g), a, fb),
                out,
            ),
        decreases this,
    {
        let ghost g0 = *g;
        let ghost t0 = this;
        let ghost step = call_step::<CallMut<A>, G, GTag>();
        let ghost grel = |a: A, fb: This<F, B>| <CallMut<A> as Callable<G, GTag>>::post(g0, a, fb);
        match this {
            Tree::Tip(a) => {
                let ghost v = a;
                let fb = CallMut::<A>::call_mut(a, g);
                let tip = |b: B| -> (s: Tree<B>)
                    ensures
                        s == Tree::Tip(b),
                    { Tree::Tip(b) };
                let ghost gfb = fb;
                let out = Self::map_with(app, fb, tip);
                proof {
                    assert(grel(v, gfb));
                    lemma_called_in_order_one(g0, v, gfb, *g, step);
                    assert(t0.tips() =~= seq![v]);
                    let states = seq![g0, *g];
                    let fbs = seq![gfb];
                    assert(states[0] == g0 && states.last() == *g);
                    assert(called_in_order(states, t0.tips(), fbs, step));
                    assert(tree_assembled::<A, B, F>(t0, fbs, out));
                }
                out
            },
            Tree::Node(node) => {
                let (left, right) = *node;
                let ghost (gl, gr) = (left, right);
                let l: This<F, This<Self, B>> = self.traverse_helper(app, left, g);
                let ghost g1 = *g;
                proof {
                    assert((|a: A| <CallMut<A> as Callable<G, GTag>>::pre(g1, a)) =~= (|a: A|
                        <CallMut<A> as Callable<G, GTag>>::pre(g0, a)));
                }
                let r: This<F, This<Self, B>> = self.traverse_helper(app, right, g);
                let join = |p: (Tree<B>, Tree<B>)| -> (s: Tree<B>)
                    ensures
                        s == Tree::Node(Box::new(p)),
                    { Tree::Node(Box::new(p)) };
                let out = Self::lift_with(app, l, r, join);
                proof {
                    let now = |a: A, fb: This<F, B>| <CallMut<A> as Callable<G, GTag>>::post(g1, a, fb);
                    assert(now =~= grel);
                    let (s1, fbs1) = choose|states: Seq<G>, fbs: Seq<This<F, B>>|
                        states[0] == g0 && states.last() == g1 && #[trigger] called_in_order(
                            states,
                            gl.tips(),
                            fbs,
                            step,
                        ) && tree_assembled::<A, B, F>(gl, fbs, l);
                    let (s2, fbs2) = choose|states: Seq<G>, fbs: Seq<This<F, B>>|
                        states[0] == g1 && states.last() == *g && #[trigger] called_in_order(
                            states,
                            gr.tips(),
                            fbs,
                            step,
                        ) && tree_assembled::<A, B, F>(gr, fbs, r);
                    lemma_called_in_order_concat(s1, gl.tips(), fbs1, s2, gr.tips(), fbs2, step);
                    let fbs = fbs1 + fbs2;
                    assert(t0.tips() == gl.tips() + gr.tips());
                    assert(fbs.take(gl.tips().len() as int) =~= fbs1);
                    assert(fbs.skip(gl.tips().len() as int) =~= fbs2);
                    assert(tree_assembled::<A, B, F>(t0, fbs, out));
                    assert(called_in_order(s1 + s2.drop_first(), t0.tips(), fbs, step));
                }
                out
            },
        }
    }
}

impl<A, B> Functor<A, B> for TreeFamily {
    type FuncBounds = CallMut<A>;

    open spec fn func_passing() -> Passing {
        Passing::Mut
    }

    open spec fn all_elems(this: Tree<A>, pred: spec_fn(A) -> bool) -> bool {
        this.all_tips(pred)
    }

    open spec fn mapped(this: Tree<A>, rel: spec_fn(A, B) -> bool, out: Tree<B>) -> bool {
        tree_mapped(this, rel, out)
    }

    proof fn lemma_all_elems_everywhere(this: Tree<A>, pred: spec_fn(A) -> bool)
        decreases this,
    {
        if let Tree::Node(c) = this {
            <TreeFamily as Functor<A, B>>::lemma_all_elems_everywhere(c.0, pred);
            <TreeFamily as Functor<A, B>>::lemma_all_elems_everywhere(c.1, pred);
        }
    }

    proof fn lemma_mapped_weaken(
        this: Tree<A>,
        rel: spec_fn(A, B) -> bool,
        wider: spec_fn(A, B) -> bool,
        out: Tree<B>,
    )
        decreases this,
    {
        if let (Tree::Node(c), Tree::Node(d)) = (this, out) {
            <TreeFamily as Functor<A, B>>::lemma_mapped_weaken(c.0, rel, wider, d.0);
            <TreeFamily as Functor<A, B>>::lemma_mapped_weaken(c.1, rel, wider, d.1);
        }
    }

    fn map<F, FTag>(self, this: This<Self, A>, f: F) -> (out: This<Self, B>) where
        CallMut<A>: Callable<F, FTag, Arg = A, Output = B>,
        ensures
            exists|states: Seq<F>|
                states[0] == f && #[trigger] called_in_order(
                    states,
                    this.tips(),
                    out.tips(),
                    call_step::<CallMut<A>, F, FTag>(),
                ),
    {
        let mut f = f;
        self.map_helper(this, &mut f)
    }
}

impl<A> Pure<A> for TreeFamily {
    open spec fn count(this: Tree<A>) -> nat {
        this.tips().len()
    }

    open spec fn pure_of(value: A) -> Tree<A> {
        Tree::Tip(value)
    }

    fn pure(self, value: A) -> (out: This<Self, A>) {
        Tree::Tip(value)
    }
}

impl<A, B> Applicative<A, B> for TreeFamily {
    type AppBounds = CallMut<(A, B)>;

    open spec fn app_passing() -> Passing {
        Passing::Mut
    }

    open spec fn all_pairs(a: Tree<A>, b: Tree<B>, pred: spec_fn((A, B)) -> bool) -> bool {
        tree_pairs(a, b, pred)
    }

    open spec fn zipped(a: Tree<A>, b: Tree<B>, z: Tree<(A, B)>) -> bool {
        z == tree_zip(a, b)
    }

    open spec fn pair_count(a: Tree<A>, b: Tree<B>) -> nat {
        tree_pair_count(a, b)
    }

    proof fn lemma_all_pairs_everywhere(a: Tree<A>, b: Tree<B>, pred: spec_fn((A, B)) -> bool)
        decreases a, b,
    {
        match (a, b) {
            (Tree::Tip(_), Tree::Tip(_)) => {},
            (Tree::Node(l), Tree::Node(r)) => {
                <TreeFamily as Applicative<A, B>>::lemma_all_pairs_everywhere(l.0, r.0, pred);
                <TreeFamily as Applicative<A, B>>::lemma_all_pairs_everywhere(l.1, r.1, pred);
            },
            (Tree::Tip(_), Tree::Node(r)) => {
                <TreeFamily as Applicative<A, B>>::lemma_all_pairs_everywhere(a, r.0, pred);
            },
            (Tree::Node(l), Tree::Tip(_)) => {
                <TreeFamily as Applicative<A, B>>::lemma_all_pairs_everywhere(l.1, b, pred);
            },
        }
    }

    fn lift_a2<C, F, FTag>(self, a: This<Self, A>, b: This<Self, B>, f: F) -> (out: This<Self, C>) where
        CallMut<(A, B)>: Callable<F, FTag, Arg = (A, B), Output = C>,
        ensures
            exists|states: Seq<F>|
                states[0] == f && #[trigger] called_in_order(
                    states,
                    tree_zip(a, b).tips(),
                    out.tips(),
                    call_step::<CallMut<(A, B)>, F, FTag>(),
                ),
            tree_lifted(
                a,
                b,
                |p: (A, B), c: C| <CallMut<(A, B)> as Callable<F, FTag>>::post(f, p, c),
                out,
            ),
    {
        let ghost f0 = f;
        let mut f = f;
        let out = self.lift_a2_helper(a, b, &mut f);
        proof {
            assert forall|x: A, y: B| a == Tree::Tip(x) && b == Tree::Tip(y) implies exists|c: C|
                <CallMut<(A, B)> as Callable<F, FTag>>::post(f0, (x, y), c) && out == Tree::Tip(c) by {
                let c = out->Tip_0;
                assert(<CallMut<(A, B)> as Callable<F, FTag>>::post(f0, (x, y), c));
            }
            lemma_lifted_count(
                a,
                b,
                |p: (A, B), c: C| <CallMut<(A, B)> as Callable<F, FTag>>::post(f0, p, c),
                out,
            );
            lemma_tree_lifted_zip(
                a,
                b,
                |p: (A, B), c: C| <CallMut<(A, B)> as Callable<F, FTag>>::post(f0, p, c),
                out,
            );
            assert(<TreeFamily as Applicative<A, B>>::zipped(a, b, tree_zip(a, b)));
        }
        out
    }
}

impl<A, B> Monad<A, B> for TreeFamily {
    open spec fn bound(this: Tree<A>, rel: spec_fn(A, Tree<B>) -> bool, out: Tree<B>) -> bool {
        tree_bound(this, rel, out)
    }

    proof fn lemma_bound_weaken(
        this: Tree<A>,
        rel: spec_fn(A, Tree<B>) -> bool,
        wider: spec_fn(A, Tree<B>) -> bool,
        out: Tree<B>,
    )
        decreases this,
    {
        if let (Tree::Node(c), Tree::Node(d)) = (this, out) {
            <TreeFamily as Monad<A, B>>::lemma_bound_weaken(c.0, rel, wider, d.0);
            <TreeFamily as Monad<A, B>>::lemma_bound_weaken(c.1, rel, wider, d.1);
        }
    }

    fn bind<F, FTag>(self, a: This<Self, A>, f: F) -> (out: This<Self, B>) where
        CallMut<A>: Callable<F, FTag, Arg = A, Output = This<Self, B>>,
        ensures
            exists|states: Seq<F>|
                states[0] == f && #[trigger] called_in_order(
                    states,
                    a.tips(),
                    tree_pieces(a, out),
                    call_step::<CallMut<A>, F, FTag>(),
                ),
    {
        let mut f = f;
        self.bind_helper(a, &mut f)
    }
}

impl<A, B, F> Traverse<A, B, F> for TreeFamily where
    F: Applicative<Tree<B>, Tree<B>> + Functor<B, Tree<B>> + Functor<(Tree<B>, Tree<B>), Tree<B>>,
 {
    type TravBounds = CallMut<A>;

    open spec fn trav_passing() -> Passing {
        Passing::Mut
    }

    open spec fn all_visited(this: Tree<A>, pred: spec_fn(A) -> bool) -> bool {
        this.all_tips(pred)
    }

    open spec fn traversed(
        this: Tree<A>,
        grel: spec_fn(A, This<F, B>) -> bool,
        out: This<F, Tree<B>>,
    ) -> bool {
        tree_traversed::<A, B, F>(this, grel, out)
    }

    fn traverse<G, GTag>(self, app: F, this: This<Self, A>, g: G) -> (out: This<F, This<Self, B>>) where
        CallMut<A>: Callable<G, GTag, Arg = A, Output = This<F, B>>,
        ensures
            exists|states: Seq<G>, fbs: Seq<This<F, B>>|
                states[0] == g && #[trigger] called_in_order(
                    states,
                    this.tips(),
                    fbs,
                    call_step::<CallMut<A>, G, GTag>(),
                ) && tree_assembled::<A, B, F>(this, fbs, out),
    {
        let mut g = g;
        self.traverse_helper(app, this, &mut g)
    }
}

/// Traversing a tree with the option family gives `Some` of a tree of the same shape,
/// holding for each tip `a` a value `b` with `Some(b)` a result of the function at `a`,
/// when at every tip the function can only give `Some`.
pub proof fn lemma_traverse_option_some<A, B>(
    t: Tree<A>,
    grel: spec_fn(A, Option<B>) -> bool,
    out: Option<Tree<B>>,
)
    requires
        tree_traversed::<A, B, OptionFamily>(t, grel, out),
        t.all_tips(|a: A| forall|fb: Option<B>| #[trigger] grel(a, fb) ==> fb is Some),
    ensures
        out matches Some(s) && tree_mapped(t, |a: A, b: B| grel(a, Some(b)), s),
    decreases t,
{
    match t {
        Tree::Tip(a) => {
            let fb = choose|fb: Option<B>|
                #[trigger] grel(a, fb) && <OptionFamily as Functor<B, Tree<B>>>::mapped(
                    fb,
                    |b: B, s: Tree<B>| s == Tree::Tip(b),
                    out,
                );
            assert(fb is Some);
        },
        Tree::Node(c) => {
            let (l, r) = choose|l: Option<Tree<B>>, r: Option<Tree<B>>|
                tree_traversed::<A, B, OptionFamily>(c.0, grel, l) && tree_traversed::<
                    A,
                    B,
                    OptionFamily,
                >(c.1, grel, r) && #[trigger] tree_joined::<B, OptionFamily>(l, r, out);
            lemma_traverse_option_some(c.0, grel, l);
            lemma_traverse_option_some(c.1, grel, r);
        },
    }
}

/// Traversing a tree with the option family gives `None` when at some tip the function
/// can only give `None`.
pub proof fn lemma_traverse_option_none<A, B>(
    t: Tree<A>,
    grel: spec_fn(A, Option<B>) -> bool,
    out: Option<Tree<B>>,
)
    requires
        tree_traversed::<A, B, OptionFamily>(t, grel, out),
        !t.all_tips(|a: A| exists|fb: Option<B>| #[trigger] grel(a, fb) && fb is Some),
    ensures
        out is None,
    decreases t,
{
    match t {
        Tree::Tip(a) => {
            let fb = choose|fb: Option<B>|
                #[trigger] grel(a, fb) && <OptionFamily as Functor<B, Tree<B>>>::mapped(
                    fb,
                    |b: B, s: Tree<B>| s == Tree::Tip(b),
                    out,
                );
        },
        Tree::Node(c) => {
            let (l, r) = choose|l: Option<Tree<B>>, r: Option<Tree<B>>|
                tree_traversed::<A, B, OptionFamily>(c.0, grel, l) && tree_traversed::<
                    A,
                    B,
                    OptionFamily,
                >(c.1, grel, r) && #[trigger] tree_joined::<B, OptionFamily>(l, r, out);
            let has_some = |a: A| exists|fb: Option<B>| #[trigger] grel(a, fb) && fb is Some;
            if !c.0.all_tips(has_some) {
                lemma_traverse_option_none(c.0, grel, l);
            } else {
                lemma_traverse_option_none(c.1, grel, r);
            }
        },
    }
}


/// Joins two optional error views, the first one first; `None` stands for no error.
pub open spec fn join_errors<E: SemiGroup>(x: Option<E::V>, y: Option<E::V>) -> Option<E::V> {
    match (x, y) {
        (Some(a), Some(b)) => Some(E::combine(a, b)),
        (Some(a), None) => Some(a),
        (None, _) => y,
    }
}

/// The errors of the invalid values among those that `h` gives for `items`, joined in
/// the order of `items`; `None` when every value is valid. `h` gives each error by its
/// view.
pub open spec fn joined_errors<A, B, E: SemiGroup>(
    items: Seq<A>,
    h: spec_fn(A) -> Validity<B, E::V>,
) -> Option<E::V>
    decreases items.len(),
{
    if items.len() == 0 {
        None
    } else {
        join_errors::<E>(
            joined_errors::<A, B, E>(items.drop_last(), h),
            match h(items.last()) {
                Validity::Invalid(e) => Some(e),
                Validity::Valid(_) => None,
            },
        )
    }
}

/// `fb` is the value `expected`, with its error, if any, taken by its view.
pub open spec fn validity_is<B, E: View>(fb: Validity<B, E>, expected: Validity<B, E::V>) -> bool {
    match (fb, expected) {
        (Validity::Valid(b), Validity::Valid(c)) => b == c,
        (Validity::Invalid(e), Validity::Invalid(v)) => e@ == v,
        _ => false,
    }
}

/// Joining optional errors is associative.
pub proof fn lemma_join_errors_associative<E: SemiGroup>(
    x: Option<E::V>,
    y: Option<E::V>,
    z: Option<E::V>,
)
    ensures
        join_errors::<E>(join_errors::<E>(x, y), z) == join_errors::<E>(x, join_errors::<E>(y, z)),
{
    if let (Some(a), Some(b), Some(c)) = (x, y, z) {
        E::lemma_combine_associative(a, b, c);
    }
}

/// The errors of two runs of items, one after the other, are those of the first joined
/// with those of the second.
pub proof fn lemma_joined_errors_concat<A, B, E: SemiGroup>(
    first: Seq<A>,
    second: Seq<A>,
    h: spec_fn(A) -> Validity<B, E::V>,
)
    ensures
        joined_errors::<A, B, E>(first + second, h) == join_errors::<E>(
            joined_errors::<A, B, E>(first, h),
            joined_errors::<A, B, E>(second, h),
        ),
    decreases second.len(),
{
    if second.len() == 0 {
        assert(first + second =~= first);
    } else {
        let rest = second.drop_last();
        assert((first + second).drop_last() =~= first + rest);
        assert((first + second).last() == second.last());
        lemma_joined_errors_concat::<A, B, E>(first, rest, h);
        lemma_join_errors_associative::<E>(
            joined_errors::<A, B, E>(first, h),
            joined_errors::<A, B, E>(rest, h),
            match h(second.last()) {
                Validity::Invalid(e) => Some(e),
                Validity::Valid(_) => None,
            },
        );
    }
}

/// Traversing a tree with the validity family, when the function gives the value
/// `h(a)` at each tip `a` (errors taken by their views), gives a valid tree of the same
/// shape, holding the valid values, when every tip is valid; otherwise it gives the
/// errors of the invalid tips, joined from left to right.
pub proof fn lemma_traverse_validity<A, B, E: SemiGroup>(
    t: Tree<A>,
    h: spec_fn(A) -> Validity<B, E::V>,
    grel: spec_fn(A, Validity<B, E>) -> bool,
    out: Validity<Tree<B>, E>,
)
    requires
        tree_traversed::<A, B, ValidityFamily<E>>(t, grel, out),
        forall|a: A, fb: Validity<B, E>| #[trigger] grel(a, fb) ==> validity_is(fb, h(a)),
    ensures
        match joined_errors::<A, B, E>(t.tips(), h) {
            None => out matches Validity::Valid(s) && tree_mapped(
                t,
                |a: A, b: B| h(a) == Validity::<B, E::V>::Valid(b),
                s,
            ),
            Some(e) => out matches Validity::Invalid(d) && d@ == e,
        },
    decreases t,
{
    match t {
        Tree::Tip(a) => {
            let fb = choose|fb: Validity<B, E>|
                #[trigger] grel(a, fb) && <ValidityFamily<E> as Functor<B, Tree<B>>>::mapped(
                    fb,
                    |b: B, s: Tree<B>| s == Tree::Tip(b),
                    out,
                );
            assert(validity_is(fb, h(a)));
            assert(t.tips().drop_last() =~= Seq::<A>::empty());
            assert(joined_errors::<A, B, E>(t.tips().drop_last(), h) is None);
            assert(t.tips().last() == a);
        },
        Tree::Node(c) => {
            let (l, r) = choose|l: Validity<Tree<B>, E>, r: Validity<Tree<B>, E>|
                tree_traversed::<A, B, ValidityFamily<E>>(c.0, grel, l) && tree_traversed::<
                    A,
                    B,
                    ValidityFamily<E>,
                >(c.1, grel, r) && #[trigger] tree_joined::<B, ValidityFamily<E>>(l, r, out);
            lemma_traverse_validity(c.0, h, grel, l);
            lemma_traverse_validity(c.1, h, grel, r);
            lemma_joined_errors_concat::<A, B, E>(c.0.tips(), c.1.tips(), h);
        },
    }
}

/// What traversing `t` with the option family gives when the function gives `g(a)` at
/// each tip `a`.
pub open spec fn tree_traverse_option<A, B>(t: Tree<A>, g: spec_fn(A) -> Option<B>) -> Option<
    Tree<B>,
>
    decreases t,
{
    match t {
        Tree::Tip(a) => match g(a) {
            Some(b) => Some(Tree::Tip(b)),
            None => None,
        },
        Tree::Node(c) => match (tree_traverse_option(c.0, g), tree_traverse_option(c.1, g)) {
            (Some(x), Some(y)) => Some(Tree::Node(Box::new((x, y)))),
            _ => None,
        },
    }
}

/// When the function gives `g(a)` at each tip `a`, traversing with the option family
/// gives exactly `tree_traverse_option`.
pub proof fn lemma_traverse_option_fn<A, B>(
    t: Tree<A>,
    g: spec_fn(A) -> Option<B>,
    grel: spec_fn(A, Option<B>) -> bool,
    out: Option<Tree<B>>,
)
    requires
        tree_traversed::<A, B, OptionFamily>(t, grel, out),
        forall|a: A, fb: Option<B>| #[trigger] grel(a, fb) ==> fb == g(a),
    ensures
        out == tree_traverse_option(t, g),
    decreases t,
{
    match t {
        Tree::Tip(a) => {
            let fb = choose|fb: Option<B>|
                #[trigger] grel(a, fb) && <OptionFamily as Functor<B, Tree<B>>>::mapped(
                    fb,
                    |b: B, s: Tree<B>| s == Tree::Tip(b),
                    out,
                );
            assert(fb == g(a));
        },
        Tree::Node(c) => {
            let (l, r) = choose|l: Option<Tree<B>>, r: Option<Tree<B>>|
                tree_traversed::<A, B, OptionFamily>(c.0, grel, l) && tree_traversed::<
                    A,
                    B,
                    OptionFamily,
                >(c.1, grel, r) && #[trigger] tree_joined::<B, OptionFamily>(l, r, out);
            lemma_traverse_option_fn(c.0, g, grel, l);
            lemma_traverse_option_fn(c.1, g, grel, r);
        },
    }
}

/// Traversing with a function that always gives `Some(h(a))` gives `Some` of the tree
/// mapped with `h`.
pub proof fn lemma_tree_traverse_option_some<A, B>(t: Tree<A>, h: spec_fn(A) -> B)
    ensures
        tree_traverse_option(t, |a: A| Some(h(a))) == Some(tree_map(t, h)),
    decreases t,
{
    if let Tree::Node(c) = t {
        lemma_tree_traverse_option_some(c.0, h);
        lemma_tree_traverse_option_some(c.1, h);
    }
}

/// Traversing a tree mapped with `h` is traversing the tree with the function composed
/// after `h`.
pub proof fn lemma_tree_traverse_option_map<A, X, B>(
    t: Tree<A>,
    h: spec_fn(A) -> X,
    g: spec_fn(X) -> Option<B>,
)
    ensures
        tree_traverse_option(tree_map(t, h), g) == tree_traverse_option(t, |a: A| g(h(a))),
    decreases t,
{
    if let Tree::Node(c) = t {
        lemma_tree_traverse_option_map(c.0, h, g);
        lemma_tree_traverse_option_map(c.1, h, g);
    }
}

/// With the option family, the results that the function gave at the tips, from left
/// to right, are gathered in that order: the traversal gives `Some` of a tree of the
/// shape of `t` whose `i`-th tip is the value of the `i`-th result when every result is
/// `Some`, and `None` when one of them is `None`.
pub proof fn lemma_assembled_option<A, B>(t: Tree<A>, fbs: Seq<Option<B>>, out: Option<Tree<B>>)
    requires
        tree_assembled::<A, B, OptionFamily>(t, fbs, out),
    ensures
        fbs.len() == t.tips().len(),
        (forall|i: int| 0 <= i < fbs.len() ==> #[trigger] fbs[i] is Some) ==> (out matches Some(s)
            && t.same_shape(s) && s.tips() == fbs.map_values(|o: Option<B>| o->Some_0)),
        (exists|i: int| 0 <= i < fbs.len() && #[trigger] fbs[i] is None) ==> out is None,
    decreases t,
{
    match t {
        Tree::Tip(_) => {
            if fbs[0] is Some {
                assert(fbs.map_values(|o: Option<B>| o->Some_0) =~= seq![fbs[0]->Some_0]);
            }
        },
        Tree::Node(c) => {
            let n = c.0.tips().len() as int;
            let (l, r) = choose|l: Option<Tree<B>>, r: Option<Tree<B>>|
                tree_assembled::<A, B, OptionFamily>(c.0, fbs.take(n), l) && tree_assembled::<
                    A,
                    B,
                    OptionFamily,
                >(c.1, fbs.skip(n), r) && #[trigger] tree_joined::<B, OptionFamily>(l, r, out);
            lemma_assembled_option(c.0, fbs.take(n), l);
            lemma_assembled_option(c.1, fbs.skip(n), r);
            if forall|i: int| 0 <= i < fbs.len() ==> #[trigger] fbs[i] is Some {
                assert forall|i: int| 0 <= i < fbs.take(n).len() implies #[trigger] fbs.take(n)[i] is Some by {
                    assert(fbs[i] is Some);
                }
                assert forall|i: int| 0 <= i < fbs.skip(n).len() implies #[trigger] fbs.skip(n)[i] is Some by {
                    assert(fbs[i + n] is Some);
                }
                let unwrap = |o: Option<B>| o->Some_0;
                assert(fbs.map_values(unwrap) =~= fbs.take(n).map_values(unwrap) + fbs.skip(n).map_values(
                    unwrap,
                ));
            }
            if exists|i: int| 0 <= i < fbs.len() && #[trigger] fbs[i] is None {
                let i = choose|i: int| 0 <= i < fbs.len() && #[trigger] fbs[i] is None;
                if i < n {
                    assert(fbs.take(n)[i] is None);
                } else {
                    assert(fbs.skip(n)[i - n] is None);
                }
            }
        },
    }
}

} // verus!
