use vstd::prelude::*;

use crate::trait_aliases::{Callable, Passing};

pub mod option;
pub mod validity;
pub mod tree;

verus! {

/// The type that family `T` gives for the element type `A`.
pub type This<T, A> = <T as Family<A>>::This;

/// A type constructor, seen through one element type at a time.
pub trait Family<A>: Copy + Send + Sync {
    type This;
}

/// Families whose values can have each element replaced.
pub trait Functor<A, B>: Family<A> + Family<B> {
    /// The way `map` (and `bind`) calls the function it is given.
    type FuncBounds;

    /// How `map` (and `bind`) hands the function to [`Self::FuncBounds`].
    spec fn func_passing() -> Passing;

    /// `pred` holds of every element of `this`.
    spec fn all_elems(this: This<Self, A>, pred: spec_fn(A) -> bool) -> bool;

    /// `out` is `this` with each element `a` replaced by some `b` such that `rel(a, b)`.
    spec fn mapped(this: This<Self, A>, rel: spec_fn(A, B) -> bool, out: This<Self, B>) -> bool;

    /// A predicate that holds everywhere holds of every element.
    proof fn lemma_all_elems_everywhere(this: This<Self, A>, pred: spec_fn(A) -> bool)
        requires
            forall|a: A| #[trigger] pred(a),
        ensures
            Self::all_elems(this, pred),
    ;

    /// Enlarging the relation keeps `out` a mapped value of `this`.
    proof fn lemma_mapped_weaken(
        this: This<Self, A>,
        rel: spec_fn(A, B) -> bool,
        wider: spec_fn(A, B) -> bool,
        out: This<Self, B>,
    )
        requires
            Self::mapped(this, rel, out),
            forall|a: A, b: B| #[trigger] rel(a, b) ==> wider(a, b),
        ensures
            Self::mapped(this, wider, out),
    ;

    /// Replaces each element of `this` with what `f` gives for it.
    fn map<F, FTag>(self, this: This<Self, A>, f: F) -> (out: This<Self, B>) where
        Self::FuncBounds: Callable<F, FTag, Arg = A, Output = B>,
        requires
            <Self::FuncBounds as Callable<F, FTag>>::admits(Self::func_passing()),
            Self::all_elems(this, |a: A| <Self::FuncBounds as Callable<F, FTag>>::pre(f, a)),
        ensures
            Self::mapped(
                this,
                |a: A, b: B| <Self::FuncBounds as Callable<F, FTag>>::post(f, a, b),
                out,
            ),
    ;
}

/// Families that can wrap a single value.
pub trait Pure<A>: Family<A> {
    /// How many elements `this` holds.
    spec fn count(this: This<Self, A>) -> nat;

    /// The value `pure` gives for `value`.
    spec fn pure_of(value: A) -> This<Self, A>;

    /// Wraps `value`.
    fn pure(self, value: A) -> (out: This<Self, A>)
        ensures
            out == Self::pure_of(value),
    ;
}

/// Families whose values can be combined element by element.
pub trait Applicative<A, B>: Functor<A, B> + Pure<A> + Pure<B> + Family<(A, B)> {
    /// The way `lift_a2` calls the function it is given.
    type AppBounds;

    /// How `lift_a2` hands the function to [`Self::AppBounds`].
    spec fn app_passing() -> Passing;

    /// `pred` holds of every pair of elements that combining `a` with `b` brings together.
    spec fn all_pairs(a: This<Self, A>, b: This<Self, B>, pred: spec_fn((A, B)) -> bool) -> bool;

    /// `z` is what combining `a` with `b` gives when each pair of elements that meet is
    /// kept as it is: the value of this family that holds those pairs.
    spec fn zipped(a: This<Self, A>, b: This<Self, B>, z: This<Self, (A, B)>) -> bool;

    /// How many pairs of elements combining `a` with `b` brings together.
    spec fn pair_count(a: This<Self, A>, b: This<Self, B>) -> nat;

    /// A predicate that holds everywhere holds of every pair.
    proof fn lemma_all_pairs_everywhere(
        a: This<Self, A>,
        b: This<Self, B>,
        pred: spec_fn((A, B)) -> bool,
    )
        requires
            forall|p: (A, B)| #[trigger] pred(p),
        ensures
            Self::all_pairs(a, b, pred),
    ;

    /// Combines `a` and `b` element by element with `f`.
    ///
    /// The result is the value that pairs up the elements of `a` and `b`, mapped with
    /// `f`; in particular two wrapped values give the wrapped result, and the result
    /// holds one element per pair combined.
    fn lift_a2<C, F, FTag>(self, a: This<Self, A>, b: This<Self, B>, f: F) -> (out: This<Self, C>) where
        Self::AppBounds: Callable<F, FTag, Arg = (A, B), Output = C>,
        Self: Pure<C> + Functor<(A, B), C>,
        requires
            <Self::AppBounds as Callable<F, FTag>>::admits(Self::app_passing()),
            Self::all_pairs(a, b, |p: (A, B)| <Self::AppBounds as Callable<F, FTag>>::pre(f, p)),
        ensures
            exists|z: This<Self, (A, B)>|
                #[trigger] Self::zipped(a, b, z) && <Self as Functor<(A, B), C>>::mapped(
                    z,
                    |p: (A, B), c: C| <Self::AppBounds as Callable<F, FTag>>::post(f, p, c),
                    out,
                ),
            forall|x: A, y: B|
                a == <Self as Pure<A>>::pure_of(x) && b == <Self as Pure<B>>::pure_of(y) ==> exists|c: C|
                    #[trigger] <Self::AppBounds as Callable<F, FTag>>::post(f, (x, y), c) && out
                        == <Self as Pure<C>>::pure_of(c),
            <Self as Pure<C>>::count(out) == Self::pair_count(a, b),
    ;
}

/// Families whose values can feed each element to a function that gives a new value.
pub trait Monad<A, B>: Applicative<A, B> {
    /// `out` is `this` with each element `a` replaced by the contents of some `s` such
    /// that `rel(a, s)`.
    spec fn bound(this: This<Self, A>, rel: spec_fn(A, This<Self, B>) -> bool, out: This<Self, B>) -> bool;

    /// Enlarging the relation keeps `out` a bound value of `this`.
    proof fn lemma_bound_weaken(
        this: This<Self, A>,
        rel: spec_fn(A, This<Self, B>) -> bool,
        wider: spec_fn(A, This<Self, B>) -> bool,
        out: This<Self, B>,
    )
        requires
            Self::bound(this, rel, out),
            forall|a: A, s: This<Self, B>| #[trigger] rel(a, s) ==> wider(a, s),
        ensures
            Self::bound(this, wider, out),
    ;

    /// Feeds each element of `a` to `f` and gathers what `f` gives.
    fn bind<F, FTag>(self, a: This<Self, A>, f: F) -> (out: This<Self, B>) where
        <Self as Functor<A, B>>::FuncBounds: Callable<F, FTag, Arg = A, Output = This<Self, B>>,
        requires
            <<Self as Functor<A, B>>::FuncBounds as Callable<F, FTag>>::admits(
                <Self as Functor<A, B>>::func_passing(),
            ),
            <Self as Functor<A, B>>::all_elems(
                a,
                |x: A| <<Self as Functor<A, B>>::FuncBounds as Callable<F, FTag>>::pre(f, x),
            ),
        ensures
            Self::bound(
                a,
                |x: A, s: This<Self, B>|
                    <<Self as Functor<A, B>>::FuncBounds as Callable<F, FTag>>::post(f, x, s),
                out,
            ),
    ;
}

/// Families whose values can run a wrapping function on each element and gather the
/// results inside the wrapping family `F`.
pub trait Traverse<A, B, F: Family<B> + Family<This<Self, B>>>: Family<A> + Family<B> {
    /// The way `traverse` calls the function it is given.
    type TravBounds;

    /// How `traverse` hands the function to [`Self::TravBounds`]: by unique reference,
    /// unless the family says otherwise.
    open spec fn trav_passing() -> Passing {
        Passing::Mut
    }

    /// `pred` holds of every element that `traverse` visits; a family that does not say
    /// which elements those are asks it of every value.
    open spec fn all_visited(this: This<Self, A>, pred: spec_fn(A) -> bool) -> bool {
        forall|a: A| #[trigger] pred(a)
    }

    /// `out` is a result that `traverse` may give for `this` when the function gives,
    /// for an element `a`, some `fb` such that `grel(a, fb)`.
    ///
    /// A family states this for its own traversal. The default, for a family whose
    /// traversal is not verified (such as one through the family's iterators, written
    /// outside this library), claims nothing of the result.
    open spec fn traversed(
        this: This<Self, A>,
        grel: spec_fn(A, This<F, B>) -> bool,
        out: This<F, This<Self, B>>,
    ) -> bool {
        true
    }

    /// Runs `g` on each element of `this` and gathers the results, inside `app`'s family,
    /// into a value of this family.
    fn traverse<G, GTag>(self, app: F, this: This<Self, A>, g: G) -> (out: This<F, This<Self, B>>) where
        Self::TravBounds: Callable<G, GTag, Arg = A, Output = This<F, B>>,
        requires
            <Self::TravBounds as Callable<G, GTag>>::admits(Self::trav_passing()),
            Self::all_visited(this, |a: A| <Self::TravBounds as Callable<G, GTag>>::pre(g, a)),
        ensures
            Self::traversed(
                this,
                |a: A, fb: This<F, B>| <Self::TravBounds as Callable<G, GTag>>::post(g, a, fb),
                out,
            ),
    ;
}

/// Types with an associative way of joining two values.
///
/// `combine` says, over views, what `append` gives.
pub trait SemiGroup: View + Sized {
    spec fn combine(a: Self::V, b: Self::V) -> Self::V;

    /// Joining is associative.
    proof fn lemma_combine_associative(a: Self::V, b: Self::V, c: Self::V)
        ensures
            Self::combine(Self::combine(a, b), c) == Self::combine(a, Self::combine(b, c)),
    ;

    /// Joins `rhs` after `self`.
    fn append(self, rhs: Self) -> (out: Self)
        ensures
            out@ == Self::combine(self@, rhs@),
    ;
}

impl<A> SemiGroup for Vec<A> {
    open spec fn combine(a: Seq<A>, b: Seq<A>) -> Seq<A> {
        a + b
    }

    proof fn lemma_combine_associative(a: Seq<A>, b: Seq<A>, c: Seq<A>) {
        assert(a + b + c =~= a + (b + c));
    }

    fn append(self, rhs: Self) -> (out: Self) {
        let mut joined = self;
        let mut rest = rhs;
        Vec::append(&mut joined, &mut rest);
        joined
    }
}

/// The empty vector joins on either side of a vector without changing it.
pub proof fn lemma_vec_combine_empty<A>(a: Seq<A>)
    ensures
        <Vec<A> as SemiGroup>::combine(a, Seq::empty()) == a,
        <Vec<A> as SemiGroup>::combine(Seq::empty(), a) == a,
{
    assert(a + Seq::empty() =~= a);
    assert(Seq::empty() + a =~= a);
}

impl SemiGroup for String {
    open spec fn combine(a: Seq<char>, b: Seq<char>) -> Seq<char> {
        a + b
    }

    proof fn lemma_combine_associative(a: Seq<char>, b: Seq<char>, c: Seq<char>) {
        assert(a + b + c =~= a + (b + c));
    }

    fn append(self, rhs: Self) -> (out: Self) {
        let mut joined = self;
        vstd::string::StringExecFns::append(&mut joined, rhs.as_str());
        joined
    }
}

impl SemiGroup for () {
    open spec fn combine(a: (), b: ()) -> () {
        ()
    }

    proof fn lemma_combine_associative(a: (), b: (), c: ()) {
    }

    fn append(self, rhs: Self) -> (out: Self) {
    }
}

/// Composition of two functions whose results are wrapped by the same monad.
///
/// Every [`Monad`] has it.
pub trait Compose<A, B>: Monad<A, B> {
    /// Feeds what `f` gives for `a` to `g`.
    fn compose<F, G, C, GTag>(self, f: F, g: G, a: A) -> (out: This<Self, C>) where
        F: FnOnce(A) -> This<Self, B>,
        <Self as Functor<B, C>>::FuncBounds: Callable<G, GTag, Arg = B, Output = This<Self, C>>,
        Self: Monad<B, C>,
        requires
            call_requires(f, (a,)),
            <<Self as Functor<B, C>>::FuncBounds as Callable<G, GTag>>::admits(
                <Self as Functor<B, C>>::func_passing(),
            ),
            forall|s: This<Self, B>|
                call_ensures(f, (a,), s) ==> <Self as Functor<B, C>>::all_elems(
                    s,
                    |y: B| <<Self as Functor<B, C>>::FuncBounds as Callable<G, GTag>>::pre(g, y),
                ),
        ensures
            exists|s: This<Self, B>|
                call_ensures(f, (a,), s) && <Self as Monad<B, C>>::bound(
                    s,
                    |y: B, t: This<Self, C>|
                        <<Self as Functor<B, C>>::FuncBounds as Callable<G, GTag>>::post(g, y, t),
                    out,
                ),
    ;
}

impl<M: Monad<A, B>, A, B> Compose<A, B> for M {
    fn compose<F, G, C, GTag>(self, f: F, g: G, a: A) -> (out: This<Self, C>) where
        F: FnOnce(A) -> This<Self, B>,
        <Self as Functor<B, C>>::FuncBounds: Callable<G, GTag, Arg = B, Output = This<Self, C>>,
        Self: Monad<B, C>,
    {
        Monad::<B, C>::bind(self, f(a), g)
    }
}

} // verus!
