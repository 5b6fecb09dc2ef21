use vstd::prelude::*;

use super::{Applicative, Family, Functor, Monad, Pure, This};
use crate::trait_aliases::{CallOnce, Callable, Passing};
use crate::OptionFamily;

verus! {

impl<A> Family<A> for OptionFamily {
    type This = Option<A>;
}

impl<A, B> Functor<A, B> for OptionFamily {
    type FuncBounds = CallOnce<A>;

    open spec fn func_passing() -> Passing {
        Passing::Owned
    }

    open spec fn all_elems(this: Option<A>, pred: spec_fn(A) -> bool) -> bool {
        this matches Some(a) ==> pred(a)
    }

    open spec fn mapped(this: Option<A>, rel: spec_fn(A, B) -> bool, out: Option<B>) -> bool {
        match (this, out) {
            (None, None) => true,
            (Some(a), Some(b)) => rel(a, b),
            _ => false,
        }
    }

    proof fn lemma_all_elems_everywhere(this: Option<A>, pred: spec_fn(A) -> bool) {
    }

    proof fn lemma_mapped_weaken(
        this: Option<A>,
        rel: spec_fn(A, B) -> bool,
        wider: spec_fn(A, B) -> bool,
        out: Option<B>,
    ) {
    }

    fn map<F, FTag>(self, this: This<Self, A>, f: F) -> (out: This<Self, B>) where
        CallOnce<A>: Callable<F, FTag, Arg = A, Output = B>,
    {
        this.map(CallOnce::build(f))
    }
}

impl<A> Pure<A> for OptionFamily {
    open spec fn count(this: Option<A>) -> nat {
        if this is Some {
            1
        } else {
            0
        }
    }

    open spec fn pure_of(value: A) -> Option<A> {
        Some(value)
    }

    fn pure(self, value: A) -> (out: This<Self, A>) {
        Some(value)
    }
}

impl<A, B> Applicative<A, B> for OptionFamily {
    type AppBounds = CallOnce<(A, B)>;

    open spec fn app_passing() -> Passing {
        Passing::Owned
    }

    open spec fn all_pairs(a: Option<A>, b: Option<B>, pred: spec_fn((A, B)) -> bool) -> bool {
        (a, b) matches (Some(x), Some(y)) ==> pred((x, y))
    }

    open spec fn zipped(a: Option<A>, b: Option<B>, z: Option<(A, B)>) -> bool {
        match (a, b) {
            (Some(x), Some(y)) => z == Some((x, y)),
            _ => z is None,
        }
    }

    open spec fn pair_count(a: Option<A>, b: Option<B>) -> nat {
        if a is Some && b is Some {
            1
        } else {
            0
        }
    }

    proof fn lemma_all_pairs_everywhere(a: Option<A>, b: Option<B>, pred: spec_fn((A, B)) -> bool) {
    }

    fn lift_a2<C, F, FTag>(self, a: This<Self, A>, b: This<Self, B>, f: F) -> (out: This<Self, C>) where
        CallOnce<(A, B)>: Callable<F, FTag, Arg = (A, B), Output = C>,
        ensures
            match (a, b) {
                (Some(x), Some(y)) => out matches Some(c) && <CallOnce<(A, B)> as Callable<
                    F,
                    FTag,
                >>::post(f, (x, y), c),
                _ => out is None,
            },
    {
        let ghost f0 = f;
        let ghost a0 = a;
        let ghost b0 = b;
        let ghost z = match (a0, b0) {
            (Some(x), Some(y)) => Some((x, y)),
            _ => None,
        };
        assert(Self::zipped(a, b, z));
        let pair = (a?, b?);
        let c = CallOnce::build(f)(pair);
        proof {
            assert(<CallOnce<(A, B)> as Callable<F, FTag>>::post(f0, pair, c));
        }
        Some(c)
    }
}

impl<A, B> Monad<A, B> for OptionFamily {
    open spec fn bound(this: Option<A>, rel: spec_fn(A, Option<B>) -> bool, out: Option<B>) -> bool {
        match this {
            Some(a) => rel(a, out),
            None => out is None,
        }
    }

    proof fn lemma_bound_weaken(
        this: Option<A>,
        rel: spec_fn(A, Option<B>) -> bool,
        wider: spec_fn(A, Option<B>) -> bool,
        out: Option<B>,
    ) {
    }

    fn bind<F, FTag>(self, a: This<Self, A>, f: F) -> (out: This<Self, B>) where
        CallOnce<A>: Callable<F, FTag, Arg = A, Output = This<Self, B>>,
    {
        a.and_then(CallOnce::build(f))
    }
}

/// Mapping with the identity relation gives the option back.
pub proof fn lemma_option_map_identity<A>(this: Option<A>, out: Option<A>)
    requires
        <OptionFamily as Functor<A, A>>::mapped(this, |a: A, b: A| b == a, out),
    ensures
        out == this,
{
}

/// Mapping twice is mapping once with the composed relation.
pub proof fn lemma_option_map_composition<A, B, C>(
    this: Option<A>,
    first: spec_fn(A, B) -> bool,
    second: spec_fn(B, C) -> bool,
    mid: Option<B>,
    out: Option<C>,
)
    requires
        <OptionFamily as Functor<A, B>>::mapped(this, first, mid),
        <OptionFamily as Functor<B, C>>::mapped(mid, second, out),
    ensures
        <OptionFamily as Functor<A, C>>::mapped(
            this,
            |a: A, c: C| exists|b: B| #[trigger] first(a, b) && second(b, c),
            out,
        ),
{
    if let (Some(a), Some(b), Some(c)) = (this, mid, out) {
        assert(first(a, b) && second(b, c));
    }
}

/// Binding a wrapped value feeds it to the function.
pub proof fn lemma_option_bind_left_identity<A, B>(
    a: A,
    rel: spec_fn(A, Option<B>) -> bool,
    out: Option<B>,
)
    ensures
        <OptionFamily as Monad<A, B>>::bound(<OptionFamily as Pure<A>>::pure_of(a), rel, out) == rel(
            a,
            out,
        ),
{
}

/// Binding with the wrapping function gives the option back.
pub proof fn lemma_option_bind_right_identity<A>(this: Option<A>, out: Option<A>)
    requires
        <OptionFamily as Monad<A, A>>::bound(
            this,
            |a: A, s: Option<A>| s == <OptionFamily as Pure<A>>::pure_of(a),
            out,
        ),
    ensures
        out == this,
{
}

/// Binding twice is binding once with a function that binds its own result.
pub proof fn lemma_option_bind_associative<A, B, C>(
    this: Option<A>,
    first: spec_fn(A, Option<B>) -> bool,
    second: spec_fn(B, Option<C>) -> bool,
    mid: Option<B>,
    out: Option<C>,
)
    requires
        <OptionFamily as Monad<A, B>>::bound(this, first, mid),
        <OptionFamily as Monad<B, C>>::bound(mid, second, out),
    ensures
        <OptionFamily as Monad<A, C>>::bound(
            this,
            |a: A, s: Option<C>|
                exists|m: Option<B>| #[trigger] first(a, m) && <OptionFamily as Monad<B, C>>::bound(m, second, s),
            out,
        ),
{
    if let Some(a) = this {
        assert(first(a, mid) && <OptionFamily as Monad<B, C>>::bound(mid, second, out));
    }
}

/// Mapping is binding with a function that wraps its result.
pub proof fn lemma_option_map_is_bind<A, B>(this: Option<A>, rel: spec_fn(A, B) -> bool, out: Option<B>)
    ensures
        <OptionFamily as Functor<A, B>>::mapped(this, rel, out) <==> <OptionFamily as Monad<
            A,
            B,
        >>::bound(
            this,
            |a: A, s: Option<B>|
                exists|b: B| #[trigger] rel(a, b) && s == <OptionFamily as Pure<B>>::pure_of(b),
            out,
        ),
{
    if let (Some(a), Some(b)) = (this, out) {
        if rel(a, b) {
            assert(rel(a, b) && out == <OptionFamily as Pure<B>>::pure_of(b));
        }
    }
}

} // verus!
