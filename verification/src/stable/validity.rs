use vstd::prelude::*;

use super::{Applicative, Family, Functor, Monad, Pure, SemiGroup, This};
use crate::trait_aliases::{CallOnce, Callable, Passing};
use crate::validity::Validity;
use core::marker::PhantomData;

verus! {

/// The family `A ↦ Validity<A, E>`, whose errors of type `E` accumulate.
pub struct ValidityFamily<E>(pub PhantomData<Ghost<E>>);

impl<E> Copy for ValidityFamily<E> {

}

impl<E> Clone for ValidityFamily<E> {
    fn clone(&self) -> (out: Self)
        ensures
            out == *self,
    {
        *self
    }
}

impl<T, E> Family<T> for ValidityFamily<E> {
    type This = Validity<T, E>;
}

impl<A, B, E> Functor<A, B> for ValidityFamily<E> {
    type FuncBounds = CallOnce<A>;

    open spec fn func_passing() -> Passing {
        Passing::Owned
    }

    open spec fn all_elems(this: Validity<A, E>, pred: spec_fn(A) -> bool) -> bool {
        this matches Validity::Valid(a) ==> pred(a)
    }

    open spec fn mapped(
        this: Validity<A, E>,
        rel: spec_fn(A, B) -> bool,
        out: Validity<B, E>,
    ) -> bool {
        match (this, out) {
            (Validity::Valid(a), Validity::Valid(b)) => rel(a, b),
            (Validity::Invalid(e), Validity::Invalid(d)) => d == e,
            _ => false,
        }
    }

    proof fn lemma_all_elems_everywhere(this: Validity<A, E>, pred: spec_fn(A) -> bool) {
    }

    proof fn lemma_mapped_weaken(
        this: Validity<A, E>,
        rel: spec_fn(A, B) -> bool,
        wider: spec_fn(A, B) -> bool,
        out: Validity<B, E>,
    ) {
    }

    fn map<F, FTag>(self, this: This<Self, A>, f: F) -> (out: This<Self, B>) where
        CallOnce<A>: Callable<F, FTag, Arg = A, Output = B>,
    {
        match this {
            Validity::Valid(valid) => Validity::Valid(CallOnce::build(f)(valid)),
            Validity::Invalid(invalid) => Validity::Invalid(invalid),
        }
    }
}

impl<A, E> Pure<A> for ValidityFamily<E> {
    open spec fn count(this: Validity<A, E>) -> nat {
        if this is Valid {
            1
        } else {
            0
        }
    }

    open spec fn pure_of(value: A) -> Validity<A, E> {
        Validity::Valid(value)
    }

    fn pure(self, value: A) -> (out: This<Self, A>) {
        Validity::Valid(value)
    }
}

impl<A, B, E: SemiGroup> Applicative<A, B> for ValidityFamily<E> {
    type AppBounds = CallOnce<(A, B)>;

    open spec fn app_passing() -> Passing {
        Passing::Owned
    }

    open spec fn all_pairs(
        a: Validity<A, E>,
        b: Validity<B, E>,
        pred: spec_fn((A, B)) -> bool,
    ) -> bool {
        (a, b) matches (Validity::Valid(x), Validity::Valid(y)) ==> pred((x, y))
    }

    open spec fn zipped(a: Validity<A, E>, b: Validity<B, E>, z: Validity<(A, B), E>) -> bool {
        match (a, b) {
            (Validity::Valid(x), Validity::Valid(y)) => z == Validity::<(A, B), E>::Valid((x, y)),
            (Validity::Invalid(x), Validity::Invalid(y)) => z matches Validity::Invalid(e) && e@
                == E::combine(x@, y@),
            (Validity::Invalid(x), _) => z == Validity::<(A, B), E>::Invalid(x),
            (_, Validity::Invalid(y)) => z == Validity::<(A, B), E>::Invalid(y),
        }
    }

    open spec fn pair_count(a: Validity<A, E>, b: Validity<B, E>) -> nat {
        if a is Valid && b is Valid {
            1
        } else {
            0
        }
    }

    proof fn lemma_all_pairs_everywhere(
        a: Validity<A, E>,
        b: Validity<B, E>,
        pred: spec_fn((A, B)) -> bool,
    ) {
    }

    fn lift_a2<C, F, FTag>(self, a: This<Self, A>, b: This<Self, B>, f: F) -> (out: This<Self, C>) where
        CallOnce<(A, B)>: Callable<F, FTag, Arg = (A, B), Output = C>,
        ensures
            match (a, b) {
                (Validity::Valid(x), Validity::Valid(y)) => out matches Validity::Valid(c)
                    && <CallOnce<(A, B)> as Callable<F, FTag>>::post(f, (x, y), c),
                (Validity::Invalid(x), Validity::Invalid(y)) => out matches Validity::Invalid(z)
                    && z@ == E::combine(x@, y@),
                (Validity::Invalid(x), _) => out == Validity::<C, E>::Invalid(x),
                (_, Validity::Invalid(y)) => out == Validity::<C, E>::Invalid(y),
            },
    {
        let ghost f0 = f;
        let ghost a0 = a;
        let ghost b0 = b;
        match (a, b) {
            (Validity::Valid(a), Validity::Valid(b)) => {
                let c = CallOnce::build(f)((a, b));
                proof {
                    assert(<CallOnce<(A, B)> as Callable<F, FTag>>::post(f0, (a, b), c));
                    assert(Self::zipped(a0, b0, Validity::Valid((a, b))));
                }
                Validity::Valid(c)
            },
            (Validity::Invalid(a), Validity::Invalid(b)) => {
                let e = a.append(b);
                proof {
                    assert(Self::zipped(a0, b0, Validity::<(A, B), E>::Invalid(e)));
                }
                Validity::Invalid(e)
            },
            (Validity::Invalid(x), _) => {
                proof {
                    assert(Self::zipped(a0, b0, Validity::<(A, B), E>::Invalid(x)));
                }
                Validity::Invalid(x)
            },
            (_, Validity::Invalid(x)) => {
                proof {
                    assert(Self::zipped(a0, b0, Validity::<(A, B), E>::Invalid(x)));
                }
                Validity::Invalid(x)
            },
        }
    }
}

impl<A, B, E: SemiGroup> Monad<A, B> for ValidityFamily<E> {
    open spec fn bound(
        this: Validity<A, E>,
        rel: spec_fn(A, Validity<B, E>) -> bool,
        out: Validity<B, E>,
    ) -> bool {
        match this {
            Validity::Valid(a) => rel(a, out),
            Validity::Invalid(e) => out == Validity::<B, E>::Invalid(e),
        }
    }

    proof fn lemma_bound_weaken(
        this: Validity<A, E>,
        rel: spec_fn(A, Validity<B, E>) -> bool,
        wider: spec_fn(A, Validity<B, E>) -> bool,
        out: Validity<B, E>,
    ) {
    }

    fn bind<F, FTag>(self, a: This<Self, A>, f: F) -> (out: This<Self, B>) where
        CallOnce<A>: Callable<F, FTag, Arg = A, Output = This<Self, B>>,
    {
        match a {
            Validity::Valid(value) => CallOnce::build(f)(value),
            Validity::Invalid(error) => Validity::Invalid(error),
        }
    }
}

/// `this` with its valid value `a` replaced by `f(a)`.
pub open spec fn validity_map<A, B, E>(this: Validity<A, E>, f: spec_fn(A) -> B) -> Validity<B, E> {
    match this {
        Validity::Valid(a) => Validity::Valid(f(a)),
        Validity::Invalid(e) => Validity::Invalid(e),
    }
}

/// With a function for relation, mapping gives exactly `validity_map`.
pub proof fn lemma_validity_mapped_fn<A, B, E>(
    this: Validity<A, E>,
    f: spec_fn(A) -> B,
    out: Validity<B, E>,
)
    ensures
        <ValidityFamily<E> as Functor<A, B>>::mapped(this, |a: A, b: B| b == f(a), out) <==> out
            == validity_map(this, f),
{
}

/// Mapping with `f` and then with `g` is mapping with their composition.
pub proof fn lemma_validity_map_map<A, B, C, E>(
    this: Validity<A, E>,
    f: spec_fn(A) -> B,
    g: spec_fn(B) -> C,
)
    ensures
        validity_map(validity_map(this, f), g) == validity_map(this, |a: A| g(f(a))),
{
}

/// Mapping with the identity relation gives the value back.
pub proof fn lemma_validity_map_identity<A, E>(this: Validity<A, E>, out: Validity<A, E>)
    requires
        <ValidityFamily<E> as Functor<A, A>>::mapped(this, |a: A, b: A| b == a, out),
    ensures
        out == this,
{
}

/// Mapping twice is mapping once with the composed relation.
pub proof fn lemma_validity_map_composition<A, B, C, E>(
    this: Validity<A, E>,
    first: spec_fn(A, B) -> bool,
    second: spec_fn(B, C) -> bool,
    mid: Validity<B, E>,
    out: Validity<C, E>,
)
    requires
        <ValidityFamily<E> as Functor<A, B>>::mapped(this, first, mid),
        <ValidityFamily<E> as Functor<B, C>>::mapped(mid, second, out),
    ensures
        <ValidityFamily<E> as Functor<A, C>>::mapped(
            this,
            |a: A, c: C| exists|b: B| #[trigger] first(a, b) && second(b, c),
            out,
        ),
{
    if let (Validity::Valid(a), Validity::Valid(b), Validity::Valid(c)) = (this, mid, out) {
        assert(first(a, b) && second(b, c));
    }
}

/// Binding a valid value feeds it to the function.
pub proof fn lemma_validity_bind_left_identity<A, B, E: SemiGroup>(
    a: A,
    rel: spec_fn(A, Validity<B, E>) -> bool,
    out: Validity<B, E>,
)
    ensures
        <ValidityFamily<E> as Monad<A, B>>::bound(
            <ValidityFamily<E> as Pure<A>>::pure_of(a),
            rel,
            out,
        ) == rel(a, out),
{
}

/// Binding with the wrapping function gives the value back.
pub proof fn lemma_validity_bind_right_identity<A, E: SemiGroup>(
    this: Validity<A, E>,
    out: Validity<A, E>,
)
    requires
        <ValidityFamily<E> as Monad<A, A>>::bound(
            this,
            |a: A, s: Validity<A, E>| s == <ValidityFamily<E> as Pure<A>>::pure_of(a),
            out,
        ),
    ensures
        out == this,
{
}

/// Binding twice is binding once with a function that binds its own result.
pub proof fn lemma_validity_bind_associative<A, B, C, E: SemiGroup>(
    this: Validity<A, E>,
    first: spec_fn(A, Validity<B, E>) -> bool,
    second: spec_fn(B, Validity<C, E>) -> bool,
    mid: Validity<B, E>,
    out: Validity<C, E>,
)
    requires
        <ValidityFamily<E> as Monad<A, B>>::bound(this, first, mid),
        <ValidityFamily<E> as Monad<B, C>>::bound(mid, second, out),
    ensures
        <ValidityFamily<E> as Monad<A, C>>::bound(
            this,
            |a: A, s: Validity<C, E>|
                exists|m: Validity<B, E>|
                    #[trigger] first(a, m) && <ValidityFamily<E> as Monad<B, C>>::bound(m, second, s),
            out,
        ),
{
    if let Validity::Valid(a) = this {
        assert(first(a, mid) && <ValidityFamily<E> as Monad<B, C>>::bound(mid, second, out));
    }
}

/// Mapping is binding with a function that wraps its result.
pub proof fn lemma_validity_map_is_bind<A, B, E: SemiGroup>(
    this: Validity<A, E>,
    rel: spec_fn(A, B) -> bool,
    out: Validity<B, E>,
)
    ensures
        <ValidityFamily<E> as Functor<A, B>>::mapped(this, rel, out) <==> <ValidityFamily<
            E,
        > as Monad<A, B>>::bound(
            this,
            |a: A, s: Validity<B, E>|
                exists|b: B| #[trigger] rel(a, b) && s == <ValidityFamily<E> as Pure<B>>::pure_of(b),
            out,
        ),
{
    if let (Validity::Valid(a), Validity::Valid(b)) = (this, out) {
        if rel(a, b) {
            assert(rel(a, b) && out == <ValidityFamily<E> as Pure<B>>::pure_of(b));
        }
    }
}

} // verus!
