use vstd::prelude::*;

verus! {

/// A callable handed over by value, by unique reference or by shared reference.
pub enum MaybeOwned<'a, F> {
    Owned(F),
    Mut(&'a mut F),
    Ref(&'a F),
}

/// The three ways in which [`MaybeOwned`] hands a callable over.
pub enum Passing {
    Owned,
    Mut,
    Ref,
}

impl<'a, F> MaybeOwned<'a, F> {
    /// The callable itself, whichever way it is handed over.
    pub open spec fn target(&self) -> F {
        match self {
            MaybeOwned::Owned(f) => *f,
            MaybeOwned::Mut(f) => **f,
            MaybeOwned::Ref(f) => **f,
        }
    }

    /// The way the callable is handed over.
    pub open spec fn passing(&self) -> Passing {
        match self {
            MaybeOwned::Owned(_) => Passing::Owned,
            MaybeOwned::Mut(_) => Passing::Mut,
            MaybeOwned::Ref(_) => Passing::Ref,
        }
    }
}

/// Tag of the impls that call a concrete closure kind (`FnOnce`, `FnMut` or `Fn`).
pub struct Concrete;

/// Tag of the impl that calls any `Fn(A)`, whatever the receiving type.
pub struct Generic<A>(A);

/// A way of calling `F` on one argument.
///
/// `pre(f, arg)` says when `f` may be called on `arg`, and `post(f, arg, out)` says
/// which results such a call may give.
///
/// `call` states that a callable handed over by unique reference is left as it was.
/// That holds in Verus's model of closures, in which a closure captures nothing mutably
/// and a call cannot change it; a callable from outside verified code that keeps state
/// from one call to the next (an `FnMut` that updates what it captured) is changed by
/// each call. `call_mut` states instead only that each call takes the callable one
/// [`Self::stepped`] further, so that what is proved through it holds of every order of
/// states, and in particular says in which order a run of calls was made.
pub trait Callable<F, Tag> {
    type Arg;

    type Output;

    /// Whether a callable handed over this way can be called at all.
    spec fn admits(passing: Passing) -> bool;

    spec fn pre(f: F, arg: Self::Arg) -> bool;

    spec fn post(f: F, arg: Self::Arg, out: Self::Output) -> bool;

    fn call(arg: Self::Arg, f: MaybeOwned<'_, F>) -> (out: Self::Output)
        requires
            Self::admits(f.passing()),
            Self::pre(f.target(), arg),
        ensures
            Self::post(f.target(), arg, out),
            f matches MaybeOwned::Mut(m) ==> *final(m) == *m,
    ;

    /// Whether a call of `f` on `arg` that gave `out` may leave the callable as `after`:
    /// the step from one state of the callable to the next.
    spec fn stepped(f: F, arg: Self::Arg, out: Self::Output, after: F) -> bool;

    /// Calls `f`, handed over by unique reference, on `arg`.
    ///
    /// The call takes the callable from its state before to its state after by one
    /// [`Self::stepped`]; what `pre` and `post` say of the callable stays as it was.
    fn call_mut(arg: Self::Arg, f: &mut F) -> (out: Self::Output)
        requires
            Self::admits(Passing::Mut),
            Self::pre(*old(f), arg),
        ensures
            Self::post(*old(f), arg, out),
            Self::stepped(*old(f), arg, out, *final(f)),
            forall|x: Self::Arg| #[trigger] Self::pre(*final(f), x) == Self::pre(*old(f), x),
            forall|x: Self::Arg, y: Self::Output|
                #[trigger] Self::post(*final(f), x, y) == Self::post(*old(f), x, y),
    ;
}

/// One call through `C`: made in state `before` on `arg`, it may give `out` and leave
/// the callable in state `after`.
pub open spec fn call_step<C: Callable<F, Tag>, F, Tag>() -> spec_fn(F, C::Arg, C::Output, F) -> bool {
    |before: F, arg: C::Arg, out: C::Output, after: F|
        C::post(before, arg, out) && C::stepped(before, arg, out, after)
}

/// `states` are the states that a callable goes through when it is called on each of
/// `args` in turn, giving `outs`: the `i`-th call is made in state `states[i]` on
/// `args[i]`, gives `outs[i]` and leaves the callable in state `states[i + 1]`, as
/// `call(before, arg, out, after)` allows.
pub open spec fn called_in_order<F, A, B>(
    states: Seq<F>,
    args: Seq<A>,
    outs: Seq<B>,
    call: spec_fn(F, A, B, F) -> bool,
) -> bool {
    &&& states.len() == args.len() + 1
    &&& outs.len() == args.len()
    &&& forall|i: int| #![trigger args[i]] 0 <= i < args.len() ==> call(states[i], args[i], outs[i], states[i + 1])
}

/// Two runs of calls, the second starting in the state where the first ends, make one
/// run over the arguments of both, in order.
pub proof fn lemma_called_in_order_concat<F, A, B>(
    first: Seq<F>,
    first_args: Seq<A>,
    first_outs: Seq<B>,
    second: Seq<F>,
    second_args: Seq<A>,
    second_outs: Seq<B>,
    call: spec_fn(F, A, B, F) -> bool,
)
    requires
        called_in_order(first, first_args, first_outs, call),
        called_in_order(second, second_args, second_outs, call),
        first.last() == second[0],
    ensures
        called_in_order(
            first + second.drop_first(),
            first_args + second_args,
            first_outs + second_outs,
            call,
        ),
        (first + second.drop_first())[0] == first[0],
        (first + second.drop_first()).last() == second.last(),
{
    let states = first + second.drop_first();
    let args = first_args + second_args;
    let outs = first_outs + second_outs;
    let n = first_args.len();
    assert forall|i: int| 0 <= i < args.len() implies call(states[i], #[trigger] args[i], outs[i], states[i + 1]) by {
        if i < n {
            assert(call(first[i], first_args[i], first_outs[i], first[i + 1]));
        } else {
            let j = i - n;
            assert(call(second[j], second_args[j], second_outs[j], second[j + 1]));
        }
    }
}

/// A single call makes a run of one call.
pub proof fn lemma_called_in_order_one<F, A, B>(
    before: F,
    arg: A,
    out: B,
    after: F,
    call: spec_fn(F, A, B, F) -> bool,
)
    requires
        call(before, arg, out, after),
    ensures
        called_in_order(seq![before, after], seq![arg], seq![out], call),
{
    let states = seq![before, after];
    assert forall|i: int| 0 <= i < 1 implies call(states[i], #[trigger] seq![arg][i], seq![out][i], states[i + 1]) by {
    }
}

impl<T: ?Sized, F: Fn(A) -> B, A, B> Callable<F, Generic<A>> for T {
    type Arg = A;

    type Output = B;

    open spec fn admits(passing: Passing) -> bool {
        true
    }

    open spec fn pre(f: F, arg: A) -> bool {
        call_requires(f, (arg,))
    }

    open spec fn post(f: F, arg: A, out: B) -> bool {
        call_ensures(f, (arg,), out)
    }

    fn call(arg: A, f: MaybeOwned<'_, F>) -> (out: B) {
        let f: &F = match f {
            MaybeOwned::Owned(ref f) => f,
            MaybeOwned::Mut(f) => f,
            MaybeOwned::Ref(f) => f,
        };
        f(arg)
    }

    open spec fn stepped(f: F, arg: A, out: B, after: F) -> bool {
        after == f
    }

    fn call_mut(arg: A, f: &mut F) -> (out: B) {
        let g: &F = f;
        g(arg)
    }
}

/// Calls an `FnOnce(A)`, which it takes by value.
pub struct CallOnce<A>(A);

/// Calls an `FnMut(A)`, which it takes by unique reference.
pub struct CallMut<A>(A);

/// Calls an `Fn(A)`, which it takes by shared reference.
pub struct Call<A>(A);

impl<A> CallOnce<A> {
    /// Turns `f` into a closure that calls it once, by value.
    pub fn build<F, Tag>(f: F) -> (r: impl FnOnce(A) -> <Self as Callable<F, Tag>>::Output) where
        Self: Callable<F, Tag, Arg = A>,
        requires
            Self::admits(Passing::Owned),
        ensures
            forall|a: A| Self::pre(f, a) ==> call_requires(r, (a,)),
            forall|a: A, out| call_ensures(r, (a,), out) ==> Self::post(f, a, out),
    {
        move |a: A| -> (out: <Self as Callable<F, Tag>>::Output)
            requires
                Self::pre(f, a),
            ensures
                Self::post(f, a, out),
            { Self::call(a, MaybeOwned::Owned(f)) }
    }
}

impl<A> Call<A> {
    /// Turns `f` into a closure that calls it by shared reference, as often as needed.
    pub fn build<F, Tag>(f: F) -> (r: impl Fn(A) -> <Self as Callable<F, Tag>>::Output) where
        Self: Callable<F, Tag, Arg = A>,
        requires
            Self::admits(Passing::Ref),
        ensures
            forall|a: A| Self::pre(f, a) ==> call_requires(r, (a,)),
            forall|a: A, out| call_ensures(r, (a,), out) ==> Self::post(f, a, out),
    {
        move |a: A| -> (out: <Self as Callable<F, Tag>>::Output)
            requires
                Self::pre(f, a),
            ensures
                Self::post(f, a, out),
            { Self::call(a, MaybeOwned::Ref(&f)) }
    }
}

impl<F: FnOnce(A) -> B, A, B> Callable<F, Concrete> for CallOnce<A> {
    type Arg = A;

    type Output = B;

    open spec fn admits(passing: Passing) -> bool {
        passing is Owned
    }

    open spec fn pre(f: F, arg: A) -> bool {
        call_requires(f, (arg,))
    }

    open spec fn post(f: F, arg: A, out: B) -> bool {
        call_ensures(f, (arg,), out)
    }

    fn call(arg: A, f: MaybeOwned<'_, F>) -> (out: B) {
        match f {
            MaybeOwned::Owned(f) => f(arg),
            _ => vstd::pervasive::unreached(),
        }
    }

    open spec fn stepped(f: F, arg: A, out: B, after: F) -> bool {
        after == f
    }

    fn call_mut(arg: A, f: &mut F) -> (out: B) {
        vstd::pervasive::unreached()
    }
}

impl<F: FnMut(A) -> B, A, B> Callable<F, Concrete> for CallMut<A> {
    type Arg = A;

    type Output = B;

    open spec fn admits(passing: Passing) -> bool {
        passing is Mut
    }

    open spec fn pre(f: F, arg: A) -> bool {
        call_requires(f, (arg,))
    }

    open spec fn post(f: F, arg: A, out: B) -> bool {
        call_ensures(f, (arg,), out)
    }

    fn call(arg: A, f: MaybeOwned<'_, F>) -> (out: B) {
        match f {
            MaybeOwned::Mut(f) => f(arg),
            _ => vstd::pervasive::unreached(),
        }
    }

    open spec fn stepped(f: F, arg: A, out: B, after: F) -> bool {
        after == f
    }

    fn call_mut(arg: A, f: &mut F) -> (out: B) {
        f(arg)
    }
}

impl<F: Fn(A) -> B, A, B> Callable<F, Concrete> for Call<A> {
    type Arg = A;

    type Output = B;

    open spec fn admits(passing: Passing) -> bool {
        passing is Ref
    }

    open spec fn pre(f: F, arg: A) -> bool {
        call_requires(f, (arg,))
    }

    open spec fn post(f: F, arg: A, out: B) -> bool {
        call_ensures(f, (arg,), out)
    }

    fn call(arg: A, f: MaybeOwned<'_, F>) -> (out: B) {
        match f {
            MaybeOwned::Ref(f) => f(arg),
            _ => vstd::pervasive::unreached(),
        }
    }

    open spec fn stepped(f: F, arg: A, out: B, after: F) -> bool {
        after == f
    }

    fn call_mut(arg: A, f: &mut F) -> (out: B) {
        vstd::pervasive::unreached()
    }
}

} // verus!
