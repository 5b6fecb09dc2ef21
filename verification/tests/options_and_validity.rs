use std::marker::PhantomData;

use hkt::stable::validity::ValidityFamily;
use hkt::stable::{Applicative, Compose, Functor, Monad, Pure, SemiGroup};
use hkt::trait_aliases::{Call, CallMut, CallOnce, Callable, Concrete, Generic, MaybeOwned};
use hkt::validity::Validity;
use hkt::OptionFamily;

fn vf() -> ValidityFamily<Vec<&'static str>> {
    ValidityFamily(PhantomData)
}

fn valid_value<T: Copy, E>(v: &Validity<T, E>) -> Option<T> {
    match v {
        Validity::Valid(x) => Some(*x),
        Validity::Invalid(_) => None,
    }
}

fn errors<T, E: Clone>(v: &Validity<T, E>) -> Option<E> {
    match v {
        Validity::Valid(_) => None,
        Validity::Invalid(e) => Some(e.clone()),
    }
}

#[test]
fn option_map() {
    assert_eq!(OptionFamily.map::<_, Concrete>(Some(3u32), |x: u32| x * 2), Some(6));
    assert_eq!(OptionFamily.map::<_, Concrete>(None::<u32>, |x: u32| x * 2), None);
}

#[test]
fn option_map_identity_and_composition() {
    assert_eq!(OptionFamily.map::<_, Concrete>(Some(3u32), |x: u32| x), Some(3));
    let twice = OptionFamily.map::<_, Concrete>(
        OptionFamily.map::<_, Concrete>(Some(3u32), |x: u32| x + 1),
        |x: u32| x * 10,
    );
    assert_eq!(twice, OptionFamily.map::<_, Concrete>(Some(3u32), |x: u32| (x + 1) * 10));
}

#[test]
fn option_map_with_owned_once_closure() {
    let text = String::from("abc");
    let out = OptionFamily.map::<_, Concrete>(Some(1usize), move |n: usize| {
        let mut s = text;
        s.truncate(n);
        s
    });
    assert_eq!(out, Some(String::from("a")));
}

#[test]
fn option_pure_and_lift_a2() {
    assert_eq!(Pure::<u32>::pure(OptionFamily, 2), Some(2));
    let add = |(x, y): (u32, u32)| x + y;
    assert_eq!(OptionFamily.lift_a2::<u32, _, Concrete>(Some(2u32), Some(3u32), add), Some(5));
    assert_eq!(OptionFamily.lift_a2::<u32, _, Concrete>(None, Some(3u32), add), None);
    assert_eq!(OptionFamily.lift_a2::<u32, _, Concrete>(Some(2u32), None, add), None);
    assert_eq!(OptionFamily.lift_a2::<u32, _, Concrete>(None::<u32>, None::<u32>, add), None);
}

#[test]
fn option_bind_laws() {
    let f = |x: u32| if x > 2 { Some(x - 2) } else { None };
    let g = |x: u32| x.checked_mul(3);
    assert_eq!(OptionFamily.bind::<_, Concrete>(Some(5u32), f), f(5));
    assert_eq!(OptionFamily.bind::<_, Concrete>(Some(5u32), |x: u32| Some(x)), Some(5));
    assert_eq!(OptionFamily.bind::<_, Concrete>(None::<u32>, f), None);
    for start in [None, Some(1u32), Some(7u32)] {
        let left = OptionFamily.bind::<_, Concrete>(OptionFamily.bind::<_, Concrete>(start, f), g);
        let right = OptionFamily.bind::<_, Concrete>(start, |x: u32| OptionFamily.bind::<_, Concrete>(f(x), g));
        assert_eq!(left, right);
    }
}

#[test]
fn option_compose() {
    let out = OptionFamily.compose::<_, _, u32, Concrete>(|x: u32| Some(x + 1), |y: u32| Some(y * 2), 4);
    assert_eq!(out, Some(10));
    let out = OptionFamily.compose::<_, _, u32, Concrete>(|_x: u32| None::<u32>, |y: u32| Some(y * 2), 4);
    assert_eq!(out, None);
}

#[test]
fn validity_map() {
    let out = vf().map::<_, Concrete>(Validity::Valid(4u32), |x: u32| x + 1);
    assert_eq!(valid_value(&out), Some(5));
    let out = vf().map::<_, Concrete>(Validity::Invalid(vec!["bad"]), |x: u32| x + 1);
    assert_eq!(errors(&out), Some(vec!["bad"]));
}

#[test]
fn validity_lift_a2_accumulates_errors() {
    let add = |(x, y): (u32, u32)| x + y;
    let out = vf().lift_a2::<u32, _, Concrete>(Validity::Valid(1u32), Validity::Valid(2u32), add);
    assert_eq!(valid_value(&out), Some(3));
    let out = vf().lift_a2::<u32, _, Concrete>(
        Validity::<u32, _>::Invalid(vec!["first"]),
        Validity::<u32, _>::Invalid(vec!["second", "third"]),
        add,
    );
    assert_eq!(errors(&out), Some(vec!["first", "second", "third"]));
    let out = vf().lift_a2::<u32, _, Concrete>(Validity::Invalid(vec!["left"]), Validity::Valid(2u32), add);
    assert_eq!(errors(&out), Some(vec!["left"]));
    let out = vf().lift_a2::<u32, _, Concrete>(Validity::Valid(1u32), Validity::Invalid(vec!["right"]), add);
    assert_eq!(errors(&out), Some(vec!["right"]));
}

#[test]
fn validity_lift_a2_with_string_errors() {
    let fam: ValidityFamily<String> = ValidityFamily(PhantomData);
    let out = fam.lift_a2::<u32, _, Concrete>(
        Validity::<u32, _>::Invalid(String::from("ab")),
        Validity::<u32, _>::Invalid(String::from("cd")),
        |(x, y): (u32, u32)| x + y,
    );
    assert_eq!(errors(&out), Some(String::from("abcd")));
}

#[test]
fn validity_bind_stops_at_first_error() {
    let f = |x: u32| {
        if x > 0 {
            Validity::Valid(x - 1)
        } else {
            Validity::Invalid(vec!["zero"])
        }
    };
    assert_eq!(valid_value(&vf().bind::<_, Concrete>(Validity::Valid(3u32), f)), Some(2));
    assert_eq!(errors(&vf().bind::<_, Concrete>(Validity::Valid(0u32), f)), Some(vec!["zero"]));
    assert_eq!(errors(&vf().bind::<_, Concrete>(Validity::Invalid(vec!["early"]), f)), Some(vec!["early"]));
    let out = vf().bind::<_, Concrete>(Pure::<u32>::pure(vf(), 6u32), |x: u32| Validity::Valid(x));
    assert_eq!(valid_value(&out), Some(6));
}

#[test]
fn validity_family_copies() {
    let fam = vf();
    let copy = fam;
    let cloned = fam.clone();
    assert_eq!(valid_value(&Pure::<u32>::pure(copy, 1)), Some(1));
    assert_eq!(valid_value(&Pure::<u32>::pure(cloned, 2)), Some(2));
}

#[test]
fn semigroup_append() {
    assert_eq!(SemiGroup::append(vec![1, 2], vec![3]), vec![1, 2, 3]);
    assert_eq!(SemiGroup::append(Vec::<u8>::new(), Vec::new()), Vec::<u8>::new());
    assert_eq!(SemiGroup::append(String::from("ab"), String::from("c")), String::from("abc"));
    SemiGroup::append((), ());
    let left = SemiGroup::append(SemiGroup::append(vec![1], vec![2]), vec![3]);
    let right = SemiGroup::append(vec![1], SemiGroup::append(vec![2], vec![3]));
    assert_eq!(left, right);
}

#[test]
fn callable_concrete_kinds() {
    let out = <CallOnce<u32> as Callable<_, Concrete>>::call(4, MaybeOwned::Owned(|x: u32| x + 1));
    assert_eq!(out, 5);
    let mut count = 0;
    let mut bump = |x: u32| {
        count += 1;
        x * 2
    };
    let out = <CallMut<u32> as Callable<_, Concrete>>::call(4, MaybeOwned::Mut(&mut bump));
    assert_eq!(out, 8);
    assert_eq!(count, 1);
    let double = |x: u32| x * 2;
    let out = <Call<u32> as Callable<_, Concrete>>::call(4, MaybeOwned::Ref(&double));
    assert_eq!(out, 8);
}

#[test]
fn callable_generic_accepts_every_passing() {
    let double = |x: u32| x * 2;
    assert_eq!(<CallOnce<u32> as Callable<_, Generic<u32>>>::call(1, MaybeOwned::Owned(double)), 2);
    let mut d = double;
    assert_eq!(<CallMut<u32> as Callable<_, Generic<u32>>>::call(2, MaybeOwned::Mut(&mut d)), 4);
    assert_eq!(<Call<u32> as Callable<_, Generic<u32>>>::call(3, MaybeOwned::Ref(&double)), 6);
}

#[test]
fn builders() {
    let once = CallOnce::<u32>::build::<_, Concrete>(|x: u32| x + 1);
    assert_eq!(once(1), 2);
    let shared = Call::<u32>::build::<_, Concrete>(|x: u32| x * 3);
    assert_eq!(shared(2), 6);
    assert_eq!(shared(3), 9);
    let generic = Call::<u32>::build::<_, Generic<u32>>(|x: u32| x * 4);
    assert_eq!(generic(2), 8);
}

#[test]
fn option_map_is_bind_into_some() {
    for start in [None, Some(4u32)] {
        let mapped = OptionFamily.map::<_, Concrete>(start, |x: u32| x + 7);
        let bound = OptionFamily.bind::<_, Concrete>(start, |x: u32| Some(x + 7));
        assert_eq!(mapped, bound);
    }
}

#[test]
fn validity_functor_and_monad_laws() {
    let start = || Validity::<u32, Vec<&'static str>>::Valid(3);
    let same = vf().map::<_, Concrete>(start(), |x: u32| x);
    assert_eq!(valid_value(&same), Some(3));
    let twice = vf().map::<_, Concrete>(vf().map::<_, Concrete>(start(), |x: u32| x + 1), |x: u32| x * 10);
    let once = vf().map::<_, Concrete>(start(), |x: u32| (x + 1) * 10);
    assert_eq!(valid_value(&twice), valid_value(&once));
    let f = |x: u32| {
        if x % 2 == 1 {
            Validity::Valid(x + 1)
        } else {
            Validity::Invalid(vec!["even"])
        }
    };
    let g = |x: u32| Validity::<u32, Vec<&'static str>>::Valid(x * 2);
    let left = vf().bind::<_, Concrete>(vf().bind::<_, Concrete>(start(), f), g);
    let right = vf().bind::<_, Concrete>(start(), |x: u32| vf().bind::<_, Concrete>(f(x), g));
    assert_eq!(valid_value(&left), Some(8));
    assert_eq!(valid_value(&right), Some(8));
    let mapped = vf().map::<_, Concrete>(Validity::Invalid(vec!["e"]), |x: u32| x + 1);
    let bound = vf().bind::<_, Concrete>(Validity::Invalid(vec!["e"]), |x: u32| Validity::Valid(x + 1));
    assert_eq!(errors(&mapped), errors(&bound));
}

#[test]
fn validity_compose() {
    let out = vf().compose::<_, _, u32, Concrete>(
        |x: u32| Validity::Valid(x + 1),
        |y: u32| Validity::<u32, Vec<&'static str>>::Valid(y * 3),
        1,
    );
    assert_eq!(valid_value(&out), Some(6));
}

#[test]
fn semigroup_empty_vector_is_an_identity() {
    let a = vec!["x", "y"];
    assert_eq!(SemiGroup::append(a.clone(), Vec::new()), a);
    assert_eq!(SemiGroup::append(Vec::new(), a.clone()), a);
}
