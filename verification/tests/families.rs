use hkt::stable::{Applicative, Compose, Functor, Monad, Pure, Traverse};
use hkt::trait_aliases::{Concrete, Generic};
use hkt::tree::{Tree, TreeFamily};
use hkt::OptionFamily;

fn tip<A>(value: A) -> Tree<A> {
    Tree::Tip(value)
}

fn node<A>(left: Tree<A>, right: Tree<A>) -> Tree<A> {
    Tree::Node(Box::new((left, right)))
}

fn sample() -> Tree<u32> {
    node(node(tip(1), node(tip(1), tip(2))), node(tip(3), tip(4)))
}

#[test]
fn foo() {
    let tr: Tree<u32> = sample();

    TreeFamily.map::<_, Concrete>(tr, |x| x + 1);

    let tr: Tree<u32> = sample();

    let x: Option<Tree<u32>> =
        TreeFamily.traverse::<_, Concrete>(OptionFamily, tr, |x: u32| x.checked_sub(1));

    assert_eq!(x, Some(node(node(tip(0), node(tip(0), tip(1))), node(tip(2), tip(3)))));
}

fn leaves<A: Clone>(t: &Tree<A>) -> Vec<A> {
    match t {
        Tree::Tip(a) => vec![a.clone()],
        Tree::Node(children) => {
            let mut out = leaves(&children.0);
            out.extend(leaves(&children.1));
            out
        }
    }
}

#[test]
fn tree_map_adds_one_to_every_tip() {
    let out = TreeFamily.map::<_, Concrete>(sample(), |x: u32| x + 1);
    assert_eq!(out, node(node(tip(2), node(tip(2), tip(3))), node(tip(4), tip(5))));
}

#[test]
fn tree_map_identity_gives_the_tree_back() {
    let out = TreeFamily.map::<_, Concrete>(sample(), |x: u32| x);
    assert_eq!(out, sample());
}

#[test]
fn tree_map_composition() {
    let twice = TreeFamily.map::<_, Concrete>(
        TreeFamily.map::<_, Concrete>(sample(), |x: u32| x + 1),
        |x: u32| x * 10,
    );
    let once = TreeFamily.map::<_, Concrete>(sample(), |x: u32| (x + 1) * 10);
    assert_eq!(twice, once);
}

#[test]
fn tree_map_with_generic_tag_and_stateful_closure() {
    let mut seen = Vec::new();
    let out = TreeFamily.map::<_, Concrete>(sample(), |x: u32| {
        seen.push(x);
        x
    });
    assert_eq!(out, sample());
    assert_eq!(seen, vec![1, 1, 2, 3, 4]);
    let out = TreeFamily.map::<_, Generic<u32>>(sample(), |x: u32| x * 2);
    assert_eq!(leaves(&out), vec![2, 2, 4, 6, 8]);
}

#[test]
fn tree_pure_is_a_tip() {
    assert_eq!(Pure::<u32>::pure(TreeFamily, 7), tip(7));
}

#[test]
fn tree_lift_a2_same_shape_combines_tip_by_tip() {
    let a = node(tip(1u32), node(tip(2), tip(3)));
    let b = node(tip(10u32), node(tip(20), tip(30)));
    let out = TreeFamily.lift_a2::<u32, _, Concrete>(a, b, |(x, y): (u32, u32)| x + y);
    assert_eq!(out, node(tip(11), node(tip(22), tip(33))));
}

#[test]
fn tree_lift_a2_tip_meets_leftmost_tip() {
    let b = node(node(tip(5u32), tip(6)), tip(7));
    let out = TreeFamily.lift_a2::<u32, _, Concrete>(tip(100u32), b, |(x, y): (u32, u32)| x + y);
    assert_eq!(out, tip(105));
}

#[test]
fn tree_lift_a2_node_brings_rightmost_tip() {
    let a = node(tip(5u32), node(tip(6), tip(7)));
    let out = TreeFamily.lift_a2::<u32, _, Concrete>(a, tip(100u32), |(x, y): (u32, u32)| x + y);
    assert_eq!(out, tip(107));
}

#[test]
fn tree_lift_a2_different_shapes() {
    let a = node(tip(1u32), tip(2));
    let b = node(node(tip(10u32), tip(20)), node(tip(30), tip(40)));
    let out = TreeFamily.lift_a2::<u32, _, Concrete>(a, b, |(x, y): (u32, u32)| x + y);
    assert_eq!(out, node(tip(11), tip(32)));
}

#[test]
fn tree_bind_replaces_tips_with_trees() {
    let out = TreeFamily.bind::<_, Concrete>(node(tip(1u32), tip(2)), |x: u32| node(tip(x), tip(x * 10)));
    assert_eq!(out, node(node(tip(1), tip(10)), node(tip(2), tip(20))));
}

#[test]
fn tree_bind_left_identity() {
    let f = |x: u32| node(tip(x), tip(x + 1));
    let out = TreeFamily.bind::<_, Concrete>(Pure::<u32>::pure(TreeFamily, 4), f);
    assert_eq!(out, f(4));
}

#[test]
fn tree_bind_right_identity() {
    let out = TreeFamily.bind::<_, Concrete>(sample(), |x: u32| Tree::Tip(x));
    assert_eq!(out, sample());
}

#[test]
fn tree_bind_associative() {
    let f = |x: u32| node(tip(x), tip(x + 1));
    let g = |x: u32| if x % 2 == 0 { tip(x) } else { node(tip(x), tip(0)) };
    let left = TreeFamily.bind::<_, Concrete>(TreeFamily.bind::<_, Concrete>(sample(), f), g);
    let right = TreeFamily.bind::<_, Concrete>(sample(), |x: u32| TreeFamily.bind::<_, Concrete>(f(x), g));
    assert_eq!(left, right);
}

#[test]
fn tree_map_is_bind_into_tips() {
    let mapped = TreeFamily.map::<_, Concrete>(sample(), |x: u32| x * 3);
    let bound = TreeFamily.bind::<_, Concrete>(sample(), |x: u32| tip(x * 3));
    assert_eq!(mapped, bound);
}

#[test]
fn tree_compose_feeds_first_result_to_second() {
    let out = TreeFamily.compose::<_, _, u32, Concrete>(
        |x: u32| node(tip(x), tip(x + 1)),
        |y: u32| tip(y * 2),
        5,
    );
    assert_eq!(out, node(tip(10), tip(12)));
}

#[test]
fn tree_traverse_with_option_fails_on_one_tip() {
    let tr = node(tip(3u32), node(tip(0), tip(2)));
    let x: Option<Tree<u32>> =
        TreeFamily.traverse::<_, Concrete>(OptionFamily, tr, |x: u32| x.checked_sub(1));
    assert_eq!(x, None);
}

#[test]
fn tree_traverse_single_tip() {
    let x: Option<Tree<u32>> =
        TreeFamily.traverse::<_, Concrete>(OptionFamily, tip(9u32), |x: u32| x.checked_sub(1));
    assert_eq!(x, Some(tip(8)));
}

#[test]
fn tree_traverse_with_trees_combines_branches() {
    let tr = node(tip(1u32), tip(2));
    let x: Tree<Tree<u32>> = TreeFamily.traverse::<_, Concrete>(TreeFamily, tr, |x: u32| tip(x * 5));
    assert_eq!(x, tip(node(tip(5), tip(10))));
}

fn check_odd(x: u32) -> hkt::validity::Validity<u32, Vec<u32>> {
    if x % 2 == 1 {
        hkt::validity::Validity::Valid(x)
    } else {
        hkt::validity::Validity::Invalid(vec![x])
    }
}

#[test]
fn tree_traverse_with_validity_gathers_errors_in_leaf_order() {
    let app: hkt::stable::validity::ValidityFamily<Vec<u32>> =
        hkt::stable::validity::ValidityFamily(std::marker::PhantomData);
    let tr = node(tip(20u32), node(node(tip(1), tip(30)), tip(4)));
    let out = TreeFamily.traverse::<_, Concrete>(app, tr, check_odd);
    match out {
        hkt::validity::Validity::Invalid(errors) => assert_eq!(errors, vec![20, 30, 4]),
        hkt::validity::Validity::Valid(_) => panic!("expected the errors of the even tips"),
    }
}

#[test]
fn tree_traverse_with_validity_all_valid() {
    let app: hkt::stable::validity::ValidityFamily<Vec<u32>> =
        hkt::stable::validity::ValidityFamily(std::marker::PhantomData);
    let tr = node(tip(3u32), node(tip(5), tip(7)));
    let out = TreeFamily.traverse::<_, Concrete>(app, tr, check_odd);
    match out {
        hkt::validity::Validity::Valid(t) => assert_eq!(t, node(tip(3), node(tip(5), tip(7)))),
        hkt::validity::Validity::Invalid(_) => panic!("every tip is odd"),
    }
}

#[test]
fn tree_map_after_lift_a2_is_one_lift_a2() {
    let a = node(tip(1u32), node(tip(2), tip(3)));
    let b = node(node(tip(10u32), tip(20)), tip(30));
    let lifted = TreeFamily.lift_a2::<u32, _, Concrete>(a, b, |(x, y): (u32, u32)| x + y);
    let mapped = TreeFamily.map::<_, Concrete>(lifted, |z: u32| z * 2);
    let a = node(tip(1u32), node(tip(2), tip(3)));
    let b = node(node(tip(10u32), tip(20)), tip(30));
    let once = TreeFamily.lift_a2::<u32, _, Concrete>(a, b, |(x, y): (u32, u32)| (x + y) * 2);
    assert_eq!(mapped, once);
    assert_eq!(once, node(tip(22), tip(66)));
}

#[test]
fn tree_lift_a2_of_mapped_trees() {
    let a = TreeFamily.map::<_, Concrete>(node(tip(1u32), tip(2)), |x: u32| x + 1);
    let b = TreeFamily.map::<_, Concrete>(node(tip(5u32), node(tip(6), tip(7))), |y: u32| y * 10);
    let out = TreeFamily.lift_a2::<u32, _, Concrete>(a, b, |(x, y): (u32, u32)| x + y);
    let direct = TreeFamily.lift_a2::<u32, _, Concrete>(
        node(tip(1u32), tip(2)),
        node(tip(5u32), node(tip(6), tip(7))),
        |(x, y): (u32, u32)| (x + 1) + y * 10,
    );
    assert_eq!(out, direct);
    assert_eq!(out, node(tip(52), tip(63)));
}

#[test]
fn tree_traverse_with_option_of_some_is_some_map() {
    let tr = node(tip(1u32), node(tip(2), tip(3)));
    let x: Option<Tree<u32>> =
        TreeFamily.traverse::<_, Concrete>(OptionFamily, tr, |x: u32| Some(x + 100));
    assert_eq!(x, Some(node(tip(101), node(tip(102), tip(103)))));
}

#[test]
fn tree_traverse_of_mapped_tree() {
    let mapped = TreeFamily.map::<_, Concrete>(node(tip(4u32), tip(6)), |x: u32| x / 2);
    let x: Option<Tree<u32>> =
        TreeFamily.traverse::<_, Concrete>(OptionFamily, mapped, |x: u32| x.checked_sub(2));
    let y: Option<Tree<u32>> = TreeFamily.traverse::<_, Concrete>(
        OptionFamily,
        node(tip(4u32), tip(6)),
        |x: u32| (x / 2).checked_sub(2),
    );
    assert_eq!(x, y);
    assert_eq!(x, Some(node(tip(0), tip(1))));
}
