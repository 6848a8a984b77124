//! Behavior of the discriminators: grouping, order, bias, and the tiny-input
//! fast paths.

use discrimination::combinators::{IdentityKey, Invert, Product, Rename, Sum};
use discrimination::discriminator::{Discriminator, Natural, Trivial, U16, U8};
use discrimination::groups::DiscriminateSorted;
use either::Either;

fn collect<V>(groups: DiscriminateSorted<V>) -> Vec<Vec<V>> {
    groups
        .into_groups()
        .into_iter()
        .map(|g| g.into_values())
        .collect()
}

#[test]
fn it_works() {}

#[test]
fn natural_groups_by_key_in_ascending_order() {
    let d = Natural::new(3);
    let got = collect(d.discriminate_sorted(vec![(0usize, "a"), (2, "b"), (0, "c"), (1, "d")]));
    assert_eq!(got, vec![vec!["a", "c"], vec!["d"], vec!["b"]]);
}

#[test]
fn trivial_keeps_everything_in_one_group() {
    let d = Trivial::new();
    let got = collect(d.discriminate_sorted(vec![("x", 1), ("y", 2), ("x", 3)]));
    assert_eq!(got, vec![vec![1, 2, 3]]);
}

#[test]
fn invert_reverses_group_order_only() {
    let d = Invert::new(Natural::new(3));
    let got = collect(d.discriminate_sorted(vec![(0usize, "a"), (2, "b"), (0, "c"), (1, "d")]));
    assert_eq!(got, vec![vec!["b"], vec!["d"], vec!["a", "c"]]);
}

#[test]
fn double_invert_is_identity() {
    let pairs = vec![(0usize, "a"), (2, "b"), (0, "c"), (1, "d")];
    let plain = collect(Natural::new(3).discriminate_sorted(pairs.clone()));
    let twice = collect(
        Invert::new(Invert::new(Natural::new(3))).discriminate_sorted(pairs),
    );
    assert_eq!(plain, twice);
}

#[test]
fn rename_with_identity_is_a_noop() {
    let pairs = vec![(0usize, "a"), (2, "b"), (0, "c"), (1, "d")];
    let plain = collect(Natural::new(3).discriminate_sorted(pairs.clone()));
    let renamed = collect(Rename::new(IdentityKey, Natural::new(3)).discriminate_sorted(pairs));
    assert_eq!(plain, renamed);
}

#[test]
fn sum_left_biased_splits_and_concatenates() {
    let d = Sum::left_biased(Natural::new(2), Natural::new(2));
    let pairs: Vec<(Either<usize, usize>, &str)> = vec![
        (Either::Left(0), "a"),
        (Either::Right(1), "b"),
        (Either::Left(1), "c"),
        (Either::Right(0), "d"),
        (Either::Left(0), "e"),
    ];
    let got = collect(d.discriminate_sorted(pairs));
    assert_eq!(
        got,
        vec![vec!["a", "e"], vec!["c"], vec!["d"], vec!["b"]]
    );
}

#[test]
fn sum_right_biased_emits_right_side_first() {
    let d = Sum::right_biased(Natural::new(2), Natural::new(2));
    let pairs: Vec<(Either<usize, usize>, &str)> = vec![
        (Either::Left(0), "a"),
        (Either::Right(1), "b"),
        (Either::Left(1), "c"),
        (Either::Right(0), "d"),
        (Either::Left(0), "e"),
    ];
    let got = collect(d.discriminate_sorted(pairs));
    assert_eq!(
        got,
        vec![vec!["d"], vec!["b"], vec!["a", "e"], vec!["c"]]
    );
}

#[test]
fn sum_conserves_every_value_exactly_once() {
    let d = Sum::left_biased(Natural::new(2), Natural::new(2));
    let pairs: Vec<(Either<usize, usize>, u32)> = vec![
        (Either::Right(0), 10),
        (Either::Left(1), 20),
        (Either::Right(1), 30),
        (Either::Left(1), 40),
        (Either::Right(0), 50),
    ];
    let mut seen: Vec<u32> = collect(d.discriminate_sorted(pairs)).concat();
    seen.sort();
    assert_eq!(seen, vec![10, 20, 30, 40, 50]);
}

#[test]
fn product_left_biased_nests_first_component_outside() {
    let d = Product::left_biased(Natural::new(2), Natural::new(2));
    let pairs: Vec<((usize, usize), &str)> = vec![
        ((0, 1), "a"),
        ((1, 0), "b"),
        ((0, 0), "c"),
        ((0, 1), "d"),
    ];
    let got = collect(d.discriminate_sorted(pairs));
    assert_eq!(got, vec![vec!["c"], vec!["a", "d"], vec!["b"]]);
}

#[test]
fn product_right_biased_nests_second_component_outside() {
    let d = Product::right_biased(Natural::new(2), Natural::new(2));
    let pairs: Vec<((usize, usize), &str)> = vec![
        ((0, 1), "a"),
        ((1, 0), "b"),
        ((0, 0), "c"),
        ((0, 1), "d"),
    ];
    let got = collect(d.discriminate_sorted(pairs));
    assert_eq!(got, vec![vec!["c"], vec!["b"], vec!["a", "d"]]);
}

#[test]
fn product_conserves_every_value_exactly_once() {
    let d = Product::left_biased(Natural::new(3), Natural::new(3));
    let pairs: Vec<((usize, usize), u32)> = vec![
        ((2, 2), 1),
        ((0, 1), 2),
        ((2, 2), 3),
        ((1, 0), 4),
        ((0, 0), 5),
    ];
    let mut seen: Vec<u32> = collect(d.discriminate_sorted(pairs)).concat();
    seen.sort();
    assert_eq!(seen, vec![1, 2, 3, 4, 5]);
}

#[test]
fn u8_groups_bytes_in_ascending_order() {
    let d = U8::new();
    let got = collect(d.discriminate_sorted(vec![(5u8, "x"), (3u8, "y"), (5u8, "z")]));
    assert_eq!(got, vec![vec!["y"], vec!["x", "z"]]);
}

#[test]
fn u8_accepts_extreme_keys() {
    let d = U8::new();
    let got = collect(d.discriminate_sorted(vec![(255u8, "hi"), (0u8, "lo"), (255u8, "hi2")]));
    assert_eq!(got, vec![vec!["lo"], vec!["hi", "hi2"]]);
}

#[test]
fn u16_groups_wide_keys_in_ascending_order() {
    let d = U16::new();
    let got = collect(d.discriminate_sorted(vec![(300u16, 1), (7u16, 2), (300u16, 3)]));
    assert_eq!(got, vec![vec![2], vec![1, 3]]);
}

#[test]
fn empty_input_yields_no_groups() {
    assert_eq!(
        collect(Trivial::new().discriminate_sorted(Vec::<(u8, i32)>::new())),
        Vec::<Vec<i32>>::new()
    );
    assert_eq!(
        collect(Natural::new(4).discriminate_sorted(Vec::<(usize, i32)>::new())),
        Vec::<Vec<i32>>::new()
    );
    assert_eq!(
        collect(Invert::new(Natural::new(4)).discriminate_sorted(Vec::<(usize, i32)>::new())),
        Vec::<Vec<i32>>::new()
    );
    let s = Sum::left_biased(Natural::new(2), Natural::new(2));
    assert_eq!(
        collect(s.discriminate_sorted(Vec::<(Either<usize, usize>, i32)>::new())),
        Vec::<Vec<i32>>::new()
    );
    let p = Product::left_biased(Natural::new(2), Natural::new(2));
    assert_eq!(
        collect(p.discriminate_sorted(Vec::<((usize, usize), i32)>::new())),
        Vec::<Vec<i32>>::new()
    );
}

#[test]
fn singleton_input_yields_one_singleton_group() {
    assert_eq!(
        collect(Trivial::new().discriminate_sorted(vec![("k", 7)])),
        vec![vec![7]]
    );
    assert_eq!(
        collect(Natural::new(4).discriminate_sorted(vec![(3usize, 7)])),
        vec![vec![7]]
    );
    assert_eq!(
        collect(Invert::new(Natural::new(4)).discriminate_sorted(vec![(3usize, 7)])),
        vec![vec![7]]
    );
    let s = Sum::left_biased(Natural::new(2), Natural::new(2));
    let one: Vec<(Either<usize, usize>, i32)> = vec![(Either::Right(1), 7)];
    assert_eq!(collect(s.discriminate_sorted(one)), vec![vec![7]]);
    let p = Product::right_biased(Natural::new(2), Natural::new(2));
    assert_eq!(
        collect(p.discriminate_sorted(vec![((1usize, 0usize), 7)])),
        vec![vec![7]]
    );
}

#[test]
fn natural_grouping_is_stable_within_groups() {
    let d = Natural::new(2);
    let got = collect(d.discriminate_sorted(vec![
        (1usize, "p"),
        (0, "q"),
        (1, "r"),
        (1, "s"),
        (0, "t"),
    ]));
    assert_eq!(got, vec![vec!["q", "t"], vec!["p", "r", "s"]]);
}

#[test]
fn groups_pull_from_both_ends() {
    let d = Natural::new(3);
    let mut groups = d.discriminate_sorted(vec![(0usize, "a"), (2, "b"), (0, "c"), (1, "d")]);
    assert_eq!(groups.size_hint(), (3, Some(3)));
    let back = groups.next_back().unwrap();
    assert_eq!(back.into_values(), vec!["b"]);
    let mut front = groups.next().unwrap();
    assert_eq!(front.size_hint(), (2, Some(2)));
    assert_eq!(front.next(), Some("a"));
    assert_eq!(front.next_back(), Some("c"));
    assert_eq!(front.next(), None);
    let mid = groups.next().unwrap();
    assert_eq!(mid.into_values(), vec!["d"]);
    assert!(groups.next().is_none());
    assert_eq!(groups.size_hint(), (0, Some(0)));
}

#[test]
fn pulling_groups_from_the_back_matches_invert() {
    let pairs = vec![(0usize, "a"), (2, "b"), (0, "c"), (1, "d")];
    let mut plain = Natural::new(3).discriminate_sorted(pairs.clone());
    let inverted = collect(Invert::new(Natural::new(3)).discriminate_sorted(pairs));
    let mut back_to_front = Vec::new();
    while let Some(g) = plain.next_back() {
        back_to_front.push(g.into_values());
    }
    assert_eq!(back_to_front, inverted);
}

#[test]
fn builder_methods_compose_like_the_constructors() {
    let pairs = vec![(0usize, "a"), (2, "b"), (0, "c"), (1, "d")];
    let built = collect(
        <Natural as Discriminator<usize, &str>>::invert(Natural::new(3))
            .discriminate_sorted(pairs.clone()),
    );
    let direct = collect(Invert::new(Natural::new(3)).discriminate_sorted(pairs.clone()));
    assert_eq!(built, direct);
    let renamed = collect(
        <Natural as Discriminator<usize, &str>>::map_key(Natural::new(3), IdentityKey)
            .discriminate_sorted(pairs.clone()),
    );
    assert_eq!(renamed, collect(Natural::new(3).discriminate_sorted(pairs.clone())));
    let by_ref_groups = {
        let d = Natural::new(3);
        collect(
            <Natural as Discriminator<usize, &str>>::by_ref(&d).discriminate_sorted(pairs.clone()),
        )
    };
    assert_eq!(by_ref_groups, collect(Natural::new(3).discriminate_sorted(pairs)));
}

#[test]
fn sum_builders_set_the_bias() {
    let pairs: Vec<(Either<usize, usize>, &str)> = vec![
        (Either::Left(0), "a"),
        (Either::Right(0), "b"),
        (Either::Left(1), "c"),
    ];
    let left_first = collect(
        <Natural as Discriminator<usize, &str>>::sum_left(Natural::new(2), Natural::new(2))
            .discriminate_sorted(pairs.clone()),
    );
    assert_eq!(left_first, vec![vec!["a"], vec!["c"], vec!["b"]]);
    let right_first = collect(
        <Natural as Discriminator<usize, &str>>::sum_right(Natural::new(2), Natural::new(2))
            .discriminate_sorted(pairs),
    );
    assert_eq!(right_first, vec![vec!["b"], vec!["a"], vec!["c"]]);
}

#[test]
fn product_builders_set_the_bias() {
    let pairs: Vec<((usize, usize), &str)> = vec![((0, 1), "a"), ((1, 0), "b"), ((0, 0), "c")];
    let left_first = collect(
        <Natural as Discriminator<usize, &str>>::product_left(Natural::new(2), Natural::new(2))
            .discriminate_sorted(pairs.clone()),
    );
    assert_eq!(left_first, vec![vec!["c"], vec!["a"], vec!["b"]]);
    let right_first = collect(
        <Natural as Discriminator<usize, &str>>::product_right(Natural::new(2), Natural::new(2))
            .discriminate_sorted(pairs),
    );
    assert_eq!(right_first, vec![vec!["c"], vec!["b"], vec!["a"]]);
}

#[test]
fn natural_reports_its_limit() {
    let d = Natural::new(17);
    assert_eq!(d.limit(), 17);
}

#[test]
fn nested_composition_through_box_free_combinators() {
    // a rename inside an invert inside a sum, all in one pass
    let d = Sum::left_biased(
        Invert::new(Rename::new(IdentityKey, Natural::new(2))),
        Trivial::new(),
    );
    let pairs: Vec<(Either<usize, &str>, i32)> = vec![
        (Either::Left(1), 1),
        (Either::Right("z"), 2),
        (Either::Left(0), 3),
        (Either::Right("w"), 4),
    ];
    let got = collect(d.discriminate_sorted(pairs));
    assert_eq!(got, vec![vec![1], vec![3], vec![2, 4]]);
}
