//! Behavior of the dual-consumer splitter and the pair model.

use discrimination::is_pair::{HasFst, HasSnd, IsPair};
use discrimination::split_either::{split_either, SplitEitherLeft, SplitEitherRight};
use either::Either;

#[test]
fn split_delivers_each_item_to_its_own_side() {
    let source: Vec<Either<i32, &str>> = vec![
        Either::Left(1),
        Either::Right("a"),
        Either::Left(2),
        Either::Right("b"),
        Either::Left(3),
    ];
    let mut shared = split_either(source);
    let lh = SplitEitherLeft;
    let rh = SplitEitherRight;
    assert_eq!(lh.next(&mut shared), Some(1));
    assert_eq!(rh.next(&mut shared), Some("a"));
    assert_eq!(lh.next(&mut shared), Some(2));
    assert_eq!(rh.next(&mut shared), Some("b"));
    assert_eq!(lh.next(&mut shared), Some(3));
    assert_eq!(lh.next(&mut shared), None);
    assert_eq!(rh.next(&mut shared), None);
}

#[test]
fn split_buffers_items_seen_while_scanning_for_the_other_tag() {
    let source: Vec<Either<i32, i32>> = vec![
        Either::Right(10),
        Either::Right(20),
        Either::Left(1),
        Either::Right(30),
    ];
    let mut shared = split_either(source);
    let lh = SplitEitherLeft;
    let rh = SplitEitherRight;
    // the left pull walks over the two leading rights and buffers them
    assert_eq!(lh.next(&mut shared), Some(1));
    assert_eq!(rh.size_hint(&shared), (2, Some(3)));
    assert_eq!(rh.next(&mut shared), Some(10));
    assert_eq!(rh.next(&mut shared), Some(20));
    assert_eq!(rh.next(&mut shared), Some(30));
    assert_eq!(rh.next(&mut shared), None);
    assert_eq!(lh.next(&mut shared), None);
}

#[test]
fn split_supports_interleaved_front_and_back_pulls() {
    let source: Vec<Either<i32, &str>> = vec![
        Either::Left(1),
        Either::Right("a"),
        Either::Left(2),
        Either::Right("b"),
        Either::Left(3),
    ];
    let mut shared = split_either(source);
    let lh = SplitEitherLeft;
    let rh = SplitEitherRight;
    assert_eq!(lh.next_back(&mut shared), Some(3));
    assert_eq!(rh.next_back(&mut shared), Some("b"));
    assert_eq!(lh.next(&mut shared), Some(1));
    assert_eq!(lh.next(&mut shared), Some(2));
    assert_eq!(lh.next(&mut shared), None);
    assert_eq!(rh.next(&mut shared), Some("a"));
    assert_eq!(rh.next(&mut shared), None);
}

#[test]
fn split_back_pulls_preserve_source_order_per_tag() {
    let source: Vec<Either<i32, i32>> = vec![
        Either::Left(1),
        Either::Left(2),
        Either::Right(10),
        Either::Left(3),
    ];
    let mut shared = split_either(source);
    let lh = SplitEitherLeft;
    let rh = SplitEitherRight;
    assert_eq!(lh.next_back(&mut shared), Some(3));
    assert_eq!(lh.next_back(&mut shared), Some(2));
    assert_eq!(lh.next_back(&mut shared), Some(1));
    assert_eq!(lh.next_back(&mut shared), None);
    // the right item walked over during back scans is buffered and counted
    assert_eq!(rh.size_hint(&shared), (1, Some(1)));
    assert_eq!(rh.next(&mut shared), Some(10));
    assert_eq!(rh.next(&mut shared), None);
}

#[test]
fn split_size_hints_bound_what_is_owed() {
    let source: Vec<Either<i32, i32>> =
        vec![Either::Left(1), Either::Right(2), Either::Left(3)];
    let mut shared = split_either(source);
    let lh = SplitEitherLeft;
    let rh = SplitEitherRight;
    assert_eq!(lh.size_hint(&shared), (0, Some(3)));
    assert_eq!(rh.size_hint(&shared), (0, Some(3)));
    assert_eq!(lh.next(&mut shared), Some(1));
    assert_eq!(lh.next(&mut shared), Some(3));
    // everything left in the buffers is exactly the right side's item
    assert_eq!(rh.size_hint(&shared), (1, Some(1)));
}

#[test]
fn split_of_a_single_sided_stream() {
    let source: Vec<Either<i32, i32>> =
        vec![Either::Left(7), Either::Left(8), Either::Left(9)];
    let mut shared = split_either(source);
    let lh = SplitEitherLeft;
    let rh = SplitEitherRight;
    assert_eq!(rh.next(&mut shared), None);
    assert_eq!(lh.next(&mut shared), Some(7));
    assert_eq!(lh.next(&mut shared), Some(8));
    assert_eq!(lh.next(&mut shared), Some(9));
    assert_eq!(lh.next(&mut shared), None);
}

#[test]
fn pairs_expose_their_components() {
    let p = (4u32, "four");
    assert_eq!(p.fst_ref(), &4u32);
    assert_eq!(p.snd_ref(), &"four");
    assert_eq!(p.fst(), 4u32);
    assert_eq!((4u32, "four").snd(), "four");
}

#[test]
fn pairs_convert_and_flip() {
    let p = (1i32, 'x');
    assert_eq!(p.as_pair_ref(), &(1i32, 'x'));
    assert_eq!(p.into_pair(), (1i32, 'x'));
    assert_eq!(<(i32, char)>::from_pair((2, 'y')), (2, 'y'));
    assert_eq!((3i32, 'z').flip(), ('z', 3i32));
}
