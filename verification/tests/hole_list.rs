use anyslab::holes::{first_fit, give, has_room, neighbours, take};
use anyslab::Hole;

fn hole(from: usize, to: usize) -> Hole {
    Hole { from, to }
}

#[test]
fn first_fit_takes_the_first_that_is_large_enough() {
    let holes = vec![hole(0, 4), hole(100, 108), hole(20, 40), hole(50, usize::MAX)];
    assert_eq!(first_fit(&holes, 1), 0);
    assert_eq!(first_fit(&holes, 4), 0);
    assert_eq!(first_fit(&holes, 5), 1);
    assert_eq!(first_fit(&holes, 8), 1);
    assert_eq!(first_fit(&holes, 9), 2);
    assert_eq!(first_fit(&holes, 21), 3);
}

#[test]
fn take_moves_the_rest_to_the_end() {
    let mut holes = vec![hole(0, 4), hole(10, 30), hole(50, usize::MAX)];
    assert_eq!(take(&mut holes, 8), 10);
    assert_eq!(holes, vec![hole(0, 4), hole(50, usize::MAX), hole(18, 30)]);
}

#[test]
fn take_drops_a_hole_that_is_used_up() {
    let mut holes = vec![hole(0, 4), hole(10, 30), hole(50, usize::MAX)];
    assert_eq!(take(&mut holes, 4), 0);
    assert_eq!(holes, vec![hole(50, usize::MAX), hole(10, 30)]);
    assert_eq!(take(&mut holes, usize::MAX - 50), 50);
    assert_eq!(holes, vec![hole(10, 30)]);
}

#[test]
fn neighbours_finds_both_sides() {
    let holes = vec![hole(40, 50), hole(0, 4), hole(10, 30)];
    assert_eq!(neighbours(&holes, 30, 40), (Some(2), Some(0)));
    assert_eq!(neighbours(&holes, 4, 10), (Some(1), Some(2)));
    assert_eq!(neighbours(&holes, 4, 8), (Some(1), None));
    assert_eq!(neighbours(&holes, 32, 40), (None, Some(0)));
    assert_eq!(neighbours(&holes, 60, 70), (None, None));
}

#[test]
fn give_without_neighbours_adds_a_hole() {
    let mut holes = vec![hole(0, 4), hole(50, usize::MAX)];
    give(&mut holes, 10, 20);
    assert_eq!(holes, vec![hole(0, 4), hole(50, usize::MAX), hole(10, 20)]);
}

#[test]
fn give_fuses_with_the_left_neighbour() {
    let mut holes = vec![hole(0, 4), hole(50, usize::MAX), hole(30, 40)];
    give(&mut holes, 4, 8);
    assert_eq!(holes, vec![hole(30, 40), hole(50, usize::MAX), hole(0, 8)]);
}

#[test]
fn give_fuses_with_the_right_neighbour() {
    let mut holes = vec![hole(0, 4), hole(50, usize::MAX), hole(30, 40)];
    give(&mut holes, 42, 50);
    assert_eq!(holes, vec![hole(0, 4), hole(30, 40), hole(42, usize::MAX)]);
}

#[test]
fn give_fuses_with_both_neighbours() {
    let mut holes = vec![hole(0, 4), hole(50, usize::MAX), hole(30, 40), hole(10, 20)];
    give(&mut holes, 40, 50);
    assert_eq!(holes, vec![hole(0, 4), hole(10, 20), hole(30, usize::MAX)]);
}

#[test]
fn give_when_the_right_neighbour_is_last() {
    // the right neighbour moves into the left one's place before it leaves
    let mut holes = vec![hole(0, 4), hole(30, 40), hole(10, 20), hole(50, usize::MAX)];
    give(&mut holes, 40, 50);
    assert_eq!(holes, vec![hole(0, 4), hole(10, 20), hole(30, usize::MAX)]);
    let mut holes = vec![hole(0, 4), hole(8, 12)];
    give(&mut holes, 4, 8);
    assert_eq!(holes, vec![hole(0, 12)]);
}

#[test]
fn has_room_looks_at_every_hole() {
    let holes = vec![hole(0, 4), hole(10, 30)];
    assert!(has_room(&holes, 4));
    assert!(has_room(&holes, 20));
    assert!(!has_room(&holes, 21));
    assert!(!has_room(&Vec::new(), 1));
}
