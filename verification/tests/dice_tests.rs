use war_odds::dice::Dice;

fn faces(hand: &Dice) -> [i32; 3] {
    [hand.face(0), hand.face(1), hand.face(2)]
}

#[test]
fn new_hand_has_no_die_in_play() {
    assert_eq!(faces(&Dice::new()), [0, 0, 0]);
}

#[test]
fn from_faces_orders_highest_first() {
    assert_eq!(faces(&Dice::from_faces(2, 6, 4)), [6, 4, 2]);
    assert_eq!(faces(&Dice::from_faces(6, 4, 2)), [6, 4, 2]);
    assert_eq!(faces(&Dice::from_faces(4, 2, 6)), [6, 4, 2]);
    assert_eq!(faces(&Dice::from_faces(1, 1, 5)), [5, 1, 1]);
    assert_eq!(faces(&Dice::from_faces(3, 3, 3)), [3, 3, 3]);
}

#[test]
fn from_faces_puts_idle_slots_last() {
    assert_eq!(faces(&Dice::from_faces(0, 5, 0)), [5, 0, 0]);
    assert_eq!(faces(&Dice::from_faces(0, 2, 4)), [4, 2, 0]);
}

#[test]
fn roll_throws_at_most_three_dice() {
    for (nrolls, thrown) in [(-4, 0), (0, 0), (1, 1), (2, 2), (3, 3), (4, 3), (i32::MAX, 3), (i32::MIN, 0)] {
        for _ in 0..200 {
            let mut hand = Dice::new();
            hand.roll(nrolls);
            let f = faces(&hand);
            let in_play = f.iter().filter(|v| **v != 0).count();
            assert_eq!(in_play, thrown);
            assert!(f[0] >= f[1] && f[1] >= f[2]);
            assert!(f.iter().all(|v| (0..=6).contains(v)));
            assert!(f.iter().take(thrown).all(|v| (1..=6).contains(v)));
        }
    }
}

#[test]
fn roll_overwrites_the_previous_hand() {
    let mut hand = Dice::from_faces(6, 6, 6);
    hand.roll(0);
    assert_eq!(faces(&hand), [0, 0, 0]);
}

#[test]
fn roll_draws_every_face() {
    let mut seen = [false; 7];
    for _ in 0..2000 {
        let mut hand = Dice::new();
        hand.roll(1);
        seen[hand.face(0) as usize] = true;
    }
    assert!(!seen[0]);
    assert!(seen[1..].iter().all(|s| *s));
}

#[test]
fn roll_draws_each_die_on_its_own() {
    let mut differing = 0;
    for _ in 0..2000 {
        let mut hand = Dice::new();
        hand.roll(3);
        if hand.face(0) != hand.face(2) {
            differing += 1;
        }
    }
    // Three independent dice all agree once in 36 rolls.
    assert!(differing > 1800);
}

#[test]
fn compare_counts_larger_equal_smaller() {
    let a = Dice::from_faces(6, 4, 2);
    let b = Dice::from_faces(5, 4, 3);
    assert_eq!(a.compare(&b, 3), (1, 1, 1));
    assert_eq!(a.compare(&b, 2), (1, 1, 0));
    assert_eq!(a.compare(&b, 1), (1, 0, 0));
    assert_eq!(a.compare(&b, 0), (0, 0, 0));
    assert_eq!(b.compare(&a, 3), (1, 1, 1));
    assert_eq!(b.compare(&a, 1), (0, 0, 1));
}

#[test]
fn compare_leaves_positions_beyond_the_count_alone() {
    let a = Dice::from_faces(6, 6, 6);
    let b = Dice::from_faces(1, 1, 1);
    assert_eq!(a.compare(&b, 2), (2, 0, 0));
    assert_eq!(b.compare(&a, 2), (0, 0, 2));
}

#[test]
fn compare_treats_an_idle_slot_as_the_smaller_value() {
    let a = Dice::from_faces(3, 0, 0);
    let b = Dice::from_faces(3, 2, 0);
    assert_eq!(a.compare(&b, 3), (0, 2, 1));
    assert_eq!(b.compare(&a, 3), (1, 2, 0));
}

#[test]
fn compare_tallies_add_up_to_the_count() {
    for x in 0..=6 {
        for y in 0..=6 {
            let a = Dice::from_faces(x, 3, 5);
            let b = Dice::from_faces(4, y, 2);
            for n in 0..=3usize {
                let (larger, equal, smaller) = a.compare(&b, n);
                assert_eq!((larger + equal + smaller) as usize, n);
                assert!(larger >= 0 && equal >= 0 && smaller >= 0);
            }
        }
    }
}
