use war_odds::dice::Dice;
use war_odds::estimate::{mean_rate, Mean, TrialTotals, RATE_SCALE};
use war_odds::territory::Territory;

#[test]
fn rate_scale_is_a_million() {
    assert_eq!(RATE_SCALE, 1_000_000);
}

#[test]
fn mean_rate_divides_rounding_down() {
    assert_eq!(mean_rate(0, 1), Some(0));
    assert_eq!(mean_rate(1_000_000, 1), Some(1_000_000));
    assert_eq!(mean_rate(1_000_000, 3), Some(333_333));
    assert_eq!(mean_rate(2_000_000, 3), Some(666_666));
    assert_eq!(mean_rate(1_500_000, 4), Some(375_000));
    assert_eq!(mean_rate(5, 10), Some(0));
    assert_eq!(
        mean_rate(i32::MAX as u64 * 1_000_000, i32::MAX),
        Some(1_000_000)
    );
}

#[test]
fn mean_rate_is_undefined_without_samples() {
    assert_eq!(mean_rate(0, 0), None);
    assert_eq!(mean_rate(10, 0), None);
    assert_eq!(mean_rate(0, -5), None);
}

#[test]
fn mean_rate_refuses_a_total_above_the_samples() {
    assert_eq!(mean_rate(1_000_001, 1), None);
    assert_eq!(mean_rate(u64::MAX, i32::MAX), None);
}

#[test]
fn win_rate_of_totals() {
    let totals = TrialTotals { trials: 8, wins: 3, attacker_left_on_win: 7, defender_left_on_loss: 9 };
    assert_eq!(totals.win_rate(), Some(375_000));
    let none = TrialTotals { trials: 0, wins: 0, attacker_left_on_win: 0, defender_left_on_loss: 0 };
    assert_eq!(none.win_rate(), None);
    let broken = TrialTotals { trials: 4, wins: -1, attacker_left_on_win: 0, defender_left_on_loss: 0 };
    assert_eq!(broken.win_rate(), None);
}

#[test]
fn means_are_undefined_without_cases() {
    let all_lost = TrialTotals { trials: 5, wins: 0, attacker_left_on_win: 0, defender_left_on_loss: 10 };
    assert_eq!(all_lost.mean_attacker_left_on_win(), None);
    assert_eq!(all_lost.mean_defender_left_on_loss(), Some(Mean { total: 10, count: 5 }));
    let all_won = TrialTotals { trials: 5, wins: 5, attacker_left_on_win: 15, defender_left_on_loss: 0 };
    assert_eq!(all_won.mean_attacker_left_on_win(), Some(Mean { total: 15, count: 5 }));
    assert_eq!(all_won.mean_defender_left_on_loss(), None);
    let mixed = TrialTotals { trials: 5, wins: 2, attacker_left_on_win: 6, defender_left_on_loss: 4 };
    assert_eq!(mixed.mean_attacker_left_on_win(), Some(Mean { total: 6, count: 2 }));
    assert_eq!(mixed.mean_defender_left_on_loss(), Some(Mean { total: 4, count: 3 }));
}

#[test]
fn lone_attacker_never_wins() {
    for defender_troops in 1..6 {
        let mut attacker = Territory::new(1);
        let mut defender = Territory::new(defender_troops);
        let totals = attacker.simulate_attacks(&mut defender, 0, 500);
        assert_eq!(totals.trials, 500);
        assert_eq!(totals.wins, 0);
        assert_eq!(totals.win_rate(), Some(0));
        assert_eq!(totals.attacker_left_on_win, 0);
        assert_eq!(totals.defender_left_on_loss, 500 * defender_troops as i64);
        assert_eq!(totals.mean_attacker_left_on_win(), None);
    }
}

#[test]
fn simulate_attacks_restores_the_troops() {
    let mut attacker = Territory::new(6);
    let mut defender = Territory::new(4);
    let _ = attacker.simulate_attacks(&mut defender, 2, 300);
    assert_eq!((attacker.troops, defender.troops), (6, 4));
}

#[test]
fn simulate_attacks_without_trials() {
    for simulations in [0, -1, i32::MIN] {
        let mut attacker = Territory::new(6);
        let mut defender = Territory::new(4);
        let totals = attacker.simulate_attacks(&mut defender, 1, simulations);
        assert_eq!(
            totals,
            TrialTotals { trials: 0, wins: 0, attacker_left_on_win: 0, defender_left_on_loss: 0 }
        );
        assert_eq!(totals.win_rate(), None);
        assert_eq!(totals.mean_attacker_left_on_win(), None);
        assert_eq!(totals.mean_defender_left_on_loss(), None);
    }
}

#[test]
fn simulate_attacks_at_the_threshold_loses_every_trial() {
    let mut attacker = Territory::new(4);
    let mut defender = Territory::new(3);
    let totals = attacker.simulate_attacks(&mut defender, 4, 250);
    assert_eq!(
        totals,
        TrialTotals { trials: 250, wins: 0, attacker_left_on_win: 0, defender_left_on_loss: 750 }
    );
}

#[test]
fn simulate_attacks_on_an_empty_territory_wins_no_trial() {
    let mut attacker = Territory::new(4);
    let mut defender = Territory::new(0);
    let totals = attacker.simulate_attacks(&mut defender, 1, 250);
    assert_eq!(
        totals,
        TrialTotals { trials: 250, wins: 0, attacker_left_on_win: 0, defender_left_on_loss: 0 }
    );
    assert_eq!(totals.win_rate(), Some(0));
    assert_eq!(totals.mean_attacker_left_on_win(), None);
    assert_eq!((attacker.troops, defender.troops), (4, 0));
}

#[test]
fn simulate_attacks_on_a_negative_defender_wins_no_trial() {
    let mut attacker = Territory::new(4);
    let mut defender = Territory::new(-3);
    let totals = attacker.simulate_attacks(&mut defender, 1, 10);
    assert_eq!(
        totals,
        TrialTotals { trials: 10, wins: 0, attacker_left_on_win: 0, defender_left_on_loss: -30 }
    );
    assert_eq!((attacker.troops, defender.troops), (4, -3));
}

#[test]
fn simulate_attacks_sums_stay_in_their_bounds() {
    let mut attacker = Territory::new(7);
    let mut defender = Territory::new(5);
    let totals = attacker.simulate_attacks(&mut defender, 3, 2000);
    let wins = totals.wins as i64;
    let losses = (totals.trials - totals.wins) as i64;
    assert_eq!(totals.trials, 2000);
    assert!(0 <= totals.wins && totals.wins <= 2000);
    assert!(wins <= totals.attacker_left_on_win && totals.attacker_left_on_win <= wins * 7);
    assert!(losses <= totals.defender_left_on_loss && totals.defender_left_on_loss <= losses * 5);
}

#[test]
fn three_against_two_wins_as_derived() {
    // From (3, 2) two pairs meet: the attacker takes both with 295/1296, the sides split with
    // 420/1296 and (2, 1) is then won with 15/36; anything else leaves one attacker.
    let expected = 295.0 / 1296.0 + (420.0 / 1296.0) * (15.0 / 36.0);
    assert!((expected - 0.362654_f64).abs() < 1e-6);
    let mut attacker = Territory::new(3);
    let mut defender = Territory::new(2);
    let totals = attacker.simulate_attacks(&mut defender, 1, 10000);
    let rate = totals.win_rate().unwrap() as f64 / RATE_SCALE as f64;
    assert!(rate > 0.29 && rate < 0.43);
    assert!((rate - expected).abs() < 0.03);
    // A win from (3, 2) leaves 3 or 2 attackers, a loss 2 or 1 defenders.
    let won = totals.mean_attacker_left_on_win().unwrap();
    assert!(2 * won.count <= won.total && won.total <= 3 * won.count);
    let lost = totals.mean_defender_left_on_loss().unwrap();
    assert!(lost.count <= lost.total && lost.total <= 2 * lost.count);
}

#[test]
fn repeated_simulations_agree() {
    let mut attacker = Territory::new(5);
    let mut defender = Territory::new(4);
    let first = attacker.simulate_attacks(&mut defender, 1, 20000);
    assert_eq!((attacker.troops, defender.troops), (5, 4));
    let second = attacker.simulate_attacks(&mut defender, 1, 20000);
    assert_eq!((attacker.troops, defender.troops), (5, 4));
    let a = first.win_rate().unwrap() as f64 / RATE_SCALE as f64;
    let b = second.win_rate().unwrap() as f64 / RATE_SCALE as f64;
    assert!((a - b).abs() < 0.03);
}

#[test]
fn simulate_attacks_without_a_round_keeps_the_hands() {
    let mut attacker = Territory::new(3);
    let mut defender = Territory::new(2);
    attacker.dice = Dice::from_faces(6, 4, 2);
    defender.dice = Dice::from_faces(5, 3, 1);
    let totals = attacker.simulate_attacks(&mut defender, 3, 40);
    assert_eq!(
        totals,
        TrialTotals { trials: 40, wins: 0, attacker_left_on_win: 0, defender_left_on_loss: 80 }
    );
    assert_eq!(
        (attacker.dice.face(0), attacker.dice.face(1), attacker.dice.face(2)),
        (6, 4, 2)
    );
    assert_eq!(
        (defender.dice.face(0), defender.dice.face(1), defender.dice.face(2)),
        (5, 3, 1)
    );
}
