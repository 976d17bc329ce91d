//! Repeated trials of one attack, and what they add up to.

use vstd::prelude::*;
use crate::territory::{
    attack_outcome, fights_on, is_win, least_left, lemma_attack_outcome_bounds, Territory,
};

verus! {

/// The fixed-point unit of a rate: a rate `r` stands for the probability `r / RATE_SCALE`.
pub const RATE_SCALE: u32 = 1_000_000;

/// An average kept exact: `total` over `count`, where `count` is positive.
#[derive(Clone, Copy, Debug, PartialEq, Eq, Structural)]
pub struct Mean {
    pub total: i64,
    pub count: i64,
}

/// What a run of trials added up to: how many were fought and won, the attacker's troops left
/// summed over the trials won, and the defender's troops left summed over the trials lost.
#[derive(Clone, Copy, Debug, PartialEq, Eq, Structural)]
pub struct TrialTotals {
    pub trials: i32,
    pub wins: i32,
    pub attacker_left_on_win: i64,
    pub defender_left_on_loss: i64,
}

/// The mean of `samples` rates that add up to `total`, rounded down. There is none without
/// samples, nor where `total` is not a sum of that many rates.
pub open spec fn rate_of(total: int, samples: int) -> Option<u32> {
    if samples <= 0 || total < 0 || total > samples * RATE_SCALE {
        None
    } else {
        Some((total / samples) as u32)
    }
}

/// A value that holds a rate between 0 and `RATE_SCALE`.
pub open spec fn is_rate(cell: Option<u32>) -> bool {
    cell matches Some(r) && r <= RATE_SCALE
}

/// What holds of the totals of `trials` attacks from `attacker` troops on `defender` troops,
/// however the dice fall.
pub open spec fn totals_bounded(
    totals: TrialTotals,
    attacker: int,
    defender: int,
    threshold: int,
    trials: int,
) -> bool {
    let losses: int = totals.trials - totals.wins;
    &&& totals.trials == trials
    &&& 0 <= totals.wins <= trials
    &&& if fights_on(attacker, defender, threshold) {
        &&& totals.wins * least_left(threshold) <= totals.attacker_left_on_win
        &&& totals.attacker_left_on_win <= totals.wins * attacker
        &&& losses <= totals.defender_left_on_loss <= losses * defender
    } else {
        &&& totals.wins == 0
        &&& totals.attacker_left_on_win == 0
        &&& totals.defender_left_on_loss == trials * defender
    }
}

/// How many of the outcomes, each the troops that an attack on `defender` troops left to the
/// attacker and to the defender, are wins.
pub open spec fn wins_in(outcomes: Seq<(int, int)>, defender: int) -> int
    decreases outcomes.len(),
{
    if outcomes.len() == 0 {
        0
    } else {
        wins_in(outcomes.drop_last(), defender) + if is_win(defender, outcomes.last().1) {
            1int
        } else {
            0int
        }
    }
}

/// The attacker's troops left, summed over the outcomes that are wins.
pub open spec fn attackers_left_in(outcomes: Seq<(int, int)>, defender: int) -> int
    decreases outcomes.len(),
{
    if outcomes.len() == 0 {
        0
    } else {
        attackers_left_in(outcomes.drop_last(), defender) + if is_win(defender, outcomes.last().1) {
            outcomes.last().0
        } else {
            0int
        }
    }
}

/// The defender's troops left, summed over the outcomes that are losses.
pub open spec fn defenders_left_in(outcomes: Seq<(int, int)>, defender: int) -> int
    decreases outcomes.len(),
{
    if outcomes.len() == 0 {
        0
    } else {
        defenders_left_in(outcomes.drop_last(), defender) + if is_win(defender, outcomes.last().1) {
            0int
        } else {
            outcomes.last().1
        }
    }
}

/// The totals add up `trials` attacks, each fought from `attacker` troops against `defender`
/// troops down to `threshold`.
pub open spec fn tallies_attacks(
    totals: TrialTotals,
    attacker: int,
    defender: int,
    threshold: int,
    trials: int,
) -> bool {
    exists|outcomes: Seq<(int, int)>|
        {
            &&& outcomes.len() == trials
            &&& forall|k: int|
                0 <= k < outcomes.len() ==> attack_outcome(
                    attacker,
                    defender,
                    threshold,
                    (#[trigger] outcomes[k]).0,
                    outcomes[k].1,
                )
            &&& totals.trials == trials
            &&& totals.wins == #[trigger] wins_in(outcomes, defender)
            &&& totals.attacker_left_on_win == attackers_left_in(outcomes, defender)
            &&& totals.defender_left_on_loss == defenders_left_in(outcomes, defender)
        }
}

/// Appending an outcome adds it to the count and to the sum that it belongs to.
proof fn lemma_one_more_outcome(outcomes: Seq<(int, int)>, defender: int, outcome: (int, int))
    ensures
        wins_in(outcomes.push(outcome), defender) == wins_in(outcomes, defender) + if is_win(
            defender,
            outcome.1,
        ) {
            1int
        } else {
            0int
        },
        attackers_left_in(outcomes.push(outcome), defender) == attackers_left_in(
            outcomes,
            defender,
        ) + if is_win(defender, outcome.1) {
            outcome.0
        } else {
            0int
        },
        defenders_left_in(outcomes.push(outcome), defender) == defenders_left_in(
            outcomes,
            defender,
        ) + if is_win(defender, outcome.1) {
            0int
        } else {
            outcome.1
        },
{
    assert(outcomes.push(outcome).drop_last() =~= outcomes);
}

/// One more of `each` adds `each` to the product.
proof fn lemma_one_more(count: int, each: int)
    ensures
        (count + 1) * each == count * each + each,
{
    assert((count + 1) * each == count * each + each) by (nonlinear_arith);
}

/// The mean of `samples` values of at most `scale` each is at most `scale`.
proof fn lemma_quotient_bound(total: int, samples: int, scale: int)
    requires
        samples > 0,
        0 <= total <= samples * scale,
    ensures
        0 <= total / samples <= scale,
{
    assert(0 <= total / samples <= scale) by (nonlinear_arith)
        requires
            samples > 0,
            0 <= total <= samples * scale,
    ;
}

/// The mean of `samples` rates that add up to `total`, rounded down.
pub fn mean_rate(total: u64, samples: i32) -> (rate: Option<u32>)
    ensures
        rate == rate_of(total as int, samples as int),
        rate is Some ==> is_rate(rate),
        rate is Some <==> samples > 0 && total <= samples * RATE_SCALE,
{
    if samples <= 0 {
        return None;
    }
    let count: u64 = samples as u64;
    let scale: u64 = RATE_SCALE as u64;
    assert(count * scale == count * 1_000_000);
    if total > count * scale {
        return None;
    }
    proof {
        lemma_quotient_bound(total as int, samples as int, RATE_SCALE as int);
    }
    Some((total / count) as u32)
}

impl TrialTotals {
    /// The share of trials won, as a rate; none where no trial was fought.
    pub fn win_rate(&self) -> (rate: Option<u32>)
        ensures
            rate == rate_of(self.wins * RATE_SCALE, self.trials as int),
            0 <= self.wins <= self.trials ==> (rate is Some <==> self.trials > 0),
    {
        if self.wins < 0 {
            return None;
        }
        let scale: u64 = RATE_SCALE as u64;
        assert(self.wins * scale == self.wins * 1_000_000);
        mean_rate(self.wins as u64 * scale, self.trials)
    }

    /// The attacker's troops left, averaged over the trials won; none where no trial was won.
    pub fn mean_attacker_left_on_win(&self) -> (mean: Option<Mean>)
        ensures
            mean == if self.wins > 0 {
                Some(Mean { total: self.attacker_left_on_win, count: self.wins as i64 })
            } else {
                None
            },
    {
        if self.wins > 0 {
            Some(Mean { total: self.attacker_left_on_win, count: self.wins as i64 })
        } else {
            None
        }
    }

    /// The defender's troops left, averaged over the trials lost; none where no trial was
    /// lost.
    pub fn mean_defender_left_on_loss(&self) -> (mean: Option<Mean>)
        ensures
            mean == if self.trials - self.wins > 0 {
                Some(
                    Mean {
                        total: self.defender_left_on_loss,
                        count: (self.trials - self.wins) as i64,
                    },
                )
            } else {
                None
            },
    {
        let losses: i64 = self.trials as i64 - self.wins as i64;
        if losses > 0 {
            Some(Mean { total: self.defender_left_on_loss, count: losses })
        } else {
            None
        }
    }
}

impl Territory {
    /// Fights `simulations` attacks on `attacked`, each from the troop counts at the call, and
    /// adds up the outcomes. Both troop counts are as before when it returns, and so are both
    /// hands where the attacks fight no round.
    pub fn simulate_attacks(
        &mut self,
        attacked: &mut Territory,
        threshold: i32,
        simulations: i32,
    ) -> (totals: TrialTotals)
        ensures
            final(self).troops == old(self).troops,
            final(attacked).troops == old(attacked).troops,
            old(self).wf() ==> final(self).wf(),
            old(attacked).wf() ==> final(attacked).wf(),
            !fights_on(old(self).troops as int, old(attacked).troops as int, threshold as int)
                ==> final(self).dice == old(self).dice && final(attacked).dice == old(
                attacked,
            ).dice,
            tallies_attacks(
                totals,
                old(self).troops as int,
                old(attacked).troops as int,
                threshold as int,
                if simulations > 0 {
                    simulations as int
                } else {
                    0
                },
            ),
            totals_bounded(
                totals,
                old(self).troops as int,
                old(attacked).troops as int,
                threshold as int,
                if simulations > 0 {
                    simulations as int
                } else {
                    0
                },
            ),
    {
        let atk_troops: i32 = self.troops;
        let def_troops: i32 = attacked.troops;
        let mut fought: i32 = 0;
        let mut wins: i32 = 0;
        let mut friendlies_left_success: i64 = 0;
        let mut enemies_left_fail: i64 = 0;
        let ghost mut outcomes: Seq<(int, int)> = Seq::empty();
        while fought < simulations
            invariant
                outcomes.len() == fought,
                forall|k: int|
                    0 <= k < outcomes.len() ==> attack_outcome(
                        atk_troops as int,
                        def_troops as int,
                        threshold as int,
                        (#[trigger] outcomes[k]).0,
                        outcomes[k].1,
                    ),
                wins == wins_in(outcomes, def_troops as int),
                friendlies_left_success == attackers_left_in(outcomes, def_troops as int),
                enemies_left_fail == defenders_left_in(outcomes, def_troops as int),
                atk_troops == old(self).troops,
                def_troops == old(attacked).troops,
                self.troops == atk_troops,
                attacked.troops == def_troops,
                old(self).wf() ==> self.wf(),
                old(attacked).wf() ==> attacked.wf(),
                !fights_on(atk_troops as int, def_troops as int, threshold as int) ==> self.dice
                    == old(self).dice && attacked.dice == old(attacked).dice,
                0 <= fought,
                fought <= simulations || fought == 0,
                -fought * 0x8000_0000 <= friendlies_left_success <= fought * 0x8000_0000,
                -fought * 0x8000_0000 <= enemies_left_fail <= fought * 0x8000_0000,
                totals_bounded(
                    TrialTotals {
                        trials: fought,
                        wins,
                        attacker_left_on_win: friendlies_left_success,
                        defender_left_on_loss: enemies_left_fail,
                    },
                    atk_troops as int,
                    def_troops as int,
                    threshold as int,
                    fought as int,
                ),
            decreases simulations - fought,
        {
            let won = self.attack(attacked, threshold);
            proof {
                lemma_one_more(wins as int, least_left(threshold as int));
                lemma_one_more(wins as int, atk_troops as int);
                lemma_one_more(fought - wins, def_troops as int);
                lemma_one_more(fought as int, def_troops as int);
                lemma_one_more_outcome(
                    outcomes,
                    def_troops as int,
                    (self.troops as int, attacked.troops as int),
                );
                outcomes = outcomes.push((self.troops as int, attacked.troops as int));
            }
            if won {
                wins += 1;
                friendlies_left_success += self.troops as i64;
            } else {
                enemies_left_fail += attacked.troops as i64;
            }
            self.troops = atk_troops;
            attacked.troops = def_troops;
            fought += 1;
        }
        TrialTotals {
            trials: fought,
            wins,
            attacker_left_on_win: friendlies_left_success,
            defender_left_on_loss: enemies_left_fail,
        }
    }
}

/// The win rate of totals that hold of some run of trials is a rate where trials were run,
/// and is missing where none was.
pub proof fn lemma_win_rate_is_rate(totals: TrialTotals)
    requires
        0 <= totals.wins <= totals.trials,
    ensures
        totals.trials > 0 ==> is_rate(rate_of(totals.wins * RATE_SCALE, totals.trials as int)),
        totals.trials == 0 ==> rate_of(totals.wins * RATE_SCALE, totals.trials as int) is None,
{
    if totals.trials > 0 {
        let wins: int = totals.wins as int;
        let trials: int = totals.trials as int;
        let scale: int = RATE_SCALE as int;
        assert(0 <= wins * scale <= trials * scale) by (nonlinear_arith)
            requires
                0 <= wins <= trials,
                scale >= 0,
        ;
        assert(0 <= (wins * scale) / trials <= scale) by (nonlinear_arith)
            requires
                trials > 0,
                0 <= wins * scale <= trials * scale,
        ;
    }
}

/// The sums over outcomes of attacks keep to the bounds of `totals_bounded`.
proof fn lemma_outcome_sums_bounded(
    outcomes: Seq<(int, int)>,
    attacker: int,
    defender: int,
    threshold: int,
)
    requires
        forall|k: int|
            0 <= k < outcomes.len() ==> attack_outcome(
                attacker,
                defender,
                threshold,
                (#[trigger] outcomes[k]).0,
                outcomes[k].1,
            ),
    ensures
        0 <= wins_in(outcomes, defender) <= outcomes.len(),
        fights_on(attacker, defender, threshold) ==> {
            &&& wins_in(outcomes, defender) * least_left(threshold) <= attackers_left_in(
                outcomes,
                defender,
            )
            &&& attackers_left_in(outcomes, defender) <= wins_in(outcomes, defender) * attacker
            &&& outcomes.len() - wins_in(outcomes, defender) <= defenders_left_in(
                outcomes,
                defender,
            )
            &&& defenders_left_in(outcomes, defender) <= (outcomes.len() - wins_in(
                outcomes,
                defender,
            )) * defender
        },
        !fights_on(attacker, defender, threshold) ==> {
            &&& wins_in(outcomes, defender) == 0
            &&& attackers_left_in(outcomes, defender) == 0
            &&& defenders_left_in(outcomes, defender) == outcomes.len() * defender
        },
    decreases outcomes.len(),
{
    if outcomes.len() > 0 {
        let earlier = outcomes.drop_last();
        let last = outcomes.last();
        assert forall|k: int| 0 <= k < earlier.len() implies attack_outcome(
            attacker,
            defender,
            threshold,
            (#[trigger] earlier[k]).0,
            earlier[k].1,
        ) by {
            assert(earlier[k] == outcomes[k]);
        }
        lemma_outcome_sums_bounded(earlier, attacker, defender, threshold);
        assert(last == outcomes[outcomes.len() - 1]);
        lemma_attack_outcome_bounds(attacker, defender, threshold, last.0, last.1);
        lemma_one_more(wins_in(earlier, defender), least_left(threshold));
        lemma_one_more(wins_in(earlier, defender), attacker);
        lemma_one_more(earlier.len() - wins_in(earlier, defender), defender);
        lemma_one_more(earlier.len() as int, defender);
    }
}

/// Totals that add up attacks keep to the bounds that hold however the dice fall.
pub proof fn lemma_tallies_are_bounded(
    totals: TrialTotals,
    attacker: int,
    defender: int,
    threshold: int,
    trials: int,
)
    requires
        tallies_attacks(totals, attacker, defender, threshold, trials),
    ensures
        totals_bounded(totals, attacker, defender, threshold, trials),
{
    let outcomes = choose|outcomes: Seq<(int, int)>|
        {
            &&& outcomes.len() == trials
            &&& forall|k: int|
                0 <= k < outcomes.len() ==> attack_outcome(
                    attacker,
                    defender,
                    threshold,
                    (#[trigger] outcomes[k]).0,
                    outcomes[k].1,
                )
            &&& totals.trials == trials
            &&& totals.wins == #[trigger] wins_in(outcomes, defender)
            &&& totals.attacker_left_on_win == attackers_left_in(outcomes, defender)
            &&& totals.defender_left_on_loss == defenders_left_in(outcomes, defender)
        };
    lemma_outcome_sums_bounded(outcomes, attacker, defender, threshold);
}

/// An attacker with one troop never wins: of any run of trials none is won, every trial
/// leaves the defender as it was, and the win rate is zero where a trial was fought.
pub proof fn lemma_lone_attacker_never_wins(
    totals: TrialTotals,
    defender: int,
    threshold: int,
    trials: int,
)
    requires
        totals_bounded(totals, 1, defender, threshold, trials),
    ensures
        totals.wins == 0,
        totals.attacker_left_on_win == 0,
        totals.defender_left_on_loss == trials * defender,
        trials > 0 ==> rate_of(totals.wins * RATE_SCALE, totals.trials as int) == Some(0u32),
{
    if trials > 0 {
        assert(0int / trials == 0) by (nonlinear_arith)
            requires
                trials > 0,
        ;
        assert(0 <= trials * RATE_SCALE) by (nonlinear_arith)
            requires
                trials > 0,
        ;
    }
}

} // verus!
