//! A territory with its troops, one round of combat between two territories, and an attack
//! fought until it is decided.

use vstd::prelude::*;
use crate::dice::{dice_thrown, losses_among, ties_among, wins_among, Dice};

verus! {

/// The number of dice pairs compared in a round between `attacker` and `defender` troops: the
/// attacker keeps one troop in reserve, the defender commits all, and at most three pairs meet.
pub open spec fn pairs_compared(attacker: int, defender: int) -> int {
    let fewer: int = if attacker - 1 < defender { attacker - 1 } else { defender };
    dice_thrown(fewer)
}

/// Whether an attack from `attacker` troops on `defender` troops fights another round.
pub open spec fn fights_on(attacker: int, defender: int, threshold: int) -> bool {
    attacker > threshold && attacker > 1 && defender > 0
}

/// What every round does to the troop counts, whatever the dice show: no side gains, and
/// together the two sides lose one troop for each pair compared.
pub open spec fn round_outcome(
    attacker: int,
    defender: int,
    attacker_after: int,
    defender_after: int,
) -> bool {
    &&& attacker_after <= attacker
    &&& defender_after <= defender
    &&& (attacker - attacker_after) + (defender - defender_after) == pairs_compared(
        attacker,
        defender,
    )
}

/// The troop counts of the two sides, attacker first, from round to round of one attack: each
/// state but the last fights on, and a round leads from it to the next.
pub open spec fn is_battle(states: Seq<(int, int)>, threshold: int) -> bool {
    &&& states.len() >= 1
    &&& forall|k: int|
        0 <= k < states.len() - 1 ==> {
            &&& fights_on((#[trigger] states[k]).0, states[k].1, threshold)
            &&& round_outcome(states[k].0, states[k].1, states[k + 1].0, states[k + 1].1)
        }
}

/// Whether an attack on `defender` troops that leaves `defender_after` of them is won: the
/// defender had troops and lost them all in the rounds fought.
pub open spec fn is_win(defender: int, defender_after: int) -> bool {
    defender > 0 && defender_after == 0
}

/// The troop counts that an attack from `attacker` troops on `defender` troops can end with:
/// those of a battle's last state, which fights no more.
pub open spec fn attack_outcome(
    attacker: int,
    defender: int,
    threshold: int,
    attacker_after: int,
    defender_after: int,
) -> bool {
    exists|states: Seq<(int, int)>|
        {
            &&& #[trigger] is_battle(states, threshold)
            &&& states[0] == (attacker, defender)
            &&& !fights_on(states.last().0, states.last().1, threshold)
            &&& attacker_after == states.last().0
            &&& defender_after == states.last().1
        }
}

/// The least number of troops that an attacker who fought at least one round can be left
/// with: it keeps its reserve, and enters its last round above the threshold.
pub open spec fn least_left(threshold: int) -> int {
    if threshold - 2 > 1 {
        threshold - 2
    } else {
        1
    }
}

/// A side in combat: its troops and the hand it rolled last.
pub struct Territory {
    pub troops: i32,
    pub dice: Dice,
}

impl Territory {
    /// A territory as combat keeps it: its troop count is not negative, and its hand is as a
    /// roll leaves one.
    pub open spec fn wf(&self) -> bool {
        self.troops >= 0 && self.dice.wf()
    }

    /// A territory with `ntroops` troops and no die in play.
    pub fn new(ntroops: i32) -> (territory: Territory)
        ensures
            territory.troops == ntroops,
            territory.dice@ == seq![0int, 0int, 0int],
            territory.wf() <==> ntroops >= 0,
    {
        Territory { troops: ntroops, dice: Dice::new() }
    }

    /// Settles one round on the two given hands: keeps each hand in its territory, compares
    /// `pairs_compared` pairs, and takes one troop from the defender for each pair the attacker
    /// wins and one from the attacker for each pair it ties or loses.
    pub fn resolve_round(
        &mut self,
        attacked: &mut Territory,
        attacker_hand: Dice,
        defender_hand: Dice,
    )
        ensures
            final(self).dice == attacker_hand,
            final(attacked).dice == defender_hand,
            final(self).troops == old(self).troops - ties_among(
                attacker_hand@,
                defender_hand@,
                pairs_compared(old(self).troops as int, old(attacked).troops as int),
            ) - losses_among(
                attacker_hand@,
                defender_hand@,
                pairs_compared(old(self).troops as int, old(attacked).troops as int),
            ),
            final(attacked).troops == old(attacked).troops - wins_among(
                attacker_hand@,
                defender_hand@,
                pairs_compared(old(self).troops as int, old(attacked).troops as int),
            ),
            round_outcome(
                old(self).troops as int,
                old(attacked).troops as int,
                final(self).troops as int,
                final(attacked).troops as int,
            ),
            old(self).troops >= 0 && attacker_hand.wf() ==> final(self).wf(),
            old(attacked).troops >= 0 && defender_hand.wf() ==> final(attacked).wf(),
    {
        self.dice = attacker_hand;
        attacked.dice = defender_hand;
        let mut amount_compared: usize = 0;
        if self.troops >= 2 && attacked.troops >= 1 {
            amount_compared = 1;
        }
        if self.troops >= 3 && attacked.troops >= 2 {
            amount_compared = 2;
        }
        if self.troops >= 4 && attacked.troops >= 3 {
            amount_compared = 3;
        }
        let (larger, equal, smaller) = self.dice.compare(&attacked.dice, amount_compared);
        self.troops -= smaller + equal;
        attacked.troops -= larger;
    }

    /// One round of combat: the attacker rolls for all its troops but one, the defender for
    /// all of its troops, and the round is settled on the two hands as `resolve_round` does.
    pub fn single_attack(&mut self, attacked: &mut Territory)
        ensures
            final(self).dice.wf(),
            final(attacked).dice.wf(),
            final(self).dice.in_play() == dice_thrown(old(self).troops - 1),
            final(attacked).dice.in_play() == dice_thrown(old(attacked).troops as int),
            final(self).troops == old(self).troops - ties_among(
                final(self).dice@,
                final(attacked).dice@,
                pairs_compared(old(self).troops as int, old(attacked).troops as int),
            ) - losses_among(
                final(self).dice@,
                final(attacked).dice@,
                pairs_compared(old(self).troops as int, old(attacked).troops as int),
            ),
            final(attacked).troops == old(attacked).troops - wins_among(
                final(self).dice@,
                final(attacked).dice@,
                pairs_compared(old(self).troops as int, old(attacked).troops as int),
            ),
            round_outcome(
                old(self).troops as int,
                old(attacked).troops as int,
                final(self).troops as int,
                final(attacked).troops as int,
            ),
            old(self).troops >= 0 ==> final(self).wf(),
            old(attacked).troops >= 0 ==> final(attacked).wf(),
    {
        let reserve_kept: i32 = if self.troops >= 1 { self.troops - 1 } else { 0 };
        let mut attacker_hand = Dice::new();
        attacker_hand.roll(reserve_kept);
        let mut defender_hand = Dice::new();
        defender_hand.roll(attacked.troops);
        self.resolve_round(attacked, attacker_hand, defender_hand);
    }

    /// Fights round after round while the attacker has more troops than `threshold`, more than
    /// one troop, and the defender has any. Returns whether the rounds fought eliminated the
    /// defender. Where no round is fought, the attack is not won and both territories stay as
    /// they were, troops and hands.
    pub fn attack(&mut self, attacked: &mut Territory, threshold: i32) -> (won: bool)
        ensures
            won <==> old(attacked).troops > 0 && final(attacked).troops == 0,
            won <==> is_win(old(attacked).troops as int, final(attacked).troops as int),
            attack_outcome(
                old(self).troops as int,
                old(attacked).troops as int,
                threshold as int,
                final(self).troops as int,
                final(attacked).troops as int,
            ),
            old(self).wf() ==> final(self).wf(),
            old(attacked).wf() ==> final(attacked).wf(),
            !fights_on(final(self).troops as int, final(attacked).troops as int, threshold as int),
            final(self).troops <= old(self).troops,
            final(attacked).troops <= old(attacked).troops,
            !fights_on(old(self).troops as int, old(attacked).troops as int, threshold as int)
                ==> {
                &&& !won
                &&& final(self).troops == old(self).troops
                &&& final(attacked).troops == old(attacked).troops
                &&& final(self).dice == old(self).dice
                &&& final(attacked).dice == old(attacked).dice
            },
            threshold >= old(self).troops ==> {
                &&& !won
                &&& final(self).troops == old(self).troops
                &&& final(attacked).troops == old(attacked).troops
                &&& final(self).dice == old(self).dice
                &&& final(attacked).dice == old(attacked).dice
            },
            fights_on(old(self).troops as int, old(attacked).troops as int, threshold as int) ==> {
                &&& final(self).troops >= 1
                &&& final(self).troops >= threshold - 2
                &&& final(attacked).troops >= 0
                &&& (final(self).troops < old(self).troops
                    || final(attacked).troops < old(attacked).troops)
            },
    {
        let defended: bool = attacked.troops > 0;
        let ghost mut states: Seq<(int, int)> = seq![(self.troops as int, attacked.troops as int)];
        while self.troops > threshold && self.troops > 1 && attacked.troops > 0
            invariant
                is_battle(states, threshold as int),
                states[0] == (old(self).troops as int, old(attacked).troops as int),
                states.last() == (self.troops as int, attacked.troops as int),
                old(self).wf() ==> self.wf(),
                old(attacked).wf() ==> attacked.wf(),
                self.troops <= old(self).troops,
                attacked.troops <= old(attacked).troops,
                defended <==> old(attacked).troops > 0,
                !fights_on(old(self).troops as int, old(attacked).troops as int, threshold as int)
                    ==> {
                    &&& self.troops == old(self).troops
                    &&& attacked.troops == old(attacked).troops
                    &&& self.dice == old(self).dice
                    &&& attacked.dice == old(attacked).dice
                },
                fights_on(old(self).troops as int, old(attacked).troops as int, threshold as int)
                    ==> {
                    &&& self.troops >= 1
                    &&& self.troops >= threshold - 2
                    &&& attacked.troops >= 0
                    &&& fights_on(self.troops as int, attacked.troops as int, threshold as int)
                        || self.troops < old(self).troops || attacked.troops < old(attacked).troops
                },
            decreases self.troops + attacked.troops,
        {
            self.single_attack(attacked);
            proof {
                states = states.push((self.troops as int, attacked.troops as int));
            }
        }
        if !defended || attacked.troops > 0 {
            return false;
        }
        attacked.troops = 0;
        true
    }
}

/// A round takes from the two sides together exactly as many troops as pairs were compared:
/// at least one where the attacker has a troop to spare and the defender has any, and no
/// count falls below zero; the attacker keeps its reserve.
pub proof fn lemma_round_loses_pairs(
    attacker: int,
    defender: int,
    attacker_after: int,
    defender_after: int,
)
    requires
        attacker >= 0,
        defender >= 0,
        round_outcome(attacker, defender, attacker_after, defender_after),
    ensures
        attacker_after + defender_after == attacker + defender - pairs_compared(attacker, defender),
        0 <= pairs_compared(attacker, defender) <= 3,
        attacker > 1 && defender > 0 ==> attacker_after + defender_after < attacker + defender,
        attacker_after >= 0,
        defender_after >= 0,
        attacker >= 1 ==> attacker_after >= 1,
{
}

/// Through a battle that starts from a state that fights on, the attacker keeps at least
/// `least_left` troops, no side gains, the defender does not fall below zero, and after the
/// first round a side has lost.
proof fn lemma_battle_bounds(states: Seq<(int, int)>, threshold: int, k: int)
    requires
        is_battle(states, threshold),
        0 <= k < states.len(),
        fights_on(states[0].0, states[0].1, threshold),
    ensures
        least_left(threshold) <= states[k].0 <= states[0].0,
        0 <= states[k].1 <= states[0].1,
        k >= 1 ==> states[k].0 < states[0].0 || states[k].1 < states[0].1,
    decreases k,
{
    if k > 0 {
        lemma_battle_bounds(states, threshold, k - 1);
        assert(fights_on(states[k - 1].0, states[k - 1].1, threshold));
        assert(round_outcome(states[k - 1].0, states[k - 1].1, states[k].0, states[k].1));
    }
}

/// Where an attack ends: it fights no more. An attack that fights no round leaves the troops
/// as they were and is not won. One that fights leaves the attacker at least `least_left`
/// troops and the defender none below zero, gives no side troops, and takes some from one.
pub proof fn lemma_attack_outcome_bounds(
    attacker: int,
    defender: int,
    threshold: int,
    attacker_after: int,
    defender_after: int,
)
    requires
        attack_outcome(attacker, defender, threshold, attacker_after, defender_after),
    ensures
        !fights_on(attacker_after, defender_after, threshold),
        fights_on(attacker, defender, threshold) ==> {
            &&& least_left(threshold) <= attacker_after <= attacker
            &&& 0 <= defender_after <= defender
            &&& (attacker_after < attacker || defender_after < defender)
        },
        !fights_on(attacker, defender, threshold) ==> {
            &&& attacker_after == attacker
            &&& defender_after == defender
            &&& !is_win(defender, defender_after)
        },
{
    let states = choose|states: Seq<(int, int)>|
        {
            &&& #[trigger] is_battle(states, threshold)
            &&& states[0] == (attacker, defender)
            &&& !fights_on(states.last().0, states.last().1, threshold)
            &&& attacker_after == states.last().0
            &&& defender_after == states.last().1
        };
    if fights_on(attacker, defender, threshold) {
        lemma_battle_bounds(states, threshold, states.len() - 1);
    } else if states.len() > 1 {
        assert(fights_on(states[0].0, states[0].1, threshold));
    }
}

} // verus!
