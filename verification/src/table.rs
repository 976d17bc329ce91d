//! Tables of win rates by troop counts: row `d` is a defender with `d + 1` troops, column `a`
//! an attacker with `a + 1` troops. A cell holds a rate, or `None` where no trial gave one.

use vstd::prelude::*;
use crate::estimate::{
    is_rate, lemma_win_rate_is_rate, mean_rate, rate_of, tallies_attacks, totals_bounded, TrialTotals,
    RATE_SCALE,
};
use crate::territory::{round_outcome, Territory};

verus! {

/// The number of trials that a request for `simulations` trials runs.
pub open spec fn trials_run(simulations: int) -> int {
    if simulations > 0 {
        simulations
    } else {
        0
    }
}

/// Whether a territory can hold the troops of row or column `index`, one more than the index.
pub open spec fn holds_troops(index: int) -> bool {
    index < i32::MAX
}

/// A square table of `size` rows.
pub open spec fn is_table(table: Seq<Vec<Option<u32>>>, size: int) -> bool {
    &&& table.len() == size
    &&& forall|d: int| 0 <= d < size ==> (#[trigger] table[d])@.len() == size
}

/// The cell is the win rate of some run of `trials` attacks from `attacker` troops on
/// `defender` troops, fought down to one troop.
pub open spec fn simulated_cell(cell: Option<u32>, attacker: int, defender: int, trials: int)
    -> bool {
    exists|totals: TrialTotals|
        {
            &&& #[trigger] totals_bounded(totals, attacker, defender, 1, trials)
            &&& tallies_attacks(totals, attacker, defender, 1, trials)
            &&& cell == rate_of(totals.wins * RATE_SCALE, totals.trials as int)
        }
}

/// Row `d` of a simulated table, filled up to column `upto`: a cell holds a simulated win
/// rate where territories can hold its troops, and nothing where they cannot.
pub open spec fn simulated_row(row: Seq<Option<u32>>, size: int, d: int, trials: int, upto: int)
    -> bool {
    &&& row.len() == size
    &&& size > 0 ==> row[0] == Some(0u32)
    &&& forall|a: int|
        1 <= a < upto && a < size ==> if holds_troops(d) && holds_troops(a) {
            simulated_cell(#[trigger] row[a], a + 1, d + 1, trials)
        } else {
            row[a] is None
        }
    &&& forall|a: int| 1 <= a < size && upto <= a ==> (#[trigger] row[a]) is None
}

/// Whether cell (`d`, `a`) is written before the builder of the fast table turns to cell
/// (`row`, `column`): the first column is written at the start, the others row by row, each
/// row from left to right.
pub open spec fn written_before(d: int, a: int, row: int, column: int) -> bool {
    a == 0 || d < row || (d == row && a < column)
}

/// The fast table while it is built: every cell written so far holds a rate (where trials
/// were run) or nothing (where none was), and is the mean of samples counted on the table as
/// it stands. A cell not yet written, or whose troops no territory can hold, holds nothing.
pub open spec fn filled_before(
    table: Seq<Vec<Option<u32>>>,
    size: int,
    simulations: int,
    row: int,
    column: int,
) -> bool {
    &&& is_table(table, size)
    &&& forall|d: int| 0 <= d < size && size > 0 ==> (#[trigger] table[d])@[0] == Some(0u32)
    &&& forall|d: int, a: int|
        0 <= d < size && 1 <= a < size ==> if written_before(d, a, row, column) && holds_troops(
            d,
        ) && holds_troops(a) {
            &&& simulations > 0 ==> is_rate(#[trigger] table[d]@[a])
            &&& simulations <= 0 ==> table[d]@[a] is None
            &&& lookahead_cell(table, table[d]@[a], a + 1, d + 1, trials_run(simulations))
        } else {
            table[d]@[a] is None
        }
}

/// What a trial of the fast table counts once its one round is fought: a full win where the
/// round left no defender, nothing where it left no attacker, and else the rate that the
/// table holds for the troops that are left. `None` where the table has no such cell or
/// nothing in it.
pub open spec fn continuation_rate(table: Seq<Vec<Option<u32>>>, attacker: int, defender: int)
    -> Option<u32> {
    if defender == 0 {
        Some(RATE_SCALE)
    } else if attacker == 0 {
        Some(0u32)
    } else if 1 <= defender <= table.len() && 1 <= attacker <= table[defender - 1]@.len() {
        table[defender - 1]@[attacker - 1]
    } else {
        None
    }
}

/// The sum of the samples.
pub open spec fn sum_of(samples: Seq<u32>) -> int
    decreases samples.len(),
{
    if samples.len() == 0 {
        0
    } else {
        sum_of(samples.drop_last()) + samples.last()
    }
}

/// `sample` is what a trial of the fast table may count for a round from `attacker` troops
/// against `defender` troops: the continuation of one of the round's outcomes.
pub open spec fn lookahead_sample(
    table: Seq<Vec<Option<u32>>>,
    attacker: int,
    defender: int,
    sample: u32,
) -> bool {
    exists|attacker_after: int, defender_after: int| #[trigger]
        round_outcome(attacker, defender, attacker_after, defender_after) && continuation_rate(
            table,
            attacker_after,
            defender_after,
        ) == Some(sample)
}

/// The cell is the mean of `trials` samples, each of them what a trial of one round from
/// `attacker` troops against `defender` troops may count on this table.
pub open spec fn lookahead_cell(
    table: Seq<Vec<Option<u32>>>,
    cell: Option<u32>,
    attacker: int,
    defender: int,
    trials: int,
) -> bool {
    exists|samples: Seq<u32>|
        {
            &&& samples.len() == trials
            &&& forall|k: int|
                0 <= k < samples.len() ==> lookahead_sample(
                    table,
                    attacker,
                    defender,
                    #[trigger] samples[k],
                )
            &&& cell == #[trigger] rate_of(sum_of(samples), trials)
        }
}

/// A round fought by two or more attackers against one or more defenders that leaves
/// defenders standing leads to a cell that the fast table has written before the cell it
/// started from: neither troop count grew, one of them fell, and the attacker kept its
/// reserve.
pub proof fn lemma_round_reads_written_cell(
    attacker: int,
    defender: int,
    attacker_after: int,
    defender_after: int,
)
    requires
        attacker >= 2,
        defender >= 1,
        defender_after >= 1,
        round_outcome(attacker, defender, attacker_after, defender_after),
    ensures
        1 <= attacker_after <= attacker,
        1 <= defender_after <= defender,
        written_before(defender_after - 1, attacker_after - 1, defender - 1, attacker - 1),
{
}

/// A row of `size` cells: a zero rate in the first, nothing in the others.
fn blank_row(size: usize) -> (row: Vec<Option<u32>>)
    ensures
        row@.len() == size,
        size > 0 ==> row@[0] == Some(0u32),
        forall|a: int| 1 <= a < size ==> (#[trigger] row@[a]) is None,
{
    let mut row: Vec<Option<u32>> = Vec::new();
    let mut a: usize = 0;
    while a < size
        invariant
            a <= size,
            row@.len() == a,
            a > 0 ==> row@[0] == Some(0u32),
            forall|k: int| 1 <= k < a ==> (#[trigger] row@[k]) is None,
        decreases size - a,
    {
        if a == 0 {
            row.push(Some(0u32));
        } else {
            row.push(None);
        }
        a += 1;
    }
    row
}

/// What a trial of the fast table counts for the troops left after its round.
pub fn continuation(table: &Vec<Vec<Option<u32>>>, attacker: i32, defender: i32) -> (rate: Option<
    u32,
>)
    ensures
        rate == continuation_rate(table@, attacker as int, defender as int),
{
    if defender == 0 {
        Some(RATE_SCALE)
    } else if attacker == 0 {
        Some(0u32)
    } else if defender < 0 || attacker < 0 {
        None
    } else {
        let d: usize = (defender - 1) as usize;
        let a: usize = (attacker - 1) as usize;
        if d < table.len() && a < table[d].len() {
            table[d][a]
        } else {
            None
        }
    }
}

impl Territory {
    /// The table of `size` rows and columns in which every cell but those of the first column
    /// is the win rate of `simulations` attacks fought down to one troop. The first column,
    /// an attacker with one troop, is zero. A cell whose troops no territory can hold is
    /// left empty.
    pub fn gen_matrix(size: usize, simulations: i32) -> (matrix: Vec<Vec<Option<u32>>>)
        ensures
            is_table(matrix@, size as int),
            forall|d: int| 0 <= d < size ==> (#[trigger] matrix@[d])@[0] == Some(0u32),
            forall|d: int|
                0 <= d < size ==> simulated_row(
                    (#[trigger] matrix@[d])@,
                    size as int,
                    d,
                    trials_run(simulations as int),
                    size as int,
                ),
            forall|d: int, a: int|
                0 <= d < size && 1 <= a < size ==> if simulations > 0 && holds_troops(d)
                    && holds_troops(a) {
                    is_rate(#[trigger] matrix@[d]@[a])
                } else {
                    matrix@[d]@[a] is None
                },
    {
        let mut matrix: Vec<Vec<Option<u32>>> = Vec::new();
        let mut attack_territory = Territory::new(0);
        let mut defense_territory = Territory::new(0);
        let mut i: usize = 0;
        while i < size
            invariant
                i <= size,
                matrix@.len() == i,
                forall|d: int|
                    0 <= d < i ==> simulated_row(
                        (#[trigger] matrix@[d])@,
                        size as int,
                        d,
                        trials_run(simulations as int),
                        size as int,
                    ),
            decreases size - i,
        {
            let mut row = blank_row(size);
            let mut j: usize = 1;
            while j < size
                invariant
                    1 <= j,
                    i < size,
                    simulated_row(
                        row@,
                        size as int,
                        i as int,
                        trials_run(simulations as int),
                        j as int,
                    ),
                decreases size - j,
            {
                if i < 0x7fff_ffff && j < 0x7fff_ffff {
                    defense_territory.troops = (i as i32) + 1;
                    attack_territory.troops = (j as i32) + 1;
                    let totals = attack_territory.simulate_attacks(
                        &mut defense_territory,
                        1,
                        simulations,
                    );
                    row[j] = totals.win_rate();
                }
                j += 1;
            }
            matrix.push(row);
            i += 1;
        }
        proof {
            assert forall|d: int, a: int|
                0 <= d < size && 1 <= a < size && holds_troops(d) && holds_troops(
                    a,
                ) implies if simulations > 0 {
                is_rate(#[trigger] matrix@[d]@[a])
            } else {
                matrix@[d]@[a] is None
            } by {
                let cell = matrix@[d]@[a];
                assert(simulated_cell(cell, a + 1, d + 1, trials_run(simulations as int)));
                let totals = choose|totals: TrialTotals|
                    {
                        &&& #[trigger] totals_bounded(
                            totals,
                            a + 1,
                            d + 1,
                            1,
                            trials_run(simulations as int),
                        )
                        &&& tallies_attacks(
                            totals,
                            a + 1,
                            d + 1,
                            1,
                            trials_run(simulations as int),
                        )
                        &&& cell == rate_of(totals.wins * RATE_SCALE, totals.trials as int)
                    };
                lemma_win_rate_is_rate(totals);
            }
        }
        matrix
    }

    /// The table of `size` rows and columns in which every cell but those of the first
    /// column is the mean, over `simulations` trials of one round each, of what
    /// `continuation_rate` counts on this table for the troops left after the round. Cells
    /// are written row by row, each row from left to right, and a trial reads only cells
    /// written before its own. The first column, an attacker with one troop, is zero. A cell
    /// whose troops no territory can hold is left empty.
    pub fn gen_matrix_fast(size: usize, simulations: i32) -> (matrix: Vec<Vec<Option<u32>>>)
        ensures
            is_table(matrix@, size as int),
            forall|d: int| 0 <= d < size ==> (#[trigger] matrix@[d])@[0] == Some(0u32),
            forall|d: int, a: int|
                0 <= d < size && 1 <= a < size ==> if simulations > 0 && holds_troops(d)
                    && holds_troops(a) {
                    is_rate(#[trigger] matrix@[d]@[a])
                } else {
                    matrix@[d]@[a] is None
                },
            forall|d: int, a: int|
                0 <= d < size && 1 <= a < size && holds_troops(d) && holds_troops(a)
                    ==> lookahead_cell(
                    matrix@,
                    #[trigger] matrix@[d]@[a],
                    a + 1,
                    d + 1,
                    trials_run(simulations as int),
                ),
    {
        let mut matrix: Vec<Vec<Option<u32>>> = Vec::new();
        let mut attack_territory = Territory::new(0);
        let mut defense_territory = Territory::new(0);
        let mut k: usize = 0;
        while k < size
            invariant
                k <= size,
                matrix@.len() == k,
                forall|d: int| 0 <= d < k ==> (#[trigger] matrix@[d])@.len() == size,
                forall|d: int| 0 <= d < k ==> (#[trigger] matrix@[d])@[0] == Some(0u32),
                forall|d: int, a: int|
                    0 <= d < k && 1 <= a < size ==> (#[trigger] matrix@[d]@[a]) is None,
            decreases size - k,
        {
            let row = blank_row(size);
            matrix.push(row);
            k += 1;
        }
        let mut i: usize = 0;
        while i < size
            invariant
                i <= size,
                filled_before(matrix@, size as int, simulations as int, i as int, 0),
            decreases size - i,
        {
            let mut j: usize = 1;
            while j < size
                invariant
                    1 <= j,
                    i < size,
                    filled_before(matrix@, size as int, simulations as int, i as int, j as int),
                decreases size - j,
            {
                if i >= 0x7fff_ffff || j >= 0x7fff_ffff {
                    j += 1;
                    continue;
                }
                let mut wins: u64 = 0;
                let mut fought: i32 = 0;
                let ghost mut samples: Seq<u32> = Seq::empty();
                while fought < simulations
                    invariant
                        1 <= j < size,
                        i < size,
                        holds_troops(i as int) && holds_troops(j as int),
                        0 <= fought,
                        fought <= simulations || fought == 0,
                        wins <= fought * RATE_SCALE,
                        samples.len() == fought,
                        wins == sum_of(samples),
                        forall|k: int|
                            0 <= k < samples.len() ==> lookahead_sample(
                                matrix@,
                                j + 1,
                                i + 1,
                                #[trigger] samples[k],
                            ),
                        filled_before(
                            matrix@,
                            size as int,
                            simulations as int,
                            i as int,
                            j as int,
                        ),
                    decreases simulations - fought,
                {
                    defense_territory.troops = (i as i32) + 1;
                    attack_territory.troops = (j as i32) + 1;
                    attack_territory.single_attack(&mut defense_territory);
                    let sample = continuation(
                        &matrix,
                        attack_territory.troops,
                        defense_territory.troops,
                    );
                    proof {
                        if defense_territory.troops >= 1 {
                            lemma_round_reads_written_cell(
                                j + 1,
                                i + 1,
                                attack_territory.troops as int,
                                defense_territory.troops as int,
                            );
                        }
                        assert(is_rate(sample));
                        lemma_sum_of_push(samples, sample.unwrap());
                        samples = samples.push(sample.unwrap());
                    }
                    wins += sample.unwrap() as u64;
                    fought += 1;
                }
                let cell = mean_rate(wins, simulations);
                let ghost before = matrix@;
                matrix[i][j] = cell;
                proof {
                    let after = matrix@;
                    let trials: int = trials_run(simulations as int);
                    assert(rate_of(sum_of(samples), trials) == cell);
                    assert forall|d: int, a: int|
                        0 <= d < size && 1 <= a < size && written_before(
                            d,
                            a,
                            i as int,
                            j + 1,
                        ) && holds_troops(d) && holds_troops(a) implies lookahead_cell(
                        after,
                        #[trigger] after[d]@[a],
                        a + 1,
                        d + 1,
                        trials,
                    ) by {
                        if d == i && a == j {
                            lemma_samples_survive_write(
                                before,
                                after,
                                size as int,
                                i as int,
                                j as int,
                                a + 1,
                                d + 1,
                                samples,
                            );
                        } else {
                            let earlier = choose|earlier: Seq<u32>|
                                {
                                    &&& earlier.len() == trials
                                    &&& forall|k: int|
                                        0 <= k < earlier.len() ==> lookahead_sample(
                                            before,
                                            a + 1,
                                            d + 1,
                                            #[trigger] earlier[k],
                                        )
                                    &&& before[d]@[a] == #[trigger] rate_of(
                                        sum_of(earlier),
                                        trials,
                                    )
                                };
                            lemma_samples_survive_write(
                                before,
                                after,
                                size as int,
                                i as int,
                                j as int,
                                a + 1,
                                d + 1,
                                earlier,
                            );
                        }
                    }
                }
                j += 1;
            }
            i += 1;
        }
        matrix
    }
}

/// Appending a sample adds it to the sum.
proof fn lemma_sum_of_push(samples: Seq<u32>, sample: u32)
    ensures
        sum_of(samples.push(sample)) == sum_of(samples) + sample,
{
    assert(samples.push(sample).drop_last() =~= samples);
}

/// Writing cell (`row`, `column`) of the fast table changes no sample of a cell written up to
/// then, that cell included: the rounds of such a cell read only cells written before it.
proof fn lemma_samples_survive_write(
    before: Seq<Vec<Option<u32>>>,
    after: Seq<Vec<Option<u32>>>,
    size: int,
    row: int,
    column: int,
    attacker: int,
    defender: int,
    samples: Seq<u32>,
)
    requires
        is_table(before, size),
        is_table(after, size),
        forall|d: int, a: int|
            0 <= d < size && 0 <= a < size && !(d == row && a == column) ==> #[trigger] after[d]@[a]
                == before[d]@[a],
        attacker >= 2,
        defender >= 1,
        column >= 1,
        written_before(defender - 1, attacker - 1, row, column) || (defender - 1 == row
            && attacker - 1 == column),
        forall|k: int|
            0 <= k < samples.len() ==> lookahead_sample(
                before,
                attacker,
                defender,
                #[trigger] samples[k],
            ),
    ensures
        forall|k: int|
            0 <= k < samples.len() ==> lookahead_sample(
                after,
                attacker,
                defender,
                #[trigger] samples[k],
            ),
{
    assert forall|k: int| 0 <= k < samples.len() implies lookahead_sample(
        after,
        attacker,
        defender,
        #[trigger] samples[k],
    ) by {
        let (attacker_after, defender_after): (int, int) = choose|attacker_after: int, defender_after: int|
            #[trigger] round_outcome(attacker, defender, attacker_after, defender_after)
                && continuation_rate(before, attacker_after, defender_after) == Some(samples[k]);
        if attacker_after >= 1 && defender_after >= 1 {
            lemma_round_reads_written_cell(attacker, defender, attacker_after, defender_after);
            assert(after[defender_after - 1]@[attacker_after - 1] == before[defender_after
                - 1]@[attacker_after - 1]);
        }
        assert(continuation_rate(after, attacker_after, defender_after) == Some(samples[k]));
    }
}

} // verus!
