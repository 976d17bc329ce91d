//! The hand of dice that one side rolls in a round, and the pairwise comparison of two hands.

use vstd::prelude::*;

verus! {

/// Draws one integer with `rand::Rng::gen_range` on the generator that `rand::thread_rng`
/// returns. Trusted, not proved: the draw lies in `low..high`. The outside call panics on an
/// empty range, which the precondition excludes. Nothing is claimed about the distribution.
#[verifier::external_body]
fn draw_in_range(low: i32, high: i32) -> (r: i32)
    requires
        low < high,
    ensures
        low <= r < high,
{
    rand::Rng::gen_range(&mut rand::thread_rng(), low..high)
}

/// The largest of three integers.
pub open spec fn max3(a: int, b: int, c: int) -> int {
    if a >= b && a >= c {
        a
    } else if b >= c {
        b
    } else {
        c
    }
}

/// The smallest of three integers.
pub open spec fn min3(a: int, b: int, c: int) -> int {
    if a <= b && a <= c {
        a
    } else if b <= c {
        b
    } else {
        c
    }
}

/// The three integers in descending order.
pub open spec fn descending(a: int, b: int, c: int) -> Seq<int> {
    seq![max3(a, b, c), a + b + c - max3(a, b, c) - min3(a, b, c), min3(a, b, c)]
}

/// How many dice a side with `available` eligible troops throws: none for a count of zero or
/// less, at most three.
pub open spec fn dice_thrown(available: int) -> int {
    if available <= 0 {
        0
    } else if available >= 3 {
        3
    } else {
        available
    }
}

/// Among the first `n` positions, how many hold a larger value in `a` than in `b`.
pub open spec fn wins_among(a: Seq<int>, b: Seq<int>, n: int) -> int
    decreases n,
{
    if n <= 0 {
        0
    } else {
        wins_among(a, b, n - 1) + if a[n - 1] > b[n - 1] { 1int } else { 0int }
    }
}

/// Among the first `n` positions, how many hold the same value in `a` and in `b`.
pub open spec fn ties_among(a: Seq<int>, b: Seq<int>, n: int) -> int
    decreases n,
{
    if n <= 0 {
        0
    } else {
        ties_among(a, b, n - 1) + if a[n - 1] == b[n - 1] { 1int } else { 0int }
    }
}

/// Among the first `n` positions, how many hold a smaller value in `a` than in `b`.
pub open spec fn losses_among(a: Seq<int>, b: Seq<int>, n: int) -> int
    decreases n,
{
    if n <= 0 {
        0
    } else {
        losses_among(a, b, n - 1) + if a[n - 1] < b[n - 1] { 1int } else { 0int }
    }
}

/// Every compared position is a win, a tie or a loss, and only one of them.
pub proof fn lemma_tally_partitions(a: Seq<int>, b: Seq<int>, n: int)
    requires
        0 <= n,
    ensures
        wins_among(a, b, n) + ties_among(a, b, n) + losses_among(a, b, n) == n,
        0 <= wins_among(a, b, n) <= n,
        0 <= ties_among(a, b, n) <= n,
        0 <= losses_among(a, b, n) <= n,
    decreases n,
{
    if n > 0 {
        lemma_tally_partitions(a, b, n - 1);
    }
}

/// Three dice slots, highest first. A slot that holds 0 is not in play.
#[derive(Clone, Copy, Debug)]
pub struct Dice {
    vals: [i32; 3],
}

impl Dice {
    /// The three slots as mathematical integers.
    pub closed spec fn view(&self) -> Seq<int> {
        seq![self.vals[0] as int, self.vals[1] as int, self.vals[2] as int]
    }

    /// A hand as a roll leaves it: faces from 0 to 6, sorted descending, so that the slots
    /// not in play come last.
    pub open spec fn wf(&self) -> bool {
        &&& self@.len() == 3
        &&& 6 >= self@[0] >= self@[1] >= self@[2] >= 0
    }

    /// The number of slots in play.
    pub open spec fn in_play(&self) -> int {
        (if self@[0] != 0 { 1int } else { 0int })
            + (if self@[1] != 0 { 1int } else { 0int })
            + (if self@[2] != 0 { 1int } else { 0int })
    }

    /// A hand with no die in play.
    pub fn new() -> (hand: Dice)
        ensures
            hand@ == seq![0int, 0int, 0int],
            hand.wf(),
            hand.in_play() == 0,
    {
        Dice { vals: [0, 0, 0] }
    }

    /// The hand that holds the three given values, highest first.
    pub fn from_faces(a: i32, b: i32, c: i32) -> (hand: Dice)
        ensures
            hand@ == descending(a as int, b as int, c as int),
            hand.wf() <==> 0 <= a <= 6 && 0 <= b <= 6 && 0 <= c <= 6,
    {
        let mut hi: i32 = a;
        let mut mid: i32 = b;
        let mut lo: i32 = c;
        if hi < mid {
            let t: i32 = hi;
            hi = mid;
            mid = t;
        }
        if mid < lo {
            let t: i32 = mid;
            mid = lo;
            lo = t;
        }
        if hi < mid {
            let t: i32 = hi;
            hi = mid;
            mid = t;
        }
        Dice { vals: [hi, mid, lo] }
    }

    /// The value in slot `i`.
    pub fn face(&self, i: usize) -> (v: i32)
        requires
            i < 3,
        ensures
            v as int == self@[i as int],
    {
        self.vals[i]
    }

    /// Throws `dice_thrown(nrolls)` dice, each drawn on its own from 1 to 6, and stores them
    /// highest first; the other slots are set to 0.
    pub fn roll(&mut self, nrolls: i32)
        ensures
            final(self).wf(),
            final(self).in_play() == dice_thrown(nrolls as int),
    {
        let first: i32 = if nrolls >= 1 { draw_in_range(1, 7) } else { 0 };
        let second: i32 = if nrolls >= 2 { draw_in_range(1, 7) } else { 0 };
        let third: i32 = if nrolls >= 3 { draw_in_range(1, 7) } else { 0 };
        *self = Dice::from_faces(first, second, third);
    }

    /// Compares the first `amount_compared` slots of two hands, highest against highest, and
    /// returns how many of this hand's dice were larger, equal and smaller.
    pub fn compare(&self, compared: &Dice, amount_compared: usize) -> (tally: (i32, i32, i32))
        requires
            amount_compared <= 3,
        ensures
            tally.0 == wins_among(self@, compared@, amount_compared as int),
            tally.1 == ties_among(self@, compared@, amount_compared as int),
            tally.2 == losses_among(self@, compared@, amount_compared as int),
            tally.0 + tally.1 + tally.2 == amount_compared,
            tally.0 >= 0 && tally.1 >= 0 && tally.2 >= 0,
    {
        let mut larger: i32 = 0;
        let mut equal: i32 = 0;
        let mut smaller: i32 = 0;
        let mut i: usize = 0;
        while i < amount_compared
            invariant
                i <= amount_compared <= 3,
                larger == wins_among(self@, compared@, i as int),
                equal == ties_among(self@, compared@, i as int),
                smaller == losses_among(self@, compared@, i as int),
                larger + equal + smaller == i,
                larger >= 0 && equal >= 0 && smaller >= 0,
            decreases amount_compared - i,
        {
            if self.vals[i] > compared.vals[i] {
                larger += 1;
            } else if self.vals[i] == compared.vals[i] {
                equal += 1;
            } else {
                smaller += 1;
            }
            i += 1;
        }
        (larger, equal, smaller)
    }
}

} // verus!
