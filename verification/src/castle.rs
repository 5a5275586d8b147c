use crate::model::State;
use crate::random::draw_between;
use crate::swaps::lemma_swapped_same_multiset;
use crate::swaps::swapped;
use vstd::prelude::*;

verus! {

/// How many troops a player has to spread over the castles.
pub const TROOPS: u8 = 100;

/// No element is followed by a smaller one.
pub open spec fn is_sorted(s: Seq<u8>) -> bool {
    forall|i: int, j: int| 0 <= i <= j < s.len() ==> s[i] <= s[j]
}

/// `sorted` holds the elements of `s`, each as often, in rising order.
/// There is exactly one such sequence for each `s`.
pub open spec fn is_sorting_of(sorted: Seq<u8>, s: Seq<u8>) -> bool {
    &&& is_sorted(sorted)
    &&& sorted.len() == s.len()
    &&& sorted.to_multiset() == s.to_multiset()
}

/// There is only one way to put a sequence in rising order.
pub proof fn lemma_sorting_is_unique(a: Seq<u8>, b: Seq<u8>, s: Seq<u8>)
    requires
        is_sorting_of(a, s),
        is_sorting_of(b, s),
    ensures
        a == b,
{
    let leq = |x: u8, y: u8| x <= y;
    assert(vstd::relations::total_ordering(leq));
    assert(vstd::relations::sorted_by(a, leq));
    assert(vstd::relations::sorted_by(b, leq));
    vstd::seq_lib::lemma_sorted_unique(a, b, leq);
}

/// Nine cuts, in rising order and none beyond the number of troops.
pub open spec fn valid_cuts(cuts: Seq<u8>) -> bool {
    &&& cuts.len() == 9
    &&& is_sorted(cuts)
    &&& forall|i: int| 0 <= i < 9 ==> cuts[i] <= TROOPS
}

/// The troops sent to each of the ten castles by an allocation with
/// the given cuts: the first cut, then the gaps between neighbouring
/// cuts, then what is left above the last cut.
pub open spec fn troops_of(cuts: Seq<u8>) -> Seq<u8> {
    Seq::new(
        10,
        |i: int|
            if i == 0 {
                cuts[0]
            } else if i < 9 {
                (cuts[i] - cuts[i - 1]) as u8
            } else {
                (TROOPS - cuts[8]) as u8
            },
    )
}

/// The points that `mine` takes from `theirs` over the first `n`
/// castles. Castle number `i`, counted from one, is worth `2 * i` to
/// the side that sent more troops to it and `i` to each side on a draw.
pub open spec fn points(mine: Seq<u8>, theirs: Seq<u8>, n: nat) -> nat
    decreases n,
{
    if n == 0 {
        0
    } else {
        let i = (n - 1) as int;
        points(mine, theirs, (n - 1) as nat) + if mine[i] > theirs[i] {
            2 * n
        } else if mine[i] == theirs[i] {
            n
        } else {
            0
        }
    }
}

/// Whether the allocation with cuts `mine` takes more points over the
/// ten castles than the one with cuts `theirs`.
pub open spec fn wins(mine: Seq<u8>, theirs: Seq<u8>) -> bool {
    points(troops_of(mine), troops_of(theirs), 10) > points(troops_of(theirs), troops_of(mine), 10)
}

/// The cuts after the one at `index` has been moved by one, up or down,
/// before they are put back in order; `None` when the move would leave
/// the range from zero to the number of troops.
pub open spec fn nudge(cuts: Seq<u8>, index: int, up: bool) -> Option<Seq<u8>> {
    if up {
        if cuts[index] < TROOPS {
            Some(cuts.update(index, (cuts[index] + 1) as u8))
        } else {
            None
        }
    } else {
        if cuts[index] > 0 {
            Some(cuts.update(index, (cuts[index] - 1) as u8))
        } else {
            None
        }
    }
}

/// What the first `n` of the eighteen moves make of `cuts`: each cut in
/// turn is moved down, then up, and the moves that leave the range are
/// passed over.
pub open spec fn nudges(cuts: Seq<u8>, n: nat) -> Seq<Seq<u8>>
    decreases n,
{
    if n == 0 {
        Seq::empty()
    } else {
        let before = nudges(cuts, (n - 1) as nat);
        match nudge(cuts, (n - 1) / 2, (n - 1) % 2 == 1) {
            Some(moved) => before.push(moved),
            None => before,
        }
    }
}

/// The cuts read as the digits of a number in base 128, the first `n`
/// of them.
pub open spec fn packed(cuts: Seq<u8>, n: nat) -> nat
    decreases n,
{
    if n == 0 {
        0
    } else {
        packed(cuts, (n - 1) as nat) * 128 + cuts[n - 1] as nat
    }
}

/// The key of the allocation with the given cuts: the cuts read as one
/// number in base 128.
pub open spec fn identity_of(cuts: Seq<u8>) -> u64 {
    packed(cuts, 9) as u64
}

/// The `n`-th power of 128.
pub open spec fn radix(n: nat) -> nat
    decreases n,
{
    if n == 0 {
        1
    } else {
        128 * radix((n - 1) as nat)
    }
}

/// Puts the cuts in rising order. No cut rises above `bound` if none
/// was above it before.
fn sort_cuts(a: &mut [u8; 9], Ghost(bound): Ghost<u8>)
    requires
        forall|k: int| 0 <= k < 9 ==> old(a)@[k] <= bound,
    ensures
        is_sorting_of(final(a)@, old(a)@),
        forall|k: int| 0 <= k < 9 ==> final(a)@[k] <= bound,
{
    let mut i: usize = 1;
    while i < 9
        invariant
            1 <= i <= 9,
            a@.to_multiset() == old(a)@.to_multiset(),
            forall|k: int| 0 <= k < 9 ==> a@[k] <= bound,
            forall|p: int, q: int| 0 <= p <= q < i ==> a@[p] <= a@[q],
        decreases 9 - i,
    {
        let mut j: usize = i;
        while j > 0 && a[j - 1] > a[j]
            invariant
                j <= i < 9,
                a@.to_multiset() == old(a)@.to_multiset(),
                forall|k: int| 0 <= k < 9 ==> a@[k] <= bound,
                forall|p: int, q: int| 0 <= p <= q <= i && p != j && q != j ==> a@[p] <= a@[q],
                forall|q: int| j < q <= i ==> a@[j as int] <= a@[q],
            decreases j,
        {
            let ghost before = a@;
            let low: u8 = a[j];
            let high: u8 = a[j - 1];
            a[j - 1] = low;
            a[j] = high;
            proof {
                assert(a@ =~= swapped(before, j as int, j - 1));
                lemma_swapped_same_multiset(before, j as int, j - 1);
            }
            j = j - 1;
        }
        i = i + 1;
    }
}

/// One way to spend the troops on ten castles, kept as the nine cuts
/// that part them: castle `i` gets the troops between cut `i - 1` and
/// cut `i`. The cuts are in rising order and none is above `TROOPS`.
///
/// The view is the sequence of cuts.
#[derive(Debug, Clone, Copy, Hash, PartialEq, Eq)]
pub struct Castle {
    inner: [u8; 9],
}

impl View for Castle {
    type V = Seq<u8>;

    closed spec fn view(&self) -> Seq<u8> {
        self.inner@
    }
}

impl Castle {
    #[verifier::type_invariant]
    spec fn well_formed(&self) -> bool {
        valid_cuts(self.inner@)
    }

    /// The allocation with the given cuts, put in rising order; `None`
    /// when a cut is above `TROOPS`.
    pub fn from_cuts(cuts: [u8; 9]) -> (made: Option<Castle>)
        ensures
            made is Some <==> forall|i: int| 0 <= i < 9 ==> cuts@[i] <= TROOPS,
            made matches Some(castle) ==> is_sorting_of(castle@, cuts@) && valid_cuts(castle@),
    {
        let mut i: usize = 0;
        while i < 9
            invariant
                i <= 9,
                forall|k: int| 0 <= k < i ==> cuts@[k] <= TROOPS,
            decreases 9 - i,
        {
            if cuts[i] > TROOPS {
                return None;
            }
            i = i + 1;
        }
        let mut inner = cuts;
        sort_cuts(&mut inner, Ghost(TROOPS));
        Some(Castle { inner })
    }

    /// The nine cuts, in rising order.
    pub fn cuts(&self) -> (cuts: [u8; 9])
        ensures
            cuts@ == self@,
            valid_cuts(self@),
    {
        proof {
            use_type_invariant(self);
        }
        self.inner
    }

    /// The troops sent to each of the ten castles, first castle first.
    pub fn troops(&self) -> (troops: Vec<u8>)
        ensures
            troops@ == troops_of(self@),
    {
        proof {
            use_type_invariant(self);
        }
        let mut troops: Vec<u8> = Vec::new();
        troops.push(self.inner[0]);
        let mut i: usize = 0;
        while i < 8
            invariant
                i <= 8,
                valid_cuts(self.inner@),
                troops@.len() == i + 1,
                forall|k: int| 0 <= k <= i ==> troops@[k] == troops_of(self@)[k],
            decreases 8 - i,
        {
            troops.push(self.inner[i + 1] - self.inner[i]);
            i = i + 1;
        }
        troops.push(TROOPS - self.inner[8]);
        assert(troops@ =~= troops_of(self@));
        troops
    }

    /// Whether this allocation takes more points from `other` than
    /// `other` takes from it.
    pub fn does_win(&self, other: &Self) -> (win: bool)
        ensures
            win == wins(self@, other@),
    {
        let mine = self.troops();
        let theirs = other.troops();
        let mut self_points: usize = 0;
        let mut other_points: usize = 0;
        let mut i: usize = 0;
        while i < 10
            invariant
                i <= 10,
                mine@ == troops_of(self@),
                theirs@ == troops_of(other@),
                self_points == points(mine@, theirs@, i as nat),
                other_points == points(theirs@, mine@, i as nat),
                self_points <= 20 * i,
                other_points <= 20 * i,
            decreases 10 - i,
        {
            let worth: usize = i + 1;
            if mine[i] < theirs[i] {
                other_points = other_points + 2 * worth;
            } else if mine[i] == theirs[i] {
                self_points = self_points + worth;
                other_points = other_points + worth;
            } else {
                self_points = self_points + 2 * worth;
            }
            i = i + 1;
        }
        self_points > other_points
    }

    /// An allocation drawn at random: nine cuts, each drawn from zero up
    /// to but not including `TROOPS`, handed to `from_cuts`.
    pub fn from_random() -> (castle: Castle)
        ensures
            valid_cuts(castle@),
            forall|i: int| 0 <= i < 9 ==> castle@[i] < TROOPS,
    {
        let mut draws: [u8; 9] = [0;9];
        let mut i: usize = 0;
        while i < 9
            invariant
                i <= 9,
                forall|k: int| 0 <= k < 9 ==> draws@[k] < TROOPS,
            decreases 9 - i,
        {
            draws[i] = draw_between(0, TROOPS);
            i = i + 1;
        }
        let made = Castle::from_cuts(draws);
        proof {
            let cuts = made->0@;
            assert forall|k: int| 0 <= k < 9 implies cuts[k] < TROOPS by {
                vstd::seq_lib::to_multiset_contains(cuts, cuts[k]);
                vstd::seq_lib::to_multiset_contains(draws@, cuts[k]);
                assert(cuts.contains(cuts[k]));
            }
        }
        made.unwrap()
    }

    /// The allocation that one move makes of this one: the cut at
    /// `index` moved by one, and the cuts put back in order. `None` when
    /// the move would leave the range.
    fn nudged(&self, index: usize, up: bool) -> (moved: Option<Castle>)
        requires
            index < 9,
        ensures
            moved is Some <==> nudge(self@, index as int, up) is Some,
            moved matches Some(castle) ==> valid_cuts(castle@) && is_sorting_of(
                castle@,
                nudge(self@, index as int, up)->0,
            ),
    {
        proof {
            use_type_invariant(self);
        }
        let current: u8 = self.inner[index];
        if (up && current >= TROOPS) || (!up && current == 0) {
            return None;
        }
        let mut inner = self.inner;
        inner[index] = if up {
            current + 1
        } else {
            current - 1
        };
        sort_cuts(&mut inner, Ghost(TROOPS));
        Some(Castle { inner })
    }

    /// The allocations one move away, in the order of the moves: each
    /// cut in turn moved down by one, then up by one, the cuts put back
    /// in order after each move, and moves that would leave the range
    /// passed over.
    pub fn neighbors(&self) -> (around: Vec<Castle>)
        ensures
            around@.len() == nudges(self@, 18).len(),
            forall|k: int|
                0 <= k < around@.len() ==> valid_cuts(around@[k]@) && is_sorting_of(
                    #[trigger] around@[k]@,
                    nudges(self@, 18)[k],
                ),
    {
        let mut around: Vec<Castle> = Vec::new();
        let mut n: usize = 0;
        while n < 18
            invariant
                n <= 18,
                around@.len() == nudges(self@, n as nat).len(),
                forall|k: int|
                    0 <= k < around@.len() ==> valid_cuts(around@[k]@) && is_sorting_of(
                        #[trigger] around@[k]@,
                        nudges(self@, n as nat)[k],
                    ),
            decreases 18 - n,
        {
            match self.nudged(n / 2, n % 2 == 1) {
                Some(castle) => {
                    around.push(castle);
                },
                None => {},
            }
            n = n + 1;
        }
        around
    }
}

impl Default for Castle {
    /// The allocation with every cut at zero, which sends all troops to
    /// the last castle.
    fn default() -> (castle: Castle)
        ensures
            castle@ == Seq::new(9, |i: int| 0u8),
    {
        let inner: [u8; 9] = [0;9];
        assert(inner@ =~= Seq::new(9, |i: int| 0u8));
        Castle { inner }
    }
}

/// The first `n` cuts, read in base 128, stay below the `n`-th power of
/// 128.
proof fn lemma_packed_below_radix(cuts: Seq<u8>, n: nat)
    requires
        n <= cuts.len(),
        forall|i: int| 0 <= i < cuts.len() ==> cuts[i] < 128,
    ensures
        packed(cuts, n) < radix(n),
    decreases n,
{
    if n > 0 {
        lemma_packed_below_radix(cuts, (n - 1) as nat);
    }
}

/// Allocations with the same key have the same cuts.
pub proof fn lemma_identity_tells_apart(a: Seq<u8>, b: Seq<u8>)
    requires
        valid_cuts(a),
        valid_cuts(b),
        identity_of(a) == identity_of(b),
    ensures
        a == b,
{
    lemma_packed_below_radix(a, 9);
    lemma_packed_below_radix(b, 9);
    assert(radix(9) == 0x8000_0000_0000_0000) by {
        reveal_with_fuel(radix, 10);
    }
    lemma_packed_tells_apart(a, b, 9);
    assert(a =~= b);
}

proof fn lemma_packed_tells_apart(a: Seq<u8>, b: Seq<u8>, n: nat)
    requires
        n <= a.len(),
        n <= b.len(),
        forall|i: int| 0 <= i < a.len() ==> a[i] < 128,
        forall|i: int| 0 <= i < b.len() ==> b[i] < 128,
        packed(a, n) == packed(b, n),
    ensures
        forall|i: int| 0 <= i < n ==> a[i] == b[i],
    decreases n,
{
    if n > 0 {
        let p = packed(a, (n - 1) as nat);
        let q = packed(b, (n - 1) as nat);
        assert(p * 128 + a[n - 1] == q * 128 + b[n - 1]);
        assert(p == q && a[n - 1] == b[n - 1]);
        lemma_packed_tells_apart(a, b, (n - 1) as nat);
    }
}

impl State for Castle {
    /// The cuts read as one number in base 128.
    fn key(&self) -> (k: u64)
        ensures
            k == identity_of(self@),
    {
        proof {
            use_type_invariant(self);
            assert(radix(9) == 0x8000_0000_0000_0000) by {
                reveal_with_fuel(radix, 10);
            }
            lemma_packed_below_radix(self.inner@, 9);
        }
        let mut k: u64 = 0;
        let mut i: usize = 0;
        while i < 9
            invariant
                i <= 9,
                valid_cuts(self.inner@),
                k == packed(self.inner@, i as nat),
                packed(self.inner@, 9) < 0x8000_0000_0000_0000,
            decreases 9 - i,
        {
            proof {
                lemma_packed_grows(self.inner@, (i + 1) as nat, 9);
            }
            k = k * 128 + self.inner[i] as u64;
            i = i + 1;
        }
        k
    }
}

/// Reading more cuts never gives a smaller number.
proof fn lemma_packed_grows(cuts: Seq<u8>, n: nat, m: nat)
    requires
        n <= m,
    ensures
        packed(cuts, n) <= packed(cuts, m),
    decreases m,
{
    if n < m {
        lemma_packed_grows(cuts, n, (m - 1) as nat);
    }
}

} // verus!
