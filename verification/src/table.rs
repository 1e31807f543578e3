//! The final table: its order, its selection and the numbers of its lines.
//!
//! A [`Standing`] stands for the rating of one competitor by three integer
//! keys, one for each of its quantities. A key is any integer that orders as
//! the quantity does: of two standings, the one with the greater rating has
//! the greater rating key, and so on. Thresholds are given as keys of the
//! same kind. The table is then a matter of integers. [`key_of_bits`] makes
//! such a key from the 64 bits of a machine real.
//!
//! The competitors are ranked by one quantity ([`ranking`]); competitors that
//! are equal in it keep the order of their slots. The table looks at the
//! first ranks up to a limit, leaves out the standings that the
//! [`Selection`] hides, and numbers the lines that remain ([`listing`]).

use vstd::prelude::*;

verus! {

/// The rating of one competitor as three keys.
#[derive(Clone, Copy, Debug, PartialEq, Eq, Structural)]
pub struct Standing {
    pub rating: i64,
    pub deviation: i64,
    pub volatility: i64,
}

/// The quantity that a table is ordered by.
#[derive(Clone, Copy, Debug, PartialEq, Eq, Structural)]
pub enum Column {
    Rating,
    Deviation,
    Volatility,
}

/// The order of a table: a quantity, and whether greater comes first.
#[derive(Clone, Copy, Debug, PartialEq, Eq, Structural)]
pub struct Order {
    pub column: Column,
    pub descending: bool,
}

/// The sign bit of a 64-bit machine real.
pub const SIGN_BIT: u64 = 0x8000_0000_0000_0000;

/// The bits of positive infinity. Above them, the sign bit apart, are the
/// patterns that stand for no number.
pub const INFINITY_BITS: u64 = 0x7ff0_0000_0000_0000;

/// The bits without the sign bit: the exponent and the fraction.
pub open spec fn magnitude(bits: u64) -> int {
    if bits >= SIGN_BIT {
        bits - SIGN_BIT
    } else {
        bits as int
    }
}

/// The bits stand for a number, infinite or not.
pub open spec fn is_number(bits: u64) -> bool {
    magnitude(bits) <= INFINITY_BITS
}

/// The magnitude of the bits with their sign. Machine reals are written as
/// sign and magnitude, and of two magnitudes the greater stands for the
/// greater absolute value, so numbers are ordered as these integers are;
/// the two zeros share the key zero.
pub open spec fn signed_magnitude(bits: u64) -> int {
    if bits >= SIGN_BIT {
        -magnitude(bits)
    } else {
        magnitude(bits)
    }
}

/// The key of a machine real given by its 64 bits, or `None` where the bits
/// stand for no number: such a value cannot be ordered.
pub fn key_of_bits(bits: u64) -> (key: Option<i64>)
    ensures
        match key {
            Some(key) => is_number(bits) && key == signed_magnitude(bits),
            None => !is_number(bits),
        },
{
    if bits >= SIGN_BIT {
        let magnitude = bits - SIGN_BIT;
        if magnitude <= INFINITY_BITS {
            Some(-(magnitude as i64))
        } else {
            None
        }
    } else if bits <= INFINITY_BITS {
        Some(bits as i64)
    } else {
        None
    }
}

/// Keys follow sign and magnitude. Among patterns without the sign bit the
/// greater pattern has the greater key, among patterns with it the lesser. A
/// pattern with the sign bit never has the greater key, and has an equal one
/// only where both are zeros.
pub proof fn lemma_keys_follow_sign_and_magnitude(a: u64, b: u64)
    ensures
        a < SIGN_BIT && b < SIGN_BIT ==> (signed_magnitude(a) < signed_magnitude(b) <==> a < b),
        a >= SIGN_BIT && b >= SIGN_BIT ==> (signed_magnitude(a) < signed_magnitude(b) <==> a > b),
        a >= SIGN_BIT && b < SIGN_BIT ==> signed_magnitude(a) <= signed_magnitude(b),
        a >= SIGN_BIT && b < SIGN_BIT ==> (signed_magnitude(a) == signed_magnitude(b) <==> a
            == SIGN_BIT && b == 0),
{
}

impl Standing {
    /// The key of the standing in a column.
    pub open spec fn key(self, column: Column) -> int {
        match column {
            Column::Rating => self.rating as int,
            Column::Deviation => self.deviation as int,
            Column::Volatility => self.volatility as int,
        }
    }
}

impl Order {
    /// The order that three switches ask for. By default the table goes by
    /// rating, greatest first. `by_deviation` orders it by deviation, least
    /// first, and has precedence over `by_volatility`, which orders it by
    /// volatility, greatest first. `reverse` turns the chosen order round.
    pub open spec fn for_switches(by_deviation: bool, by_volatility: bool, reverse: bool) -> Order {
        if by_deviation {
            Order { column: Column::Deviation, descending: reverse }
        } else if by_volatility {
            Order { column: Column::Volatility, descending: !reverse }
        } else {
            Order { column: Column::Rating, descending: !reverse }
        }
    }

    /// The order that three switches ask for.
    pub fn from_switches(by_deviation: bool, by_volatility: bool, reverse: bool) -> (order: Order)
        ensures
            order == Order::for_switches(by_deviation, by_volatility, reverse),
    {
        if by_deviation {
            Order { column: Column::Deviation, descending: reverse }
        } else if by_volatility {
            Order { column: Column::Volatility, descending: !reverse }
        } else {
            Order { column: Column::Rating, descending: !reverse }
        }
    }

    /// The order puts `a` strictly before `b`.
    pub open spec fn precedes(self, a: Standing, b: Standing) -> bool {
        if self.descending {
            a.key(self.column) > b.key(self.column)
        } else {
            a.key(self.column) < b.key(self.column)
        }
    }

    /// Whether the order puts `a` strictly before `b`.
    pub fn puts_first(&self, a: &Standing, b: &Standing) -> (first: bool)
        ensures
            first == self.precedes(*a, *b),
    {
        let (key_a, key_b) = match self.column {
            Column::Rating => (a.rating, b.rating),
            Column::Deviation => (a.deviation, b.deviation),
            Column::Volatility => (a.volatility, b.volatility),
        };
        if self.descending {
            key_a > key_b
        } else {
            key_a < key_b
        }
    }
}

/// The competitor in slot `a` comes before the one in slot `b`: the order
/// puts its standing first, or it puts neither first and `a` is the lower
/// slot.
pub open spec fn before(standings: Seq<Standing>, order: Order, a: int, b: int) -> bool {
    order.precedes(standings[a], standings[b]) || (!order.precedes(standings[b], standings[a])
        && a < b)
}

/// `ranks` lists the slots from `low` up to `high`, each once, every one
/// before the next.
pub open spec fn ranks_between(
    standings: Seq<Standing>,
    order: Order,
    ranks: Seq<usize>,
    low: int,
    high: int,
) -> bool {
    &&& ranks.len() == high - low
    &&& forall|i: int| 0 <= i < ranks.len() ==> low <= #[trigger] ranks[i] < high
    &&& forall|slot: usize| low <= slot < high ==> #[trigger] ranks.contains(slot)
    &&& forall|i: int, j: int|
        0 <= i < j < ranks.len() ==> before(
            standings,
            order,
            #[trigger] ranks[i] as int,
            #[trigger] ranks[j] as int,
        )
}

/// `ranks` is the ranking of the standings: all slots, each once, every one
/// before the next.
pub open spec fn is_ranking(standings: Seq<Standing>, order: Order, ranks: Seq<usize>) -> bool {
    ranks_between(standings, order, ranks, 0, standings.len() as int)
}

/// Standings have one ranking only.
pub proof fn lemma_ranking_is_unique(
    standings: Seq<Standing>,
    order: Order,
    ranks: Seq<usize>,
    other: Seq<usize>,
)
    requires
        is_ranking(standings, order, ranks),
        is_ranking(standings, order, other),
    ensures
        ranks == other,
{
    assert forall|i: int| 0 <= i < ranks.len() implies ranks[i] == other[i] by {
        lemma_rankings_agree(standings, order, ranks, other, i);
    }
    assert(ranks =~= other);
}

/// Two rankings of the same standings hold the same slot at every rank:
/// were the slots at the first such rank different, each would have to come
/// before the other.
proof fn lemma_rankings_agree(
    standings: Seq<Standing>,
    order: Order,
    ranks: Seq<usize>,
    other: Seq<usize>,
    at: int,
)
    requires
        is_ranking(standings, order, ranks),
        is_ranking(standings, order, other),
        0 <= at < ranks.len(),
    ensures
        ranks[at] == other[at],
    decreases at,
{
    assert forall|i: int| 0 <= i < at implies ranks[i] == other[i] by {
        lemma_rankings_agree(standings, order, ranks, other, i);
    }
    let x = ranks[at];
    let y = other[at];
    if x != y {
        assert(other.contains(x));
        let p = choose|p: int| 0 <= p < other.len() && other[p] == x;
        assert(ranks.contains(y));
        let q = choose|q: int| 0 <= q < ranks.len() && ranks[q] == y;
        if p < at {
            assert(before(standings, order, ranks[p] as int, ranks[at] as int));
        } else if q < at {
            assert(before(standings, order, other[q] as int, other[at] as int));
        } else {
            assert(before(standings, order, other[at] as int, other[p] as int));
            assert(before(standings, order, ranks[at] as int, ranks[q] as int));
        }
    }
}

/// The ranking of the standings.
pub open spec fn ranked(standings: Seq<Standing>, order: Order) -> Seq<usize> {
    choose|ranks: Seq<usize>| is_ranking(standings, order, ranks)
}

/// Merge the rankings of two neighbouring ranges of slots into the ranking
/// of both.
fn merge(
    standings: &Vec<Standing>,
    order: Order,
    left: &Vec<usize>,
    right: &Vec<usize>,
    low: usize,
    middle: usize,
    high: usize,
) -> (merged: Vec<usize>)
    requires
        low <= middle <= high <= standings.len(),
        ranks_between(standings@, order, left@, low as int, middle as int),
        ranks_between(standings@, order, right@, middle as int, high as int),
    ensures
        ranks_between(standings@, order, merged@, low as int, high as int),
{
    let mut merged: Vec<usize> = Vec::with_capacity(left.len() + right.len());
    let mut i: usize = 0;
    let mut j: usize = 0;
    while i < left.len() || j < right.len()
        invariant
            low <= middle <= high <= standings.len(),
            ranks_between(standings@, order, left@, low as int, middle as int),
            ranks_between(standings@, order, right@, middle as int, high as int),
            i <= left.len(),
            j <= right.len(),
            merged.len() == i + j,
            forall|k: int| 0 <= k < merged.len() ==> low <= #[trigger] merged[k] < high,
            forall|a: int| 0 <= a < i ==> merged@.contains(#[trigger] left[a]),
            forall|b: int| 0 <= b < j ==> merged@.contains(#[trigger] right[b]),
            forall|k: int, l: int|
                0 <= k < l < merged.len() ==> before(
                    standings@,
                    order,
                    #[trigger] merged[k] as int,
                    #[trigger] merged[l] as int,
                ),
            forall|k: int, a: int|
                0 <= k < merged.len() && i <= a < left.len() ==> before(
                    standings@,
                    order,
                    #[trigger] merged[k] as int,
                    #[trigger] left[a] as int,
                ),
            forall|k: int, b: int|
                0 <= k < merged.len() && j <= b < right.len() ==> before(
                    standings@,
                    order,
                    #[trigger] merged[k] as int,
                    #[trigger] right[b] as int,
                ),
        decreases left.len() - i + right.len() - j,
    {
        let ghost earlier = merged@;
        // The left one goes first unless the right one is strictly ahead:
        // its slot is the lower.
        let from_left = if i == left.len() {
            false
        } else if j == right.len() {
            true
        } else {
            !order.puts_first(&standings[right[j]], &standings[left[i]])
        };
        if from_left {
            let slot = left[i];
            merged.push(slot);
            proof {
                assert forall|b: int| j <= b < right.len() implies before(
                    standings@,
                    order,
                    slot as int,
                    #[trigger] right[b] as int,
                ) by {
                    if b > j {
                        assert(before(standings@, order, right[j as int] as int, right[b] as int));
                    }
                }
            }
            i += 1;
        } else {
            let slot = right[j];
            merged.push(slot);
            proof {
                assert forall|a: int| i <= a < left.len() implies before(
                    standings@,
                    order,
                    slot as int,
                    #[trigger] left[a] as int,
                ) by {
                    if a > i {
                        assert(before(standings@, order, left[i as int] as int, left[a] as int));
                    }
                }
            }
            j += 1;
        }
        proof {
            let last = earlier.len() as int;
            assert(merged@ =~= earlier.push(merged[last]));
            assert forall|a: int| 0 <= a < i implies merged@.contains(#[trigger] left[a]) by {
                if a == i - 1 && from_left {
                    assert(merged[last] == left[a]);
                } else {
                    assert(earlier.contains(left[a]));
                    let k = choose|k: int| 0 <= k < earlier.len() && earlier[k] == left[a];
                    assert(merged[k] == left[a]);
                }
            }
            assert forall|b: int| 0 <= b < j implies merged@.contains(#[trigger] right[b]) by {
                if b == j - 1 && !from_left {
                    assert(merged[last] == right[b]);
                } else {
                    assert(earlier.contains(right[b]));
                    let k = choose|k: int| 0 <= k < earlier.len() && earlier[k] == right[b];
                    assert(merged[k] == right[b]);
                }
            }
        }
    }
    proof {
        assert forall|slot: usize| low <= slot < high implies #[trigger] merged@.contains(slot) by {
            if slot < middle {
                assert(left@.contains(slot));
                let a = choose|a: int| 0 <= a < left.len() && left[a] == slot;
                assert(merged@.contains(left[a]));
            } else {
                assert(right@.contains(slot));
                let b = choose|b: int| 0 <= b < right.len() && right[b] == slot;
                assert(merged@.contains(right[b]));
            }
        }
    }
    merged
}

/// Rank the slots from `low` up to `high` by merging the rankings of the
/// two halves of the range.
fn rank_between(standings: &Vec<Standing>, order: Order, low: usize, high: usize) -> (ranks: Vec<
    usize,
>)
    requires
        low <= high <= standings.len(),
    ensures
        ranks_between(standings@, order, ranks@, low as int, high as int),
    decreases high - low,
{
    if high - low == 0 {
        Vec::new()
    } else if high - low == 1 {
        let ranks = vec![low];
        assert(ranks@[0] == low);
        ranks
    } else {
        let middle = low + (high - low) / 2;
        let left = rank_between(standings, order, low, middle);
        let right = rank_between(standings, order, middle, high);
        merge(standings, order, &left, &right, low, middle, high)
    }
}

/// Rank the competitors: the slots in the order of the table. Competitors
/// with equal keys in the column of the order stay in the order of their
/// slots, whichever way the order runs.
pub fn ranking(standings: &Vec<Standing>, order: Order) -> (ranks: Vec<usize>)
    ensures
        is_ranking(standings@, order, ranks@),
        ranks@ == ranked(standings@, order),
{
    let ranks = rank_between(standings, order, 0, standings.len());
    proof {
        assert(is_ranking(standings@, order, ranks@));
        lemma_ranking_is_unique(standings@, order, ranks@, ranked(standings@, order));
    }
    ranks
}

/// What a table leaves out, and how it numbers what is left.
#[derive(Clone, Copy, Debug, PartialEq, Eq)]
pub struct Selection {
    /// Standings with a deviation above this key are left out.
    pub maximum_deviation: Option<i64>,
    /// Standings with a deviation below this key are left out.
    pub minimum_deviation: Option<i64>,
    /// Standings with a deviation above this key are provisional.
    pub provisional_above: i64,
    /// Provisional standings are left out.
    pub hide_provisional: bool,
    /// Only this many ranks, from the first, are looked at.
    pub limit: Option<u32>,
    /// Lines are numbered without gaps. Otherwise a line has the number of
    /// its rank, and the ranks that are left out are missing among the
    /// numbers.
    pub close_gaps: bool,
}

/// One line of the table.
#[derive(Clone, Copy, Debug, PartialEq, Eq, Structural)]
pub struct Line {
    /// The slot of the competitor.
    pub slot: usize,
    /// The number in front of the line, counted from one.
    pub number: usize,
    /// The standing is provisional.
    pub provisional: bool,
}

impl Selection {
    /// The standing is provisional: its deviation is above the threshold.
    pub open spec fn provisional(self, standing: Standing) -> bool {
        standing.deviation > self.provisional_above
    }

    /// The standing is left out of the table.
    pub open spec fn hides(self, standing: Standing) -> bool {
        ||| self.maximum_deviation matches Some(most) && standing.deviation > most
        ||| self.minimum_deviation matches Some(least) && standing.deviation < least
        ||| self.hide_provisional && self.provisional(standing)
    }

    /// The number of ranks that the table looks at, out of `count`.
    pub open spec fn considered(self, count: int) -> int {
        match self.limit {
            Some(limit) => if limit < count {
                limit as int
            } else {
                count
            },
            None => count,
        }
    }

    /// Whether the standing is provisional.
    pub fn is_provisional(&self, standing: &Standing) -> (provisional: bool)
        ensures
            provisional == self.provisional(*standing),
    {
        standing.deviation > self.provisional_above
    }

    /// Whether the standing is left out of the table.
    pub fn is_hidden(&self, standing: &Standing) -> (hidden: bool)
        ensures
            hidden == self.hides(*standing),
    {
        let above = match self.maximum_deviation {
            Some(most) => standing.deviation > most,
            None => false,
        };
        let below = match self.minimum_deviation {
            Some(least) => standing.deviation < least,
            None => false,
        };
        above || below || (self.hide_provisional && self.is_provisional(standing))
    }
}

/// The number of standings left out among the first `upto` ranks.
pub open spec fn hidden_among(
    standings: Seq<Standing>,
    selection: Selection,
    ranks: Seq<usize>,
    upto: int,
) -> int
    decreases upto,
{
    if upto <= 0 {
        0
    } else {
        hidden_among(standings, selection, ranks, upto - 1) + if selection.hides(
            standings[ranks[upto - 1] as int],
        ) {
            1int
        } else {
            0int
        }
    }
}

/// The line of the competitor at a rank. Its number is the rank counted
/// from one, less the standings left out before it where gaps are closed.
pub open spec fn line_at(
    standings: Seq<Standing>,
    selection: Selection,
    ranks: Seq<usize>,
    rank: int,
) -> Line {
    let gaps = if selection.close_gaps {
        hidden_among(standings, selection, ranks, rank)
    } else {
        0
    };
    Line {
        slot: ranks[rank],
        number: (rank + 1 - gaps) as usize,
        provisional: selection.provisional(standings[ranks[rank] as int]),
    }
}

/// The lines of the first `upto` ranks: one for each standing that is not
/// left out, in the order of the ranks.
pub open spec fn lines_among(
    standings: Seq<Standing>,
    selection: Selection,
    ranks: Seq<usize>,
    upto: int,
) -> Seq<Line>
    decreases upto,
{
    if upto <= 0 {
        Seq::empty()
    } else {
        let earlier = lines_among(standings, selection, ranks, upto - 1);
        if selection.hides(standings[ranks[upto - 1] as int]) {
            earlier
        } else {
            earlier.push(line_at(standings, selection, ranks, upto - 1))
        }
    }
}

/// The table of the standings: the lines of the ranks that the selection
/// looks at.
pub open spec fn listed(standings: Seq<Standing>, order: Order, selection: Selection) -> Seq<
    Line,
> {
    let ranks = ranked(standings, order);
    lines_among(standings, selection, ranks, selection.considered(ranks.len() as int))
}

/// Every rank gives a line or is left out, and the lines are numbered
/// upwards from one: without gaps where gaps are closed, by rank otherwise.
pub proof fn lemma_lines_are_numbered(
    standings: Seq<Standing>,
    selection: Selection,
    ranks: Seq<usize>,
    upto: int,
)
    requires
        0 <= upto <= ranks.len() <= usize::MAX,
    ensures
        0 <= hidden_among(standings, selection, ranks, upto) <= upto,
        lines_among(standings, selection, ranks, upto).len() + hidden_among(
            standings,
            selection,
            ranks,
            upto,
        ) == upto,
        forall|i: int|
            0 <= i < lines_among(standings, selection, ranks, upto).len() ==> {
                let line = #[trigger] lines_among(standings, selection, ranks, upto)[i];
                &&& i + 1 <= line.number <= upto
                &&& selection.close_gaps ==> line.number == i + 1
                &&& !selection.close_gaps ==> ranks[line.number - 1] == line.slot
                &&& !selection.hides(standings[line.slot as int])
                &&& line.provisional == selection.provisional(standings[line.slot as int])
            },
        forall|i: int, j: int|
            0 <= i < j < lines_among(standings, selection, ranks, upto).len() ==> (
            #[trigger] lines_among(standings, selection, ranks, upto)[i]).number < (
            #[trigger] lines_among(standings, selection, ranks, upto)[j]).number,
    decreases upto,
{
    if upto > 0 {
        lemma_lines_are_numbered(standings, selection, ranks, upto - 1);
        let earlier = lines_among(standings, selection, ranks, upto - 1);
        let lines = lines_among(standings, selection, ranks, upto);
        let last = line_at(standings, selection, ranks, upto - 1);
        assert forall|i: int| 0 <= i < lines.len() implies {
            let line = #[trigger] lines[i];
            &&& i + 1 <= line.number <= upto
            &&& selection.close_gaps ==> line.number == i + 1
            &&& !selection.close_gaps ==> ranks[line.number - 1] == line.slot
            &&& !selection.hides(standings[line.slot as int])
            &&& line.provisional == selection.provisional(standings[line.slot as int])
        } by {
            if i < earlier.len() {
                assert(lines[i] == earlier[i]);
            } else {
                assert(lines[i] == last);
            }
        }
        assert forall|i: int, j: int| 0 <= i < j < lines.len() implies (#[trigger] lines[i]).number
            < (#[trigger] lines[j]).number by {
            assert(lines[i] == earlier[i]);
            if j < earlier.len() {
                assert(lines[j] == earlier[j]);
            } else {
                assert(lines[j] == last);
            }
        }
    }
}

/// The number of decimal digits of a count.
pub open spec fn digits(count: nat) -> nat
    decreases count,
{
    if count < 10 {
        1
    } else {
        1 + digits(count / 10)
    }
}

/// The width of the number column of a table with `count` competitors: the
/// number of decimal digits of `count`.
pub fn number_width(count: usize) -> (width: usize)
    ensures
        width == digits(count as nat),
{
    let mut rest: usize = count;
    let mut width: usize = 1;
    while rest >= 10
        invariant
            1 <= width,
            width + rest <= count + 1,
            width + digits(rest as nat) == 1 + digits(count as nat),
        decreases rest,
    {
        rest = rest / 10;
        width += 1;
    }
    width
}

/// Make the table of the standings: rank them, look at the first ranks up to
/// the limit, leave out what the selection hides, and number the lines.
pub fn listing(standings: &Vec<Standing>, order: Order, selection: &Selection) -> (lines: Vec<
    Line,
>)
    ensures
        lines@ == listed(standings@, order, *selection),
{
    let ranks = ranking(standings, order);
    let considered: usize = match selection.limit {
        Some(limit) => if (limit as usize) < ranks.len() {
            limit as usize
        } else {
            ranks.len()
        },
        None => ranks.len(),
    };
    let mut lines: Vec<Line> = Vec::new();
    let mut hidden: usize = 0;
    let mut rank: usize = 0;
    while rank < considered
        invariant
            rank <= considered <= ranks.len(),
            is_ranking(standings@, order, ranks@),
            hidden == hidden_among(standings@, *selection, ranks@, rank as int),
            hidden <= rank,
            lines@ == lines_among(standings@, *selection, ranks@, rank as int),
        decreases considered - rank,
    {
        let slot = ranks[rank];
        let standing = &standings[slot];
        if selection.is_hidden(standing) {
            hidden += 1;
        } else {
            let number = if selection.close_gaps {
                rank + 1 - hidden
            } else {
                rank + 1
            };
            lines.push(Line { slot, number, provisional: selection.is_provisional(standing) });
        }
        rank += 1;
    }
    lines
}

} // verus!
