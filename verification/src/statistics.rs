//! Statistics over finished games.

use crate::board::{BoardView, ShutTheBox};
use hdrhistogram::{Histogram, RecordError};
use vstd::multiset::Multiset;
use vstd::prelude::*;

verus! {

/// The number of tiles, and so of buckets, that statistics are kept for.
pub const BUCKETS: usize = 12;

/// The significant digits that the histogram of gaps keeps.
pub const GAP_DIGITS: u8 = 4;

/// `hdrhistogram::RecordError`, with which a histogram refuses a value.
#[verifier::external_type_specification]
#[verifier::external_body]
pub struct ExRecordError(RecordError);

/// A `hdrhistogram::Histogram` with `u64` counts. Verus sees nothing of it:
/// what is known of it is what the functions below state.
#[verifier::external_body]
#[derive(Debug)]
pub struct GapHistogram {
    histogram: Histogram<u64>,
}

/// The values that were recorded in a histogram, each as often as it was recorded.
pub uninterp spec fn recorded(h: GapHistogram) -> Multiset<u64>;

/// The number of significant digits that a histogram was made to keep.
pub uninterp spec fn digits(h: GapHistogram) -> u8;

/// What `Histogram::count_between` answers for the range from `low` to
/// `high`, on a histogram that was made by `Histogram::new` to keep `digits`
/// significant digits and in which `samples` were recorded.
pub uninterp spec fn counted_between(samples: Multiset<u64>, digits: u8, low: u64, high: u64) -> u64;

/// `Histogram::<u64>::new`, which makes a histogram that resizes itself and
/// keeps `sigfig` significant digits. It refuses more than 5 digits, which
/// `requires` leaves out; its other errors concern the bounds, which `new`
/// itself sets to 1 and 2, and a `usize` of fewer than 32 bits. A new
/// histogram holds nothing.
#[verifier::external_body]
fn new_histogram(sigfig: u8) -> (h: GapHistogram)
    requires
        sigfig <= 5,
    ensures
        recorded(h) == Multiset::<u64>::empty(),
        digits(h) == sigfig,
{
    GapHistogram { histogram: Histogram::<u64>::new(sigfig).unwrap() }
}

/// `Histogram::record`, which counts `value` once more, or refuses it and
/// leaves the histogram as it was. When it refuses is not claimed.
#[verifier::external_body]
fn record(h: &mut GapHistogram, value: u64) -> (done: Result<(), RecordError>)
    ensures
        done is Ok ==> recorded(*final(h)) == recorded(*old(h)).insert(value),
        done is Ok ==> digits(*final(h)) == digits(*old(h)),
        done is Err ==> *final(h) == *old(h),
{
    h.histogram.record(value)
}

/// `Histogram::count_between`, which counts the recorded values from `low`
/// to `high`, as exactly as the histogram tells values apart. The counts
/// that it adds up are kept per value recorded, in places that the digits
/// fix, so that the answer rests on the digits, on what was recorded and on
/// the range.
#[verifier::external_body]
fn count_between(h: &GapHistogram, low: u64, high: u64) -> (count: u64)
    ensures
        count == counted_between(recorded(*h), digits(*h), low, high),
{
    h.histogram.count_between(low, high)
}

/// The ranges of width `step` that start at `min`, at `min + step` and so
/// on, as long as the start lies below `max`: each with its start and the
/// start of the next.
pub open spec fn ranges(min: u64, max: u64, step: u64) -> Seq<(u64, u64)>
    decreases
        if min < max {
            max - min
        } else {
            0
        },
{
    if min < max && step > 0 && min + step <= u64::MAX {
        seq![(min, (min + step) as u64)] + ranges((min + step) as u64, max, step)
    } else {
        Seq::empty()
    }
}

/// The ranges of width `step` from `min` to `max`.
pub fn arange(min: u64, max: u64, step: u64) -> (bounds: Vec<(u64, u64)>)
    requires
        step > 0,
        max + step <= u64::MAX,
    ensures
        bounds@ == ranges(min, max, step),
{
    let mut bounds: Vec<(u64, u64)> = Vec::new();
    let mut low = min;
    while low < max
        invariant
            step > 0,
            max + step <= u64::MAX,
            bounds@ + ranges(low, max, step) == ranges(min, max, step),
        decreases
            if low < max {
                max - low
            } else {
                0
            },
    {
        let high = low + step;
        proof {
            assert(bounds@.push((low, high)) + ranges(high, max, step) == bounds@ + (seq![
                (low, high),
            ] + ranges(high, max, step)));
        }
        bounds.push((low, high));
        low = high;
    }
    assert(bounds@ + Seq::<(u64, u64)>::empty() == bounds@);
    bounds
}

/// How often `t` occurs in `s`.
pub open spec fn occurrences(s: Seq<usize>, t: usize) -> nat
    decreases s.len(),
{
    if s.len() == 0 {
        0
    } else {
        occurrences(s.drop_last(), t) + if s.last() == t {
            1nat
        } else {
            0nat
        }
    }
}

/// `counts` with one more in `bucket`; unchanged where there is no such bucket.
pub open spec fn bump(counts: Seq<nat>, bucket: int) -> Seq<nat> {
    if 0 <= bucket < counts.len() {
        counts.update(bucket, counts[bucket] + 1)
    } else {
        counts
    }
}

/// Every count fits in a `u64`.
pub open spec fn all_fit(counts: Seq<nat>) -> bool {
    forall|i: int| 0 <= i < counts.len() ==> #[trigger] counts[i] <= u64::MAX
}

/// The counts as numbers.
pub open spec fn as_nats(counts: Seq<u64>) -> Seq<nat> {
    Seq::new(counts.len(), |i: int| counts[i] as nat)
}

/// The counters of the statistics: what does not depend on the order in
/// which the games were saved.
#[verifier::ext_equal]
pub struct Counters {
    /// The games saved.
    pub total: nat,
    /// The games won among them.
    pub won: nat,
    /// For each tile, how often it was shut: `shut[t - 1]` for tile `t`.
    pub shut: Seq<nat>,
    /// The games by their number of rolls: `nrolls[n - 1]` for `n` rolls.
    pub nrolls: Seq<nat>,
    /// The games by their last roll: `lastroll[r - 1]` for a last roll of `r`.
    pub lastroll: Seq<nat>,
}

impl Counters {
    /// No game saved, with `buckets` buckets in each list.
    pub open spec fn zero(buckets: nat) -> Counters {
        Counters {
            total: 0,
            won: 0,
            shut: Seq::new(buckets, |i: int| 0nat),
            nrolls: Seq::new(buckets, |i: int| 0nat),
            lastroll: Seq::new(buckets, |i: int| 0nat),
        }
    }

    /// Every counter fits in a `u64`.
    pub open spec fn fits(self) -> bool {
        &&& self.total <= u64::MAX
        &&& self.won <= u64::MAX
        &&& all_fit(self.shut)
        &&& all_fit(self.nrolls)
        &&& all_fit(self.lastroll)
    }

    /// The counters after `game` is counted: one game more, one win more if
    /// it is won, each tile once more for each time that the game's history
    /// names it, and one more in the buckets of the game's number of rolls and
    /// of its last roll.
    pub open spec fn add(self, game: BoardView) -> Counters {
        Counters {
            total: self.total + 1,
            won: if game.victory() {
                self.won + 1
            } else {
                self.won
            },
            shut: Seq::new(
                self.shut.len(),
                |i: int| self.shut[i] + occurrences(game.numbers, (i + 1) as usize),
            ),
            nrolls: bump(self.nrolls, game.rolls.len() - 1),
            lastroll: if game.rolls.len() > 0 {
                bump(self.lastroll, game.rolls.last() - 1)
            } else {
                self.lastroll
            },
        }
    }
}

/// What the statistics hold.
pub struct StatisticsView {
    /// The counters.
    pub counters: Counters,
    /// How many games had been saved when the last won game came; 0 before the first win.
    pub last_won: nat,
    /// For each win, the games saved since the win before it.
    pub gaps: Multiset<u64>,
    /// The significant digits to which the gaps are told apart when they are counted.
    pub digits: u8,
}

impl StatisticsView {
    /// Statistics with `buckets` buckets in which no game is saved.
    pub open spec fn empty(buckets: nat) -> StatisticsView {
        StatisticsView {
            counters: Counters::zero(buckets),
            last_won: 0,
            gaps: Multiset::empty(),
            digits: GAP_DIGITS,
        }
    }

    /// The lists have one length, and no more games are won, nor had been
    /// saved at the last win, than are saved.
    pub open spec fn wf(self) -> bool {
        &&& self.counters.shut.len() == self.counters.nrolls.len()
        &&& self.counters.shut.len() == self.counters.lastroll.len()
        &&& self.counters.won <= self.counters.total
        &&& self.last_won <= self.counters.total
    }

    /// The statistics have a bucket for each thing to count in `game`: the
    /// game has a roll, no more rolls than there are buckets, a last roll
    /// and tiles shut that are numbered from 1 to the number of buckets.
    pub open spec fn has_buckets_for(self, game: BoardView) -> bool {
        &&& 1 <= game.rolls.len() <= self.counters.nrolls.len()
        &&& 1 <= game.rolls.last() <= self.counters.lastroll.len()
        &&& forall|k: int|
            0 <= k < game.numbers.len() ==> 1 <= #[trigger] game.numbers[k]
                <= self.counters.shut.len()
    }

    /// `game` can be saved: there is a bucket for everything, and no counter
    /// leaves the range of `u64`.
    pub open spec fn accepts(self, game: BoardView) -> bool {
        &&& self.has_buckets_for(game)
        &&& self.counters.add(game).fits()
    }

    /// The games saved since the last win.
    pub open spec fn gap(self) -> u64 {
        (self.counters.total - self.last_won) as u64
    }

    /// The statistics after `game` is counted, the gaps left as they are.
    pub open spec fn counted(self, game: BoardView) -> StatisticsView {
        StatisticsView {
            counters: self.counters.add(game),
            last_won: if game.victory() {
                self.counters.total
            } else {
                self.last_won
            },
            gaps: self.gaps,
            digits: self.digits,
        }
    }

    /// The statistics after `game` is saved: the game is counted, and for a
    /// won game the gap since the last win is recorded.
    pub open spec fn save_game(self, game: BoardView) -> StatisticsView {
        StatisticsView {
            gaps: if game.victory() {
                self.gaps.insert(self.gap())
            } else {
                self.gaps
            },
            ..self.counted(game)
        }
    }

    /// How many gaps the histogram counts from `low` to the value before
    /// `high`; none where `high` is 0.
    pub open spec fn count_range(self, low: u64, high: u64) -> u64 {
        if high == 0 {
            0
        } else {
            counted_between(self.gaps, self.digits, low, (high - 1) as u64)
        }
    }

    /// The statistics after the games of `games` are saved one after the other.
    pub open spec fn save_all(self, games: Seq<BoardView>) -> StatisticsView
        decreases games.len(),
    {
        if games.len() == 0 {
            self
        } else {
            self.save_all(games.drop_last()).save_game(games.last())
        }
    }
}

/// Counts the tiles of `numbers` on top of `counts`, the bucket `t - 1` for
/// tile `t`. Nothing where a number has no bucket or a count would leave the
/// range of `u64`.
fn tally(counts: &Vec<u64>, numbers: &Vec<usize>) -> (sums: Option<Vec<u64>>)
    ensures
        sums is Some <==> {
            &&& forall|k: int|
                0 <= k < numbers@.len() ==> 1 <= #[trigger] numbers@[k] <= counts@.len()
            &&& forall|i: int|
                0 <= i < counts@.len() ==> counts@[i] + #[trigger] occurrences(
                    numbers@,
                    (i + 1) as usize,
                ) <= u64::MAX
        },
        sums matches Some(v) ==> {
            &&& v@.len() == counts@.len()
            &&& forall|i: int|
                0 <= i < counts@.len() ==> #[trigger] v@[i] == counts@[i] + occurrences(
                    numbers@,
                    (i + 1) as usize,
                )
        },
{
    let mut sums = counts.clone();
    let mut k: usize = 0;
    while k < numbers.len()
        invariant
            k <= numbers@.len(),
            sums@.len() == counts@.len(),
            forall|j: int| 0 <= j < k ==> 1 <= #[trigger] numbers@[j] <= counts@.len(),
            forall|i: int|
                0 <= i < counts@.len() ==> #[trigger] sums@[i] == counts@[i] + occurrences(
                    numbers@.take(k as int),
                    (i + 1) as usize,
                ),
        decreases numbers@.len() - k,
    {
        let t = numbers[k];
        if t == 0 || t > sums.len() {
            return None;
        }
        proof {
            assert(numbers@.take(k + 1).drop_last() == numbers@.take(k as int));
            lemma_occurrences_prefix(numbers@, k + 1, t);
        }
        if sums[t - 1] == u64::MAX {
            return None;
        }
        sums[t - 1] += 1;
        k += 1;
    }
    assert(numbers@.take(k as int) == numbers@);
    assert forall|i: int| 0 <= i < counts@.len() implies counts@[i] + #[trigger] occurrences(
        numbers@,
        (i + 1) as usize,
    ) <= u64::MAX by {
        assert(sums@[i] == counts@[i] + occurrences(numbers@, (i + 1) as usize));
    }
    Some(sums)
}

/// The counts of the tiles after a game fit in `u64` exactly when each count
/// with the occurrences of its tile does.
proof fn lemma_tally_fits(counts: Seq<u64>, numbers: Seq<usize>)
    ensures
        all_fit(
            Seq::new(
                as_nats(counts).len(),
                |i: int| as_nats(counts)[i] + occurrences(numbers, (i + 1) as usize),
            ),
        ) <==> forall|i: int|
            0 <= i < counts.len() ==> counts[i] + #[trigger] occurrences(numbers, (i + 1) as usize)
                <= u64::MAX,
{
    let after = Seq::new(
        as_nats(counts).len(),
        |i: int| as_nats(counts)[i] + occurrences(numbers, (i + 1) as usize),
    );
    if all_fit(after) {
        assert forall|i: int| 0 <= i < counts.len() implies counts[i] + #[trigger] occurrences(
            numbers,
            (i + 1) as usize,
        ) <= u64::MAX by {
            assert(after[i] <= u64::MAX);
        }
    }
}

/// A value occurs no more often in the first `k` places of a list than in all of it.
pub proof fn lemma_occurrences_prefix(s: Seq<usize>, k: int, t: usize)
    requires
        0 <= k <= s.len(),
    ensures
        occurrences(s.take(k), t) <= occurrences(s, t),
    decreases s.len() - k,
{
    if k < s.len() {
        lemma_occurrences_prefix(s, k + 1, t);
        assert(s.take(k + 1).drop_last() == s.take(k));
    } else {
        assert(s.take(k) == s);
    }
}

/// Counting two games gives the same counters in either order.
pub proof fn lemma_add_commutes(c: Counters, x: BoardView, y: BoardView)
    ensures
        c.add(x).add(y) == c.add(y).add(x),
{
    assert(c.add(x).add(y) =~= c.add(y).add(x));
}

/// The counters after games are saved are the counters before with each
/// game counted: the gaps between wins play no part in them.
pub proof fn lemma_counters_of_saved(stats: StatisticsView, games: Seq<BoardView>)
    ensures
        stats.save_all(games).counters == games.fold_left(
            stats.counters,
            |c: Counters, g: BoardView| c.add(g),
        ),
    decreases games.len(),
{
    if games.len() > 0 {
        lemma_counters_of_saved(stats, games.drop_last());
    }
}

/// Each won game adds one gap: after games are saved there are as many
/// gaps more as there are wins more.
pub proof fn lemma_gaps_of_saved(stats: StatisticsView, games: Seq<BoardView>)
    ensures
        stats.save_all(games).gaps.len() - stats.gaps.len() == stats.save_all(games).counters.won
            - stats.counters.won,
    decreases games.len(),
{
    broadcast use vstd::multiset::group_multiset_axioms;

    if games.len() > 0 {
        lemma_gaps_of_saved(stats, games.drop_last());
    }
}

/// The order in which games are saved makes no difference to the counters:
/// where `second` holds the games of `first` in another order, as when the
/// saves of several workers fall between each other, the games saved, the
/// games won and every bucket of every list come out the same, and as many
/// gaps between wins are recorded. (Which gaps they are does rest on the
/// order.)
pub proof fn lemma_order_of_saves(
    stats: StatisticsView,
    first: Seq<BoardView>,
    second: Seq<BoardView>,
)
    requires
        first.to_multiset() == second.to_multiset(),
    ensures
        stats.save_all(first).counters == stats.save_all(second).counters,
        stats.save_all(first).gaps.len() == stats.save_all(second).gaps.len(),
{
    lemma_gaps_of_saved(stats, first);
    lemma_gaps_of_saved(stats, second);
    let count = |c: Counters, g: BoardView| c.add(g);
    assert forall|x: BoardView, y: BoardView, c: Counters| #[trigger]
        count(count(c, x), y) == count(count(c, y), x) by {
        lemma_add_commutes(c, x, y);
    }
    lemma_counters_of_saved(stats, first);
    lemma_counters_of_saved(stats, second);
    vstd::seq_lib::lemma_fold_left_permutation(first, second, count, stats.counters);
}

/// Why a game was not saved.
#[derive(Debug, Clone, Copy, PartialEq, Eq)]
pub enum SaveError {
    /// The histogram refused the gap since the last win.
    GapRefused,
}

/// Statistics over finished games.
#[derive(Debug)]
pub struct Statistics {
    num_won: u64,
    num_total: u64,
    last_won: u64,
    games_between_win: GapHistogram,
    count_shut: Vec<u64>,
    count_nrolls: Vec<u64>,
    count_lastroll: Vec<u64>,
}

impl View for Statistics {
    type V = StatisticsView;

    closed spec fn view(&self) -> StatisticsView {
        StatisticsView {
            counters: Counters {
                total: self.num_total as nat,
                won: self.num_won as nat,
                shut: as_nats(self.count_shut@),
                nrolls: as_nats(self.count_nrolls@),
                lastroll: as_nats(self.count_lastroll@),
            },
            last_won: self.last_won as nat,
            gaps: recorded(self.games_between_win),
            digits: digits(self.games_between_win),
        }
    }
}

impl Statistics {
    /// Statistics for boards of up to twelve tiles, with no game saved.
    pub fn new() -> (stats: Statistics)
        ensures
            stats@ == StatisticsView::empty(BUCKETS as nat),
            stats@.wf(),
    {
        let stats = Statistics {
            num_won: 0,
            num_total: 0,
            last_won: 0,
            games_between_win: new_histogram(GAP_DIGITS),
            count_shut: vec![0; BUCKETS],
            count_nrolls: vec![0; BUCKETS],
            count_lastroll: vec![0; BUCKETS],
        };
        assert(stats@.counters.shut =~= Counters::zero(BUCKETS as nat).shut);
        assert(stats@.counters.nrolls =~= Counters::zero(BUCKETS as nat).nrolls);
        assert(stats@.counters.lastroll =~= Counters::zero(BUCKETS as nat).lastroll);
        stats
    }

    /// The games won.
    pub fn num_won(&self) -> (n: u64)
        ensures
            n == self@.counters.won,
    {
        self.num_won
    }

    /// The games saved.
    pub fn num_total(&self) -> (n: u64)
        ensures
            n == self@.counters.total,
    {
        self.num_total
    }

    /// How many games had been saved when the last won game came.
    pub fn last_won(&self) -> (n: u64)
        ensures
            n == self@.last_won,
    {
        self.last_won
    }

    /// For each tile, how often it was shut.
    pub fn count_shut(&self) -> (counts: &Vec<u64>)
        ensures
            as_nats(counts@) == self@.counters.shut,
    {
        &self.count_shut
    }

    /// The games by their number of rolls.
    pub fn count_nrolls(&self) -> (counts: &Vec<u64>)
        ensures
            as_nats(counts@) == self@.counters.nrolls,
    {
        &self.count_nrolls
    }

    /// The games by their last roll.
    pub fn count_lastroll(&self) -> (counts: &Vec<u64>)
        ensures
            as_nats(counts@) == self@.counters.lastroll,
    {
        &self.count_lastroll
    }

    /// The gaps between wins by range: for each pair of `bounds`, how many
    /// gaps the histogram counts from the first value of the pair to the value
    /// before the second. A pair that ends at 0 holds no value.
    pub fn count_ranges(&self, bounds: &Vec<(u64, u64)>) -> (counts: Vec<u64>)
        ensures
            counts@.len() == bounds@.len(),
            forall|k: int|
                0 <= k < counts@.len() ==> #[trigger] counts@[k] == self@.count_range(
                    bounds@[k].0,
                    bounds@[k].1,
                ),
    {
        let mut counts: Vec<u64> = Vec::new();
        let mut k: usize = 0;
        while k < bounds.len()
            invariant
                k <= bounds@.len(),
                counts@.len() == k,
                forall|j: int|
                    0 <= j < k ==> #[trigger] counts@[j] == self@.count_range(
                        bounds@[j].0,
                        bounds@[j].1,
                    ),
            decreases bounds@.len() - k,
        {
            let (low, high) = bounds[k];
            if high == 0 {
                counts.push(0);
            } else {
                counts.push(count_between(&self.games_between_win, low, high - 1));
            }
            k += 1;
        }
        counts
    }

    /// True when `game` can be saved: when the statistics have a bucket for
    /// each thing to count in it, and no counter would leave the range of `u64`.
    pub fn accepts(&self, game: &ShutTheBox) -> (ok: bool)
        ensures
            ok == self@.accepts(game@),
    {
        let rolls = game.get_rolls();
        let n = rolls.len();
        if n == 0 || n > self.count_nrolls.len() {
            return false;
        }
        let last = rolls[n - 1];
        if last == 0 || last > self.count_lastroll.len() {
            return false;
        }
        let ghost after = self@.counters.add(game@);
        if self.num_total == u64::MAX {
            return false;
        }
        if game.victory() && self.num_won == u64::MAX {
            return false;
        }
        if self.count_nrolls[n - 1] == u64::MAX {
            assert(after.nrolls[n - 1] > u64::MAX);
            return false;
        }
        if self.count_lastroll[last - 1] == u64::MAX {
            assert(after.lastroll[last - 1] > u64::MAX);
            return false;
        }
        assert(all_fit(after.nrolls));
        assert(all_fit(after.lastroll));
        let sums = tally(&self.count_shut, game.get_numbers());
        proof {
            lemma_tally_fits(self.count_shut@, game@.numbers);
        }
        sums.is_some()
    }

    /// Counts `game`, once the gap since the last win is recorded or
    /// refused: `gap` is what the histogram answered for a won game, and `Ok`
    /// for any other game. A game whose gap was refused is not counted.
    pub fn count_game(&mut self, game: &ShutTheBox, gap: Result<(), RecordError>) -> (done: Result<
        (),
        SaveError,
    >)
        requires
            old(self)@.wf(),
            old(self)@.accepts(game@),
        ensures
            final(self)@.wf(),
            gap is Ok ==> done is Ok && final(self)@ == old(self)@.counted(game@),
            gap is Err ==> done == Err::<(), SaveError>(SaveError::GapRefused) && final(self)@
                == old(self)@,
    {
        if gap.is_err() {
            return Err(SaveError::GapRefused);
        }
        let ghost after = self@.counters.add(game@);
        if game.victory() {
            self.num_won += 1;
            self.last_won = self.num_total;
        }
        self.num_total += 1;
        proof {
            lemma_tally_fits(self.count_shut@, game@.numbers);
        }
        match tally(&self.count_shut, game.get_numbers()) {
            Some(counts) => {
                self.count_shut = counts;
            },
            None => {
                assert(false);
            },
        }
        let rolls = game.get_rolls();
        let n = rolls.len();
        let last = rolls[n - 1];
        assert(after.nrolls[n - 1] <= u64::MAX);
        assert(after.lastroll[last - 1] <= u64::MAX);
        self.count_nrolls[n - 1] += 1;
        self.count_lastroll[last - 1] += 1;
        proof {
            assert(self@.counters.shut =~= after.shut);
            assert(self@.counters.nrolls =~= after.nrolls);
            assert(self@.counters.lastroll =~= after.lastroll);
        }
        Ok(())
    }

    /// Saves a finished game: counts it, and for a won game records the gap
    /// since the last win. The histogram may refuse the gap; then nothing is
    /// changed, and the error says so.
    pub fn save_game(&mut self, game: &ShutTheBox) -> (done: Result<(), SaveError>)
        requires
            old(self)@.wf(),
            old(self)@.accepts(game@),
        ensures
            final(self)@.wf(),
            !game@.victory() ==> done is Ok,
            done is Ok ==> final(self)@ == old(self)@.save_game(game@),
            done is Err ==> final(self)@ == old(self)@,
    {
        let gap = if game.victory() {
            record(&mut self.games_between_win, self.num_total - self.last_won)
        } else {
            Ok(())
        };
        self.count_game(game, gap)
    }

    /// How many of the gaps between wins lie from `low` to `high`, as the
    /// histogram counts them.
    pub fn count_between(&self, low: u64, high: u64) -> (count: u64)
        ensures
            count == counted_between(self@.gaps, self@.digits, low, high),
    {
        count_between(&self.games_between_win, low, high)
    }
}

} // verus!
