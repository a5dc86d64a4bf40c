//! The board: tiles that are open or shut, and the moves that shut them.

use crate::search::{
    ascending, check_slice, first_pick, is_first, lemma_first_pick, lemma_first_pick_exists,
    lemma_sum_bounds_each, precedes, solvable, solves, sum, VecTotal,
};
use vstd::prelude::*;
use vstd::std_specs::iter::IteratorSpec;

verus! {

/// What a board holds. Tile `t` (tiles are numbered from 1) is shut when
/// `tiles[t - 1]` is true.
pub struct BoardView {
    /// The state of each tile.
    pub tiles: Seq<bool>,
    /// The rolls played, in order.
    pub rolls: Seq<usize>,
    /// The tiles shut, in the order in which they were shut.
    pub numbers: Seq<usize>,
}

/// `tiles` has a tile numbered `t`.
pub open spec fn has_tile(tiles: Seq<bool>, t: int) -> bool {
    1 <= t <= tiles.len()
}

/// Tile `t` is among `tiles` and open.
pub open spec fn is_open(tiles: Seq<bool>, t: int) -> bool {
    has_tile(tiles, t) && !tiles[t - 1]
}

/// Tile `t` is among `tiles` and shut.
pub open spec fn is_shut(tiles: Seq<bool>, t: int) -> bool {
    has_tile(tiles, t) && tiles[t - 1]
}

/// The open tiles numbered `n` or less, in ascending order.
pub open spec fn open_upto(tiles: Seq<bool>, n: nat) -> Seq<usize>
    decreases n,
{
    if n == 0 {
        Seq::empty()
    } else if is_open(tiles, n as int) {
        open_upto(tiles, (n - 1) as nat).push(n as usize)
    } else {
        open_upto(tiles, (n - 1) as nat)
    }
}

/// The shut tiles numbered `n` or less, in ascending order.
pub open spec fn shut_upto(tiles: Seq<bool>, n: nat) -> Seq<usize>
    decreases n,
{
    if n == 0 {
        Seq::empty()
    } else if is_shut(tiles, n as int) {
        shut_upto(tiles, (n - 1) as nat).push(n as usize)
    } else {
        shut_upto(tiles, (n - 1) as nat)
    }
}

/// The open tiles, in ascending order.
pub open spec fn open_tiles(tiles: Seq<bool>) -> Seq<usize> {
    open_upto(tiles, tiles.len())
}

/// The shut tiles, in ascending order.
pub open spec fn shut_tiles(tiles: Seq<bool>) -> Seq<usize> {
    shut_upto(tiles, tiles.len())
}

/// The open tiles that do not exceed `target`, in ascending order: the
/// candidates of a search for `target`.
pub open spec fn candidates(tiles: Seq<bool>, target: nat) -> Seq<usize> {
    open_upto(
        tiles,
        if target < tiles.len() {
            target
        } else {
            tiles.len()
        },
    )
}

/// Some set of open tiles adds up to `roll`.
pub open spec fn playable(tiles: Seq<bool>, roll: int) -> bool {
    solvable(open_tiles(tiles), roll)
}

/// The two different open tiles `w` and `roll - w`, `w` the smaller, add up to `roll`.
pub open spec fn is_split(tiles: Seq<bool>, roll: int, w: int) -> bool {
    &&& 1 <= w
    &&& 2 * w < roll
    &&& is_open(tiles, w)
    &&& is_open(tiles, roll - w)
}

/// Two open tiles add up to `roll`.
pub open spec fn has_split(tiles: Seq<bool>, roll: int) -> bool {
    exists|w: int| is_split(tiles, roll, w)
}

/// `w` is the smaller tile of a pair for `roll`, and no pair has a smaller one.
pub open spec fn is_first_split(tiles: Seq<bool>, roll: int, w: int) -> bool {
    &&& is_split(tiles, roll, w)
    &&& forall|v: int| is_split(tiles, roll, v) ==> w <= v
}

/// The smaller tile of the pair for `roll` whose tiles lie furthest apart.
pub open spec fn first_split(tiles: Seq<bool>, roll: int) -> int {
    choose|w: int| is_first_split(tiles, roll, w)
}

/// The pair of open tiles for `roll` that lie furthest apart, the larger tile first.
pub open spec fn first_pair(tiles: Seq<bool>, roll: usize) -> Seq<usize> {
    let w = first_split(tiles, roll as int);
    seq![(roll - w) as usize, w as usize]
}

/// The tiles that a roll shuts, in the order in which they are shut: the
/// tile of that number if it is open; else the pair of open tiles that lie
/// furthest apart, the larger tile first; else the first set of open tiles
/// that the search meets, in ascending order; else nothing.
pub open spec fn move_for(tiles: Seq<bool>, roll: usize) -> Seq<usize> {
    if is_open(tiles, roll as int) {
        seq![roll]
    } else if has_split(tiles, roll as int) {
        first_pair(tiles, roll)
    } else if playable(tiles, roll as int) {
        first_pick(open_tiles(tiles), roll as int)
    } else {
        Seq::empty()
    }
}

/// `m` is a move for `roll`: open tiles, each named once, that add up to `roll`.
pub open spec fn is_move(tiles: Seq<bool>, roll: int, m: Seq<usize>) -> bool {
    &&& m.len() > 0
    &&& forall|k: int| 0 <= k < m.len() ==> is_open(tiles, #[trigger] m[k] as int)
    &&& m.no_duplicates()
    &&& sum(m) == roll
}

impl BoardView {
    /// A board of `n` open tiles on which nothing has been played.
    pub open spec fn fresh(n: nat) -> BoardView {
        BoardView { tiles: Seq::new(n, |i: int| false), rolls: Seq::empty(), numbers: Seq::empty() }
    }

    /// Whether tile `t` is shut; nothing for a number that is no tile.
    pub open spec fn status(self, t: int) -> Option<bool> {
        if has_tile(self.tiles, t) {
            Some(self.tiles[t - 1])
        } else {
            None
        }
    }

    /// The history agrees with the tiles: what was shut is a tile and is
    /// shut, and each shut tile was shut at some point.
    pub open spec fn wf(self) -> bool {
        &&& forall|k: int|
            0 <= k < self.numbers.len() ==> is_shut(self.tiles, #[trigger] self.numbers[k] as int)
        &&& forall|t: usize| is_shut(self.tiles, t as int) ==> #[trigger] self.numbers.contains(t)
    }

    /// The board after tile `t` is shut. A number that is no tile changes nothing.
    pub open spec fn shut(self, t: usize) -> BoardView {
        if has_tile(self.tiles, t as int) {
            BoardView {
                tiles: self.tiles.update(t - 1, true),
                rolls: self.rolls,
                numbers: self.numbers.push(t),
            }
        } else {
            self
        }
    }

    /// The board after the tiles of `ts` are shut one after the other.
    pub open spec fn shut_all(self, ts: Seq<usize>) -> BoardView
        decreases ts.len(),
    {
        if ts.len() == 0 {
            self
        } else {
            self.shut_all(ts.drop_last()).shut(ts.last())
        }
    }

    /// Every tile is shut.
    pub open spec fn victory(self) -> bool {
        forall|i: int| 0 <= i < self.tiles.len() ==> self.tiles[i]
    }

    /// Some set of open tiles adds up to `roll`.
    pub open spec fn playable(self, roll: int) -> bool {
        playable(self.tiles, roll)
    }

    /// The board with `roll` added to the rolls.
    pub open spec fn record(self, roll: usize) -> BoardView {
        BoardView { tiles: self.tiles, rolls: self.rolls.push(roll), numbers: self.numbers }
    }

    /// The board after `roll` is played: the roll is noted, and the tiles
    /// of its move are shut.
    pub open spec fn play_roll(self, roll: usize) -> BoardView {
        self.record(roll).shut_all(move_for(self.tiles, roll))
    }
}

/// The game board.
#[derive(Debug)]
pub struct ShutTheBox {
    status: Vec<bool>,
    rolls: Vec<usize>,
    shut: Vec<usize>,
}

impl View for ShutTheBox {
    type V = BoardView;

    closed spec fn view(&self) -> BoardView {
        BoardView { tiles: self.status@, rolls: self.rolls@, numbers: self.shut@ }
    }
}

impl ShutTheBox {
    /// A board of `total` tiles, all open.
    pub fn init(total: usize) -> (game: ShutTheBox)
        ensures
            game@ == BoardView::fresh(total as nat),
            game@.wf(),
    {
        let game = ShutTheBox {
            status: vec![false; total],
            rolls: Vec::with_capacity(total),
            shut: Vec::with_capacity(total),
        };
        assert(game@.tiles =~= BoardView::fresh(total as nat).tiles);
        game
    }

    /// The number of tiles.
    pub fn total(&self) -> (n: usize)
        ensures
            n == self@.tiles.len(),
    {
        self.status.len()
    }

    /// Whether tile `val` is shut; `None` for a number that is no tile.
    pub fn get_status(&self, val: usize) -> (r: Option<bool>)
        ensures
            r == self@.status(val as int),
    {
        if val == 0 || val > self.status.len() {
            return None;
        }
        Some(self.status[val - 1])
    }

    /// Shuts tile `val` and notes it in the history. A number that is no
    /// tile is passed over.
    pub fn shut(&mut self, val: usize)
        ensures
            final(self)@ == old(self)@.shut(val),
            old(self)@.wf() ==> final(self)@.wf(),
    {
        if val > 0 && val <= self.status.len() {
            self.shut.push(val);
            self.status[val - 1] = true;
            proof {
                if old(self)@.wf() {
                    lemma_shut_keeps_wf(old(self)@, val);
                }
            }
        }
    }

    /// Notes a roll without playing it, for a game in which the player picks
    /// the tiles to shut.
    pub fn save_roll(&mut self, roll: usize)
        ensures
            final(self)@ == old(self)@.record(roll),
            old(self)@.wf() ==> final(self)@.wf(),
    {
        self.rolls.push(roll);
        proof {
            if old(self)@.wf() {
                assert(old(self)@.record(roll).wf());
            }
        }
    }

    /// True when every tile is shut.
    pub fn victory(&self) -> (won: bool)
        ensures
            won == self@.victory(),
    {
        let mut i: usize = 0;
        while i < self.status.len()
            invariant
                i <= self.status.len(),
                forall|k: int| 0 <= k < i ==> self.status@[k],
            decreases self.status.len() - i,
        {
            if !self.status[i] {
                assert(!self@.tiles[i as int]);
                return false;
            }
            i += 1;
        }
        true
    }

    /// True when no set of open tiles adds up to `target`.
    pub fn check_loss(&self, target: usize) -> (lost: bool)
        ensures
            lost == !self@.playable(target as int),
    {
        let open = self.candidates(target);
        let mut sumvec = VecTotal::new();
        proof {
            assert(self@.tiles.len() == self.status.len());
            lemma_candidates_ascending(self@.tiles, target as nat);
            lemma_candidates(self@.tiles, target as nat);
        }
        let alive = check_slice(&mut sumvec, open.as_slice(), target);
        !alive
    }

    /// Plays a roll. The roll is noted in any case. Then the tile of that
    /// number is shut if it is open; else the first pair of open tiles that
    /// adds up to the roll, starting from the pair 1 and `roll - 1`; else the
    /// first set of open tiles that a depth-first search in ascending order
    /// finds. Returns false, and leaves the tiles as they are, when no tiles
    /// add up to the roll.
    pub fn play_roll(&mut self, roll: usize) -> (played: bool)
        ensures
            played == old(self)@.playable(roll as int),
            final(self)@ == old(self)@.play_roll(roll),
            played ==> is_move(old(self)@.tiles, roll as int, move_for(old(self)@.tiles, roll)),
            !played ==> final(self)@ == old(self)@.record(roll),
            old(self)@.wf() ==> final(self)@.wf(),
    {
        let ghost before = self@;
        self.rolls.push(roll);
        proof {
            assert(before.tiles.len() == self.status.len());
            assert(self@ == before.record(roll));
            lemma_play_roll_keeps_wf(before, roll);
        }
        let open = match self.get_status(roll) {
            Some(false) => true,
            Some(true) => false,
            None => false,
        };
        if open {
            self.shut(roll);
            proof {
                lemma_single_move(before.tiles, roll);
                lemma_shut_one(before.record(roll), roll);
            }
            return true;
        }
        if self.shut_pair(roll) {
            return true;
        }
        let played = self.shut_set(roll);
        proof {
            if !played {
                assert(before.record(roll).shut_all(Seq::<usize>::empty()) == before.record(roll));
            }
        }
        played
    }

    /// Shuts the first pair of open tiles that adds up to `roll`, the larger
    /// tile first, going from the pair 1 and `roll - 1` towards the middle.
    fn shut_pair(&mut self, roll: usize) -> (found: bool)
        ensures
            found == has_split(old(self)@.tiles, roll as int),
            found ==> {
                &&& old(self)@.playable(roll as int)
                &&& is_move(old(self)@.tiles, roll as int, first_pair(old(self)@.tiles, roll))
                &&& final(self)@ == old(self)@.shut_all(first_pair(old(self)@.tiles, roll))
            },
            !found ==> final(self)@ == old(self)@,
    {
        let ghost before = self@;
        assert(before.tiles.len() == self.status.len());
        let mut w: usize = if roll > self.status.len() {
            roll - self.status.len()
        } else {
            1
        };
        while w < roll && w < roll - w
            invariant
                1 <= w,
                self@ == before,
                before == old(self)@,
                before.tiles.len() <= usize::MAX,
                forall|v: int| 1 <= v < w ==> !is_split(before.tiles, roll as int, v),
            decreases roll - w,
        {
            let high_open = match self.get_status(roll - w) {
                Some(false) => true,
                Some(true) => false,
                None => false,
            };
            let low_open = match self.get_status(w) {
                Some(false) => true,
                Some(true) => false,
                None => false,
            };
            if low_open && high_open {
                self.shut(roll - w);
                self.shut(w);
                proof {
                    assert(is_first_split(before.tiles, roll as int, w as int));
                    assert(first_split(before.tiles, roll as int) == w);
                    lemma_pair_move(before.tiles, roll, w);
                    lemma_shut_two(before, (roll - w) as usize, w);
                }
                return true;
            }
            w += 1;
        }
        false
    }

    /// Shuts the first set of open tiles that a depth-first search in
    /// ascending order finds to add up to `roll`, the lowest tile first.
    fn shut_set(&mut self, roll: usize) -> (found: bool)
        ensures
            found == old(self)@.playable(roll as int),
            found ==> {
                &&& is_move(
                    old(self)@.tiles,
                    roll as int,
                    first_pick(open_tiles(old(self)@.tiles), roll as int),
                )
                &&& final(self)@ == old(self)@.shut_all(
                    first_pick(open_tiles(old(self)@.tiles), roll as int),
                )
            },
            !found ==> final(self)@ == old(self)@,
    {
        let ghost before = self@;
        let open = self.candidates(roll);
        let mut sumvec = VecTotal::new();
        proof {
            assert(before.tiles.len() == self.status.len());
            lemma_candidates_ascending(before.tiles, roll as nat);
            lemma_candidates(before.tiles, roll as nat);
        }
        let alive = check_slice(&mut sumvec, open.as_slice(), roll);
        if !alive {
            return false;
        }
        let ghost found = sumvec.values@;
        proof {
            assert(found == first_pick(candidates(before.tiles, roll as nat), roll as int));
            lemma_first_pick(open_tiles(before.tiles), roll as int, found);
            lemma_set_move(before.tiles, roll, found);
        }
        let mut k: usize = 0;
        while k < sumvec.values.len()
            invariant
                k <= sumvec.values@.len(),
                sumvec.values@ == found,
                before == old(self)@,
                self@ == before.shut_all(found.take(k as int)),
            decreases sumvec.values@.len() - k,
        {
            self.shut(sumvec.values[k]);
            proof {
                assert(found.take(k + 1).drop_last() == found.take(k as int));
            }
            k += 1;
        }
        assert(found.take(k as int) == found);
        true
    }

    /// The open tiles that do not exceed `target`, in ascending order.
    fn candidates(&self, target: usize) -> (open: Vec<usize>)
        ensures
            open@ == candidates(self@.tiles, target as nat),
    {
        let limit = if target < self.status.len() {
            target
        } else {
            self.status.len()
        };
        let mut open: Vec<usize> = Vec::new();
        let mut i: usize = 0;
        while i < limit
            invariant
                i <= limit <= self.status@.len(),
                open@ == open_upto(self@.tiles, i as nat),
            decreases limit - i,
        {
            if !self.status[i] {
                open.push(i + 1);
            }
            i += 1;
        }
        open
    }

    /// The numbers of the tiles that are shut, in ascending order.
    pub fn get_shut(&self) -> (shut: Vec<usize>)
        ensures
            shut@ == shut_tiles(self@.tiles),
    {
        let mut shut: Vec<usize> = Vec::new();
        let mut i: usize = 0;
        while i < self.status.len()
            invariant
                i <= self.status@.len(),
                shut@ == shut_upto(self@.tiles, i as nat),
            decreases self.status@.len() - i,
        {
            if self.status[i] {
                shut.push(i + 1);
            }
            i += 1;
        }
        shut
    }

    /// The numbers of the tiles that are open, in ascending order.
    pub fn get_open(&self) -> (open: Vec<usize>)
        ensures
            open@ == open_tiles(self@.tiles),
    {
        self.candidates(self.status.len())
    }

    /// Goes through the numbers of the tiles that are shut, in ascending order.
    pub fn iter_shut(&self) -> (shut: impl Iterator<Item = usize>)
        ensures
            shut.obeys_prophetic_iter_laws(),
            shut.remaining() == shut_tiles(self@.tiles),
    {
        self.get_shut().into_iter()
    }

    /// Goes through the numbers of the tiles that are open, in ascending order.
    pub fn iter_open(&self) -> (open: impl Iterator<Item = usize>)
        ensures
            open.obeys_prophetic_iter_laws(),
            open.remaining() == open_tiles(self@.tiles),
    {
        self.get_open().into_iter()
    }

    /// The rolls, in the order in which they were played.
    pub fn get_rolls(&self) -> (rolls: &Vec<usize>)
        ensures
            rolls@ == self@.rolls,
    {
        &self.rolls
    }

    /// The tiles shut, in the order in which they were shut.
    pub fn get_numbers(&self) -> (numbers: &Vec<usize>)
        ensures
            numbers@ == self@.numbers,
    {
        &self.shut
    }
}

/// The open tiles up to `n` are in ascending order, and are exactly the
/// tiles that are open and numbered `n` or less.
pub proof fn lemma_open_upto(tiles: Seq<bool>, n: nat)
    requires
        n <= usize::MAX,
    ensures
        ascending(open_upto(tiles, n)),
        forall|t: usize| #[trigger]
            open_upto(tiles, n).contains(t) <==> is_open(tiles, t as int) && t <= n,
    decreases n,
{
    if n > 0 {
        let below = open_upto(tiles, (n - 1) as nat);
        lemma_open_upto(tiles, (n - 1) as nat);
        let all = open_upto(tiles, n);
        if is_open(tiles, n as int) {
            assert(all == below.push(n as usize));
            assert forall|i: int, j: int| 0 <= i < j < all.len() implies all[i] < all[j] by {
                assert(below.contains(all[i]));
                if j < below.len() {
                    assert(all[j] == below[j]);
                }
            }
            assert forall|t: usize| #[trigger] all.contains(t) <==> is_open(tiles, t as int) && t
                <= n by {
                if all.contains(t) {
                    let k = choose|k: int| 0 <= k < all.len() && all[k] == t;
                    if k < below.len() {
                        assert(below.contains(below[k]));
                    }
                }
                if is_open(tiles, t as int) && t <= n {
                    if t == n {
                        assert(all[below.len() as int] == t);
                    } else {
                        assert(below.contains(t));
                        let k = choose|k: int| 0 <= k < below.len() && below[k] == t;
                        assert(all[k] == t);
                    }
                }
            }
        } else {
            assert forall|t: usize| #[trigger] all.contains(t) <==> is_open(tiles, t as int) && t
                <= n by {
                assert(below.contains(t) <==> is_open(tiles, t as int) && t <= n - 1);
            }
        }
    } else {
        assert forall|t: usize| #[trigger]
            open_upto(tiles, n).contains(t) <==> is_open(tiles, t as int) && t <= n by {}
    }
}

/// The shut tiles up to `n` are in ascending order, and are exactly the
/// tiles that are shut and numbered `n` or less.
pub proof fn lemma_shut_upto(tiles: Seq<bool>, n: nat)
    requires
        n <= usize::MAX,
    ensures
        ascending(shut_upto(tiles, n)),
        forall|t: usize| #[trigger]
            shut_upto(tiles, n).contains(t) <==> is_shut(tiles, t as int) && t <= n,
    decreases n,
{
    if n > 0 {
        let below = shut_upto(tiles, (n - 1) as nat);
        lemma_shut_upto(tiles, (n - 1) as nat);
        let all = shut_upto(tiles, n);
        if is_shut(tiles, n as int) {
            assert(all == below.push(n as usize));
            assert forall|i: int, j: int| 0 <= i < j < all.len() implies all[i] < all[j] by {
                assert(below.contains(all[i]));
                if j < below.len() {
                    assert(all[j] == below[j]);
                }
            }
            assert forall|t: usize| #[trigger] all.contains(t) <==> is_shut(tiles, t as int) && t
                <= n by {
                if all.contains(t) {
                    let k = choose|k: int| 0 <= k < all.len() && all[k] == t;
                    if k < below.len() {
                        assert(below.contains(below[k]));
                    }
                }
                if is_shut(tiles, t as int) && t <= n {
                    if t == n {
                        assert(all[below.len() as int] == t);
                    } else {
                        assert(below.contains(t));
                        let k = choose|k: int| 0 <= k < below.len() && below[k] == t;
                        assert(all[k] == t);
                    }
                }
            }
        } else {
            assert forall|t: usize| #[trigger] all.contains(t) <==> is_shut(tiles, t as int) && t
                <= n by {
                assert(below.contains(t) <==> is_shut(tiles, t as int) && t <= n - 1);
            }
        }
    } else {
        assert forall|t: usize| #[trigger]
            shut_upto(tiles, n).contains(t) <==> is_shut(tiles, t as int) && t <= n by {}
    }
}

/// The candidates of a search are in ascending order.
pub proof fn lemma_candidates_ascending(tiles: Seq<bool>, target: nat)
    requires
        tiles.len() <= usize::MAX,
    ensures
        ascending(candidates(tiles, target)),
{
    if target < tiles.len() {
        lemma_open_upto(tiles, target);
    } else {
        lemma_open_upto(tiles, tiles.len());
    }
}

/// To search among the open tiles that do not exceed the target is to search
/// among all open tiles: the same picks add up to the target, and the same
/// pick is met first.
pub proof fn lemma_candidates(tiles: Seq<bool>, target: nat)
    requires
        tiles.len() <= usize::MAX,
    ensures
        forall|o: Seq<usize>| #[trigger]
            solves(candidates(tiles, target), target as int, o) <==> solves(
                open_tiles(tiles),
                target as int,
                o,
            ),
        solvable(candidates(tiles, target), target as int) <==> playable(tiles, target as int),
        forall|p: Seq<usize>| #[trigger]
            is_first(candidates(tiles, target), target as int, p) <==> is_first(
                open_tiles(tiles),
                target as int,
                p,
            ),
{
    let near = candidates(tiles, target);
    let all = open_tiles(tiles);
    lemma_open_upto(tiles, tiles.len());
    if target < tiles.len() {
        lemma_open_upto(tiles, target);
    }
    assert forall|o: Seq<usize>| #[trigger]
        solves(near, target as int, o) <==> solves(all, target as int, o) by {
        if solves(near, target as int, o) {
            assert forall|k: int| 0 <= k < o.len() implies all.contains(#[trigger] o[k]) by {
                assert(near.contains(o[k]));
            }
        }
        if solves(all, target as int, o) {
            assert forall|k: int| 0 <= k < o.len() implies near.contains(#[trigger] o[k]) by {
                assert(all.contains(o[k]));
                lemma_sum_bounds_each(o, k);
            }
        }
    }
    if solvable(near, target as int) {
        let o = choose|o: Seq<usize>| solves(near, target as int, o);
        assert(solves(all, target as int, o));
    }
    if solvable(all, target as int) {
        let o = choose|o: Seq<usize>| solves(all, target as int, o);
        assert(solves(near, target as int, o));
    }
    assert forall|p: Seq<usize>| #[trigger]
        is_first(near, target as int, p) <==> is_first(all, target as int, p) by {
        if is_first(near, target as int, p) {
            assert forall|o: Seq<usize>| #[trigger] solves(all, target as int, o) implies precedes(
                p,
                o,
            ) by {
                assert(solves(near, target as int, o));
            }
        }
        if is_first(all, target as int, p) {
            assert forall|o: Seq<usize>| #[trigger]
                solves(near, target as int, o) implies precedes(p, o) by {
                assert(solves(all, target as int, o));
            }
        }
    }
}

/// Among the pairs of open tiles that add up to `roll`, the one found at or
/// after `lo` whose smaller tile is least.
proof fn lemma_least_split(tiles: Seq<bool>, roll: int, lo: int, hi: int) -> (w: int)
    requires
        lo <= hi,
        is_split(tiles, roll, hi),
        forall|v: int| v < lo ==> !is_split(tiles, roll, v),
    ensures
        is_first_split(tiles, roll, w),
    decreases hi - lo,
{
    if is_split(tiles, roll, lo) {
        lo
    } else {
        lemma_least_split(tiles, roll, lo + 1, hi)
    }
}

/// Where two open tiles add up to `roll`, `first_split` names the smaller
/// tile of such a pair, and no pair has a smaller one.
pub proof fn lemma_first_split(tiles: Seq<bool>, roll: int)
    requires
        has_split(tiles, roll),
    ensures
        is_first_split(tiles, roll, first_split(tiles, roll)),
{
    let some = choose|w: int| is_split(tiles, roll, w);
    let least = lemma_least_split(tiles, roll, 1, some);
    assert(is_first_split(tiles, roll, least));
}

/// A roll that can be played has a move: what `move_for` names are open
/// tiles, each named once, that add up to the roll.
pub proof fn lemma_move_is_legal(tiles: Seq<bool>, roll: usize)
    requires
        tiles.len() <= usize::MAX,
        playable(tiles, roll as int),
    ensures
        is_move(tiles, roll as int, move_for(tiles, roll)),
{
    if is_open(tiles, roll as int) {
        lemma_single_move(tiles, roll);
    } else if has_split(tiles, roll as int) {
        lemma_first_split(tiles, roll as int);
        lemma_pair_move(tiles, roll, first_split(tiles, roll as int) as usize);
    } else {
        lemma_open_upto(tiles, tiles.len());
        lemma_first_pick_exists(open_tiles(tiles), roll as int);
        lemma_set_move(tiles, roll, first_pick(open_tiles(tiles), roll as int));
    }
}

/// A roll that cannot be played shuts nothing.
pub proof fn lemma_no_move(tiles: Seq<bool>, roll: usize)
    requires
        tiles.len() <= usize::MAX,
        !playable(tiles, roll as int),
    ensures
        move_for(tiles, roll) == Seq::<usize>::empty(),
{
    if is_open(tiles, roll as int) {
        lemma_single_move(tiles, roll);
    } else if has_split(tiles, roll as int) {
        lemma_first_split(tiles, roll as int);
        lemma_pair_move(tiles, roll, first_split(tiles, roll as int) as usize);
    }
}

/// An open tile of the roll's number is by itself a move for the roll.
pub proof fn lemma_single_move(tiles: Seq<bool>, roll: usize)
    requires
        tiles.len() <= usize::MAX,
        is_open(tiles, roll as int),
    ensures
        playable(tiles, roll as int),
        is_move(tiles, roll as int, seq![roll]),
{
    lemma_open_upto(tiles, tiles.len());
    let p = seq![roll];
    lemma_sum_one(roll);
    assert(open_tiles(tiles).contains(roll));
    assert(solves(open_tiles(tiles), roll as int, p));
}

/// A pair of open tiles that adds up to the roll is a move for the roll.
pub proof fn lemma_pair_move(tiles: Seq<bool>, roll: usize, w: usize)
    requires
        tiles.len() <= usize::MAX,
        is_split(tiles, roll as int, w as int),
    ensures
        playable(tiles, roll as int),
        is_move(tiles, roll as int, seq![(roll - w) as usize, w]),
{
    lemma_open_upto(tiles, tiles.len());
    let p = seq![w, (roll - w) as usize];
    lemma_sum_two(w, (roll - w) as usize);
    lemma_sum_two((roll - w) as usize, w);
    assert(open_tiles(tiles).contains(w));
    assert(open_tiles(tiles).contains((roll - w) as usize));
    assert(solves(open_tiles(tiles), roll as int, p));
}

/// A pick from the open tiles that adds up to the roll is a move for the roll.
pub proof fn lemma_set_move(tiles: Seq<bool>, roll: usize, p: Seq<usize>)
    requires
        tiles.len() <= usize::MAX,
        solves(open_tiles(tiles), roll as int, p),
    ensures
        is_move(tiles, roll as int, p),
{
    lemma_open_upto(tiles, tiles.len());
    assert forall|k: int| 0 <= k < p.len() implies is_open(tiles, #[trigger] p[k] as int) by {
        assert(open_tiles(tiles).contains(p[k]));
    }
    assert forall|i: int, j: int| 0 <= i < p.len() && 0 <= j < p.len() && i != j implies p[i]
        != p[j] by {
        if i < j {
            assert(p[i] < p[j]);
        } else {
            assert(p[j] < p[i]);
        }
    }
}

/// The sum of one value is that value.
proof fn lemma_sum_one(t: usize)
    ensures
        sum(seq![t]) == t,
{
    let p = seq![t];
    assert(p.drop_last().len() == 0);
    assert(sum(p.drop_last()) == 0);
}

/// The sum of two values.
proof fn lemma_sum_two(t: usize, u: usize)
    ensures
        sum(seq![t, u]) == t + u,
{
    let p = seq![t, u];
    assert(p.drop_last() == seq![t]);
    lemma_sum_one(t);
}

/// To shut the one tile of a move is to shut the tile.
pub proof fn lemma_shut_one(b: BoardView, t: usize)
    ensures
        b.shut_all(seq![t]) == b.shut(t),
{
    let ts = seq![t];
    assert(ts.drop_last().len() == 0);
    assert(b.shut_all(ts.drop_last()) == b);
}

/// To shut the two tiles of a move is to shut one and then the other.
pub proof fn lemma_shut_two(b: BoardView, t: usize, u: usize)
    ensures
        b.shut_all(seq![t, u]) == b.shut(t).shut(u),
{
    let ts = seq![t, u];
    assert(ts.drop_last() == seq![t]);
    lemma_shut_one(b, t);
}

/// What shutting tiles does to a board: a tile is shut afterwards when it
/// was shut before or is among the tiles named, and the rolls stay.
pub proof fn lemma_shut_all_tiles(b: BoardView, ts: Seq<usize>)
    requires
        b.tiles.len() <= usize::MAX,
    ensures
        b.shut_all(ts).tiles.len() == b.tiles.len(),
        b.shut_all(ts).rolls == b.rolls,
        forall|i: int|
            0 <= i < b.tiles.len() ==> #[trigger] b.shut_all(ts).tiles[i] == (b.tiles[i]
                || ts.contains((i + 1) as usize)),
    decreases ts.len(),
{
    if ts.len() > 0 {
        let head = ts.drop_last();
        let t = ts.last();
        lemma_shut_all_tiles(b, head);
        let mid = b.shut_all(head);
        let after = b.shut_all(ts);
        assert forall|i: int| 0 <= i < b.tiles.len() implies #[trigger] after.tiles[i] == (
        b.tiles[i] || ts.contains((i + 1) as usize)) by {
            let u = (i + 1) as usize;
            assert(mid.tiles[i] == (b.tiles[i] || head.contains(u)));
            assert(after == mid.shut(t));
            if head.contains(u) {
                let k = choose|k: int| 0 <= k < head.len() && head[k] == u;
                assert(ts[k] == u);
            }
            if t == u {
                assert(ts[ts.len() - 1] == u);
            }
            if ts.contains(u) {
                let k = choose|k: int| 0 <= k < ts.len() && ts[k] == u;
                if k < head.len() {
                    assert(head[k] == u);
                }
            }
        }
    }
}

/// A board is won exactly when each of its tiles has been shut: after any
/// tiles are shut on a fresh board of `n` tiles, the board is won if and
/// only if every number from 1 to `n` is among them. Numbers that are no
/// tiles, and numbers named twice, make no difference.
pub proof fn lemma_victory_after_shuts(n: nat, ts: Seq<usize>)
    requires
        n <= usize::MAX,
    ensures
        BoardView::fresh(n).shut_all(ts).victory() <==> forall|t: usize|
            1 <= t <= n ==> #[trigger] ts.contains(t),
{
    let start = BoardView::fresh(n);
    let after = start.shut_all(ts);
    lemma_shut_all_tiles(start, ts);
    if after.victory() {
        assert forall|t: usize| 1 <= t <= n implies #[trigger] ts.contains(t) by {
            assert(after.tiles[t - 1]);
        }
    }
    if forall|t: usize| 1 <= t <= n ==> #[trigger] ts.contains(t) {
        assert forall|i: int| 0 <= i < after.tiles.len() implies after.tiles[i] by {
            assert(ts.contains((i + 1) as usize));
        }
    }
}

/// No more tiles are shut than there are.
pub proof fn lemma_shut_upto_len(tiles: Seq<bool>, n: nat)
    ensures
        shut_upto(tiles, n).len() <= n,
    decreases n,
{
    if n > 0 {
        lemma_shut_upto_len(tiles, (n - 1) as nat);
    }
}

/// All of the first `n` tiles are shut exactly when `n` of them are.
pub proof fn lemma_all_shut(tiles: Seq<bool>, n: nat)
    requires
        n <= tiles.len(),
    ensures
        shut_upto(tiles, n).len() == n <==> forall|i: int| 0 <= i < n ==> tiles[i],
    decreases n,
{
    if n > 0 {
        lemma_all_shut(tiles, (n - 1) as nat);
        lemma_shut_upto_len(tiles, (n - 1) as nat);
        if shut_upto(tiles, n).len() == n {
            assert(tiles[n - 1]);
        }
    }
}

/// Where every tile that is shut in `a` is shut in `b`, `b` has no fewer
/// tiles shut; and it has more where tile `j + 1` is shut in `b` alone.
pub proof fn lemma_more_shut(a: Seq<bool>, b: Seq<bool>, n: nat, j: int)
    requires
        a.len() == b.len(),
        n <= a.len(),
        forall|i: int| 0 <= i < n ==> a[i] ==> b[i],
    ensures
        shut_upto(a, n).len() <= shut_upto(b, n).len(),
        0 <= j < n && !a[j] && b[j] ==> shut_upto(a, n).len() < shut_upto(b, n).len(),
    decreases n,
{
    if n > 0 {
        lemma_more_shut(a, b, (n - 1) as nat, j);
    }
}

/// A move shuts at least one tile more, and opens none.
pub proof fn lemma_move_shuts(b: BoardView, m: Seq<usize>)
    requires
        b.tiles.len() <= usize::MAX,
        m.len() > 0,
        forall|k: int| 0 <= k < m.len() ==> is_open(b.tiles, #[trigger] m[k] as int),
    ensures
        shut_tiles(b.shut_all(m).tiles).len() > shut_tiles(b.tiles).len(),
{
    lemma_shut_all_tiles(b, m);
    let after = b.shut_all(m);
    assert(is_open(b.tiles, m[0] as int));
    let j = m[0] - 1;
    assert(m.contains((j + 1) as usize));
    assert(after.tiles[j]);
    lemma_more_shut(b.tiles, after.tiles, b.tiles.len(), j);
}

/// Shutting tiles only adds to the history of tiles shut.
pub proof fn lemma_shut_all_extends(b: BoardView, ts: Seq<usize>)
    ensures
        b.numbers.is_prefix_of(b.shut_all(ts).numbers),
    decreases ts.len(),
{
    if ts.len() > 0 {
        lemma_shut_all_extends(b, ts.drop_last());
    }
}

/// A roll never opens a tile, and only adds to the histories: a tile that
/// was shut stays shut, the roll is added to the rolls, and the tiles shut
/// before are still the first in the history of tiles shut.
pub proof fn lemma_play_roll_extends(b: BoardView, roll: usize)
    requires
        b.tiles.len() <= usize::MAX,
    ensures
        forall|t: int| is_shut(b.tiles, t) ==> is_shut(b.play_roll(roll).tiles, t),
        b.play_roll(roll).rolls == b.rolls.push(roll),
        b.numbers.is_prefix_of(b.play_roll(roll).numbers),
{
    lemma_shut_all_tiles(b.record(roll), move_for(b.tiles, roll));
    lemma_shut_all_extends(b.record(roll), move_for(b.tiles, roll));
}

/// What a roll does rests on the tiles and the roll alone: on two boards
/// with the same tiles open, whatever was played on them before, the same
/// roll can be played or cannot, shuts the same tiles in the same order, and
/// leaves the same tiles open.
pub proof fn lemma_same_tiles_same_move(a: BoardView, b: BoardView, roll: usize)
    requires
        a.tiles == b.tiles,
        a.tiles.len() <= usize::MAX,
    ensures
        a.playable(roll as int) == b.playable(roll as int),
        move_for(a.tiles, roll) == move_for(b.tiles, roll),
        a.play_roll(roll).tiles == b.play_roll(roll).tiles,
{
    let m = move_for(a.tiles, roll);
    lemma_shut_all_tiles(a.record(roll), m);
    lemma_shut_all_tiles(b.record(roll), m);
    assert(a.play_roll(roll).tiles =~= b.play_roll(roll).tiles);
}

/// Playing a roll keeps the history in agreement with the tiles.
pub proof fn lemma_play_roll_keeps_wf(b: BoardView, roll: usize)
    ensures
        b.wf() ==> b.play_roll(roll).wf(),
{
    if b.wf() {
        assert(b.record(roll).wf());
        lemma_shut_all_keeps_wf(b.record(roll), move_for(b.tiles, roll));
    }
}

/// Shutting tiles keeps the history in agreement with the tiles.
pub proof fn lemma_shut_all_keeps_wf(b: BoardView, ts: Seq<usize>)
    requires
        b.wf(),
    ensures
        b.shut_all(ts).wf(),
    decreases ts.len(),
{
    if ts.len() > 0 {
        lemma_shut_all_keeps_wf(b, ts.drop_last());
        lemma_shut_keeps_wf(b.shut_all(ts.drop_last()), ts.last());
    }
}

/// Shutting a tile keeps the history in agreement with the tiles.
pub proof fn lemma_shut_keeps_wf(b: BoardView, t: usize)
    requires
        b.wf(),
    ensures
        b.shut(t).wf(),
{
    let after = b.shut(t);
    if has_tile(b.tiles, t as int) {
        assert forall|k: int| 0 <= k < after.numbers.len() implies is_shut(
            after.tiles,
            #[trigger] after.numbers[k] as int,
        ) by {
            if k < b.numbers.len() {
                assert(is_shut(b.tiles, b.numbers[k] as int));
            }
        }
        assert forall|u: usize| is_shut(after.tiles, u as int) implies #[trigger]
            after.numbers.contains(u) by {
            if u == t {
                assert(after.numbers[b.numbers.len() as int] == t);
            } else {
                assert(is_shut(b.tiles, u as int));
                assert(b.numbers.contains(u));
                let k = choose|k: int| 0 <= k < b.numbers.len() && b.numbers[k] == u;
                assert(after.numbers[k] == u);
            }
        }
    }
}

} // verus!
