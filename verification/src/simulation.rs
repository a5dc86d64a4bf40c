//! One game played by the dice alone.

use crate::board::{
    is_shut, lemma_all_shut, lemma_move_is_legal, lemma_move_shuts, lemma_no_move,
    lemma_play_roll_keeps_wf, lemma_shut_all_tiles, lemma_shut_upto_len, move_for, shut_tiles,
    BoardView, ShutTheBox,
};
use crate::dice::Dice;
use crate::statistics::StatisticsView;
use vstd::prelude::*;

verus! {

/// The number of tiles of the classic board.
pub const TILES: usize = 12;

/// `roll` is the sum of two faces.
pub open spec fn is_dice_sum(roll: usize) -> bool {
    2 <= roll <= 12
}

/// The board after `rolls` are played on `board` one after the other.
pub open spec fn play_all(board: BoardView, rolls: Seq<usize>) -> BoardView
    decreases rolls.len(),
{
    if rolls.len() == 0 {
        board
    } else {
        play_all(board, rolls.drop_last()).play_roll(rolls.last())
    }
}

/// `game` is a game of dice on a board of `tiles` tiles, played to its end:
/// it holds what its rolls make of a fresh board; it went on only while it
/// was not won and the roll before could be played; and it ended won, or
/// with a roll that could not be played.
pub open spec fn is_finished_game(game: BoardView, tiles: nat) -> bool {
    let start = BoardView::fresh(tiles);
    &&& game.rolls.len() >= 1
    &&& game == play_all(start, game.rolls)
    &&& forall|k: int| 0 <= k < game.rolls.len() ==> is_dice_sum(#[trigger] game.rolls[k])
    &&& forall|k: int|
        0 <= k < game.rolls.len() ==> !(#[trigger] play_all(start, game.rolls.take(k))).victory()
    &&& forall|k: int|
        0 <= k < game.rolls.len() - 1 ==> (#[trigger] play_all(start, game.rolls.take(k))).playable(
            game.rolls[k] as int,
        )
    &&& game.victory() || !play_all(start, game.rolls.drop_last()).playable(
        game.rolls.last() as int,
    )
}

/// What a roll leaves as it was: the number of tiles and the agreement of
/// the history with the tiles; and it adds itself to the rolls.
pub proof fn lemma_play_roll_keeps(b: BoardView, roll: usize)
    requires
        b.tiles.len() <= usize::MAX,
    ensures
        b.play_roll(roll).tiles.len() == b.tiles.len(),
        b.play_roll(roll).rolls == b.rolls.push(roll),
        b.wf() ==> b.play_roll(roll).wf(),
        b.playable(roll as int) ==> shut_tiles(b.play_roll(roll).tiles).len() > shut_tiles(
            b.tiles,
        ).len(),
        !b.playable(roll as int) ==> b.play_roll(roll) == b.record(roll),
{
    lemma_shut_all_tiles(b.record(roll), move_for(b.tiles, roll));
    lemma_play_roll_keeps_wf(b, roll);
    if b.playable(roll as int) {
        lemma_move_is_legal(b.tiles, roll);
        lemma_move_shuts(b.record(roll), move_for(b.tiles, roll));
    } else {
        lemma_no_move(b.tiles, roll);
    }
}

/// While every roll can be played, each roll shuts a tile: after the first
/// `k` of `rolls` are played on a fresh board, and each could be played, at
/// least `k` tiles are shut.
pub proof fn lemma_rolls_shut_tiles(tiles: nat, rolls: Seq<usize>, k: int)
    requires
        tiles <= usize::MAX,
        0 <= k <= rolls.len(),
        forall|j: int|
            0 <= j < k ==> (#[trigger] play_all(BoardView::fresh(tiles), rolls.take(j))).playable(
                rolls[j] as int,
            ),
    ensures
        play_all(BoardView::fresh(tiles), rolls.take(k)).wf(),
        play_all(BoardView::fresh(tiles), rolls.take(k)).tiles.len() == tiles,
        play_all(BoardView::fresh(tiles), rolls.take(k)).rolls == rolls.take(k),
        shut_tiles(play_all(BoardView::fresh(tiles), rolls.take(k)).tiles).len() >= k,
    decreases k,
{
    let start = BoardView::fresh(tiles);
    if k == 0 {
        assert(rolls.take(0).len() == 0);
        assert(start.rolls == rolls.take(0));
    } else {
        lemma_rolls_shut_tiles(tiles, rolls, k - 1);
        let before = play_all(start, rolls.take(k - 1));
        assert(rolls.take(k).drop_last() == rolls.take(k - 1));
        assert(rolls.take(k).last() == rolls[k - 1]);
        assert(before.playable(rolls[k - 1] as int));
        lemma_play_roll_keeps(before, rolls[k - 1]);
        assert(rolls.take(k - 1).push(rolls[k - 1]) == rolls.take(k));
    }
}

/// A finished game on a board of `tiles` tiles has that many tiles, a
/// history that agrees with them, and no more rolls than tiles.
pub proof fn lemma_finished_game(game: BoardView, tiles: nat)
    requires
        tiles <= usize::MAX,
        is_finished_game(game, tiles),
    ensures
        game.wf(),
        game.tiles.len() == tiles,
        1 <= game.rolls.len() <= tiles,
{
    let start = BoardView::fresh(tiles);
    let rolls = game.rolls;
    let n = rolls.len() as int;
    lemma_rolls_shut_tiles(tiles, rolls, n - 1);
    let before = play_all(start, rolls.take(n - 1));
    assert(rolls.drop_last() == rolls.take(n - 1));
    assert(!before.victory());
    lemma_all_shut(before.tiles, tiles);
    lemma_shut_upto_len(before.tiles, tiles);
    lemma_play_roll_keeps(before, rolls.last());
}

/// Statistics with a bucket for each tile of the board and for each sum of
/// two dice have a bucket for everything in a finished game: what is left
/// for `accepts` to ask is whether the counters stay in range.
pub proof fn lemma_finished_game_has_buckets(stats: StatisticsView, game: BoardView, tiles: nat)
    requires
        tiles <= usize::MAX,
        is_finished_game(game, tiles),
        tiles <= stats.counters.shut.len(),
        tiles <= stats.counters.nrolls.len(),
        12 <= stats.counters.lastroll.len(),
    ensures
        stats.has_buckets_for(game),
{
    lemma_finished_game(game, tiles);
    assert(is_dice_sum(game.rolls[game.rolls.len() - 1]));
    assert forall|k: int| 0 <= k < game.numbers.len() implies 1 <= #[trigger] game.numbers[k]
        <= stats.counters.shut.len() by {
        assert(is_shut(game.tiles, game.numbers[k] as int));
    }
}

/// Plays one game on the classic board: rolls the dice and plays the roll
/// until the board is won or a roll cannot be played. Which game comes out
/// is left to the dice.
pub fn simulate_game() -> (game: ShutTheBox)
    ensures
        is_finished_game(game@, TILES as nat),
        game@.wf(),
        game@.tiles.len() == TILES,
        game@.rolls.len() <= TILES,
{
    let mut game = ShutTheBox::init(TILES);
    let mut dice = Dice::new();
    let mut valid = true;
    let ghost start = BoardView::fresh(TILES as nat);
    proof {
        lemma_shut_upto_len(game@.tiles, TILES as nat);
    }
    while valid && !game.victory()
        invariant
            start == BoardView::fresh(TILES as nat),
            game@.wf(),
            game@.tiles.len() == TILES,
            game@ == play_all(start, game@.rolls),
            forall|k: int| 0 <= k < game@.rolls.len() ==> is_dice_sum(#[trigger] game@.rolls[k]),
            forall|k: int|
                0 <= k < game@.rolls.len() ==> !(#[trigger] play_all(
                    start,
                    game@.rolls.take(k),
                )).victory(),
            forall|k: int|
                0 <= k < game@.rolls.len() - 1 ==> (#[trigger] play_all(
                    start,
                    game@.rolls.take(k),
                )).playable(game@.rolls[k] as int),
            !valid ==> game@.rolls.len() >= 1 && !game@.victory() && !play_all(
                start,
                game@.rolls.drop_last(),
            ).playable(game@.rolls.last() as int),
            valid && game@.rolls.len() >= 1 ==> play_all(start, game@.rolls.drop_last()).playable(
                game@.rolls.last() as int,
            ),
            valid ==> game@.rolls.len() <= shut_tiles(game@.tiles).len(),
            !valid ==> game@.rolls.len() <= shut_tiles(game@.tiles).len() + 1,
            shut_tiles(game@.tiles).len() <= TILES,
        decreases
            TILES - shut_tiles(game@.tiles).len() + if valid {
                1int
            } else {
                0int
            },
    {
        let ghost before = game@;
        dice.roll();
        let roll = dice.result();
        valid = game.play_roll(roll);
        proof {
            let rolls = game@.rolls;
            lemma_play_roll_keeps(before, roll);
            assert(rolls.drop_last() == before.rolls);
            assert forall|k: int| 0 <= k < rolls.len() implies !(#[trigger] play_all(
                start,
                rolls.take(k),
            )).victory() by {
                if k < before.rolls.len() {
                    assert(rolls.take(k) == before.rolls.take(k));
                } else {
                    assert(rolls.take(k) == before.rolls);
                }
            }
            assert forall|k: int| 0 <= k < rolls.len() - 1 implies (#[trigger] play_all(
                start,
                rolls.take(k),
            )).playable(rolls[k] as int) by {
                assert(rolls.take(k) == before.rolls.take(k));
                if k == before.rolls.len() - 1 {
                    assert(before.rolls.take(k) == before.rolls.drop_last());
                }
            }
            lemma_shut_upto_len(game@.tiles, TILES as nat);
            lemma_all_shut(before.tiles, TILES as nat);
        }
    }
    proof {
        lemma_all_shut(game@.tiles, TILES as nat);
    }
    game
}

} // verus!
