use hdrhistogram::RecordError;
use shut_the_box::board::ShutTheBox;
use shut_the_box::statistics::{arange, SaveError, Statistics};

/// Five rolls of 7 on the classic board: the tiles 1 to 7 go, the fifth roll ends the game.
fn lost_game() -> ShutTheBox {
    let mut game = ShutTheBox::init(12);
    for _ in 0..4 {
        assert!(game.play_roll(7));
    }
    assert!(!game.play_roll(7));
    game
}

/// Two rolls of 3 shut a board of three tiles.
fn won_game() -> ShutTheBox {
    let mut game = ShutTheBox::init(3);
    assert!(game.play_roll(3));
    assert!(game.play_roll(3));
    assert!(game.victory());
    game
}

fn counters(stats: &Statistics) -> (u64, u64, Vec<u64>, Vec<u64>, Vec<u64>) {
    (
        stats.num_total(),
        stats.num_won(),
        stats.count_shut().clone(),
        stats.count_nrolls().clone(),
        stats.count_lastroll().clone(),
    )
}

#[test]
fn test_statistics_new_is_empty() {
    let stats = Statistics::new();
    assert_eq!(stats.num_total(), 0);
    assert_eq!(stats.num_won(), 0);
    assert_eq!(stats.last_won(), 0);
    assert_eq!(*stats.count_shut(), vec![0; 12]);
    assert_eq!(*stats.count_nrolls(), vec![0; 12]);
    assert_eq!(*stats.count_lastroll(), vec![0; 12]);
    assert_eq!(stats.count_between(0, u64::MAX), 0);
    assert_eq!(stats.count_between(5, 10), 0);
}

#[test]
fn test_save_game_counts_a_lost_game() {
    let mut stats = Statistics::new();
    let game = lost_game();
    assert_eq!(*game.get_rolls(), vec![7, 7, 7, 7, 7]);
    assert_eq!(*game.get_numbers(), vec![7, 6, 1, 5, 2, 4, 3]);
    assert!(stats.accepts(&game));
    assert_eq!(stats.save_game(&game), Ok(()));
    assert_eq!(stats.num_total(), 1);
    assert_eq!(stats.num_won(), 0);
    assert_eq!(stats.last_won(), 0);
    assert_eq!(*stats.count_shut(), vec![1, 1, 1, 1, 1, 1, 1, 0, 0, 0, 0, 0]);
    assert_eq!(*stats.count_nrolls(), vec![0, 0, 0, 0, 1, 0, 0, 0, 0, 0, 0, 0]);
    assert_eq!(*stats.count_lastroll(), vec![0, 0, 0, 0, 0, 0, 1, 0, 0, 0, 0, 0]);
    assert_eq!(stats.count_between(0, u64::MAX), 0);
}

#[test]
fn test_save_game_counts_a_won_game() {
    let mut stats = Statistics::new();
    let game = won_game();
    assert!(stats.accepts(&game));
    assert_eq!(stats.save_game(&game), Ok(()));
    assert_eq!(stats.num_total(), 1);
    assert_eq!(stats.num_won(), 1);
    assert_eq!(stats.last_won(), 0);
    assert_eq!(*stats.count_shut(), vec![1, 1, 1, 0, 0, 0, 0, 0, 0, 0, 0, 0]);
    assert_eq!(*stats.count_nrolls(), vec![0, 1, 0, 0, 0, 0, 0, 0, 0, 0, 0, 0]);
    assert_eq!(*stats.count_lastroll(), vec![0, 0, 1, 0, 0, 0, 0, 0, 0, 0, 0, 0]);
    assert_eq!(stats.count_between(0, 0), 1);
    assert_eq!(stats.count_between(1, u64::MAX), 0);
}

#[test]
fn test_save_game_records_the_gaps_between_wins() {
    let mut stats = Statistics::new();
    assert_eq!(stats.save_game(&lost_game()), Ok(()));
    assert_eq!(stats.save_game(&won_game()), Ok(()));
    assert_eq!(stats.last_won(), 1);
    assert_eq!(stats.count_between(1, 1), 1);
    assert_eq!(stats.save_game(&lost_game()), Ok(()));
    assert_eq!(stats.save_game(&won_game()), Ok(()));
    assert_eq!(stats.last_won(), 3);
    assert_eq!(stats.num_total(), 4);
    assert_eq!(stats.num_won(), 2);
    assert_eq!(stats.count_between(0, 0), 0);
    assert_eq!(stats.count_between(1, 1), 1);
    assert_eq!(stats.count_between(2, 2), 1);
    assert_eq!(stats.count_between(3, 100), 0);
    assert_eq!(stats.count_between(0, 100), 2);
    assert_eq!(*stats.count_shut(), vec![4, 4, 4, 2, 2, 2, 2, 0, 0, 0, 0, 0]);
    assert_eq!(*stats.count_nrolls(), vec![0, 2, 0, 0, 2, 0, 0, 0, 0, 0, 0, 0]);
    assert_eq!(*stats.count_lastroll(), vec![0, 0, 2, 0, 0, 0, 2, 0, 0, 0, 0, 0]);
}

#[test]
fn test_save_game_counts_each_entry_of_the_history() {
    let mut game = ShutTheBox::init(3);
    game.shut(2);
    game.shut(2);
    assert!(game.play_roll(1));
    assert_eq!(*game.get_numbers(), vec![2, 2, 1]);
    let mut stats = Statistics::new();
    assert!(stats.accepts(&game));
    assert_eq!(stats.save_game(&game), Ok(()));
    assert_eq!(*stats.count_shut(), vec![1, 2, 0, 0, 0, 0, 0, 0, 0, 0, 0, 0]);
    assert_eq!(*stats.count_nrolls(), vec![1, 0, 0, 0, 0, 0, 0, 0, 0, 0, 0, 0]);
    assert_eq!(*stats.count_lastroll(), vec![1, 0, 0, 0, 0, 0, 0, 0, 0, 0, 0, 0]);
}

#[test]
fn test_accepts_needs_a_roll() {
    let stats = Statistics::new();
    let game = ShutTheBox::init(12);
    assert!(!stats.accepts(&game));
}

#[test]
fn test_accepts_at_most_twelve_rolls() {
    let stats = Statistics::new();
    let mut game = ShutTheBox::init(1);
    game.shut(1);
    for _ in 0..12 {
        game.play_roll(2);
    }
    assert!(stats.accepts(&game));
    game.play_roll(2);
    assert_eq!(game.get_rolls().len(), 13);
    assert!(!stats.accepts(&game));
}

#[test]
fn test_accepts_a_last_roll_from_one_to_twelve() {
    let stats = Statistics::new();
    let mut game = ShutTheBox::init(12);
    game.play_roll(13);
    assert!(!stats.accepts(&game));
    game.play_roll(12);
    assert!(stats.accepts(&game));
    game.play_roll(0);
    assert!(!stats.accepts(&game));
    game.play_roll(1);
    assert!(stats.accepts(&game));
}

#[test]
fn test_accepts_tiles_up_to_twelve() {
    let stats = Statistics::new();
    let mut game = ShutTheBox::init(13);
    game.play_roll(12);
    assert!(stats.accepts(&game));
    game.shut(13);
    assert!(!stats.accepts(&game));
}

#[test]
fn test_count_game_with_a_refused_gap() {
    let mut stats = Statistics::new();
    assert_eq!(stats.save_game(&lost_game()), Ok(()));
    let before = counters(&stats);
    let game = won_game();
    let refused = stats.count_game(&game, Err(RecordError::ValueOutOfRangeResizeDisabled));
    assert_eq!(refused, Err(SaveError::GapRefused));
    assert_eq!(counters(&stats), before);
    assert_eq!(stats.last_won(), 0);
    let refused = stats.count_game(&game, Err(RecordError::ResizeFailedUsizeTypeTooSmall));
    assert_eq!(refused, Err(SaveError::GapRefused));
    assert_eq!(counters(&stats), before);
}

#[test]
fn test_count_game_with_a_recorded_gap() {
    let mut stats = Statistics::new();
    let game = won_game();
    assert_eq!(stats.count_game(&game, Ok(())), Ok(()));
    assert_eq!(stats.num_total(), 1);
    assert_eq!(stats.num_won(), 1);
    assert_eq!(*stats.count_shut(), vec![1, 1, 1, 0, 0, 0, 0, 0, 0, 0, 0, 0]);
    assert_eq!(stats.count_between(0, u64::MAX), 0);
}

#[test]
fn test_counters_do_not_depend_on_the_order() {
    let mut third = ShutTheBox::init(12);
    assert!(third.play_roll(12));
    assert!(third.play_roll(11));
    assert!(third.play_roll(11));
    assert!(!third.play_roll(1));
    assert_eq!(*third.get_numbers(), vec![12, 11, 10, 1]);
    let games = vec![lost_game(), won_game(), third, won_game(), lost_game(), won_game()];
    let orders: Vec<Vec<usize>> = vec![
        vec![0, 1, 2, 3, 4, 5],
        vec![5, 4, 3, 2, 1, 0],
        vec![1, 3, 5, 0, 2, 4],
        vec![2, 0, 4, 1, 5, 3],
    ];
    let mut results = Vec::new();
    for order in orders.iter() {
        let mut stats = Statistics::new();
        for place in order.iter() {
            assert!(stats.accepts(&games[*place]));
            assert_eq!(stats.save_game(&games[*place]), Ok(()));
        }
        assert_eq!(stats.count_between(0, u64::MAX), 3);
        results.push(counters(&stats));
    }
    assert_eq!(results[0].0, 6);
    assert_eq!(results[0].1, 3);
    assert_eq!(results[0].2, vec![6, 5, 5, 2, 2, 2, 2, 0, 0, 1, 1, 1]);
    assert_eq!(results[0].3, vec![0, 3, 0, 1, 2, 0, 0, 0, 0, 0, 0, 0]);
    assert_eq!(results[0].4, vec![1, 0, 3, 0, 0, 0, 2, 0, 0, 0, 0, 0]);
    for other in results.iter() {
        assert_eq!(*other, results[0]);
    }
}

#[test]
fn test_counters_sum_up_over_split_work() {
    let games = vec![lost_game(), won_game(), lost_game(), won_game(), won_game()];
    let mut whole = Statistics::new();
    for game in games.iter() {
        assert_eq!(whole.save_game(game), Ok(()));
    }
    let mut left = Statistics::new();
    let mut right = Statistics::new();
    for (place, game) in games.iter().enumerate() {
        if place % 2 == 0 {
            assert_eq!(left.save_game(game), Ok(()));
        } else {
            assert_eq!(right.save_game(game), Ok(()));
        }
    }
    assert_eq!(whole.num_total(), left.num_total() + right.num_total());
    assert_eq!(whole.num_won(), left.num_won() + right.num_won());
    for bucket in 0..12 {
        assert_eq!(whole.count_shut()[bucket], left.count_shut()[bucket] + right.count_shut()[bucket]);
        assert_eq!(
            whole.count_nrolls()[bucket],
            left.count_nrolls()[bucket] + right.count_nrolls()[bucket]
        );
        assert_eq!(
            whole.count_lastroll()[bucket],
            left.count_lastroll()[bucket] + right.count_lastroll()[bucket]
        );
    }
}

#[test]
fn test_arange_steps_from_min_to_max() {
    assert_eq!(arange(0, 100, 25), vec![(0, 25), (25, 50), (50, 75), (75, 100)]);
    assert_eq!(arange(0, 10, 4), vec![(0, 4), (4, 8), (8, 12)]);
    assert_eq!(arange(5, 6, 3), vec![(5, 8)]);
    assert_eq!(arange(5, 5, 3), vec![]);
    assert_eq!(arange(9, 5, 1), vec![]);
    assert_eq!(arange(0, 2000, 25).len(), 80);
    assert_eq!(arange(0, 2000, 25)[79], (1975, 2000));
}

#[test]
fn test_count_ranges_of_the_gaps() {
    let mut stats = Statistics::new();
    assert_eq!(stats.save_game(&won_game()), Ok(()));
    assert_eq!(stats.save_game(&lost_game()), Ok(()));
    assert_eq!(stats.save_game(&lost_game()), Ok(()));
    assert_eq!(stats.save_game(&won_game()), Ok(()));
    assert_eq!(stats.save_game(&won_game()), Ok(()));
    assert_eq!(stats.count_ranges(&arange(0, 6, 2)), vec![2, 1, 0]);
    assert_eq!(stats.count_ranges(&arange(0, 3, 1)), vec![1, 1, 0]);
    assert_eq!(stats.count_ranges(&arange(3, 4, 1)), vec![1]);
    assert_eq!(stats.count_ranges(&arange(4, 4, 1)), Vec::<u64>::new());
    assert_eq!(stats.count_ranges(&vec![(0, 0), (0, 1), (1, 4), (5, 2)]), vec![0, 1, 2, 0]);
}
