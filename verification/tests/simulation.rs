use shut_the_box::board::ShutTheBox;
use shut_the_box::simulation::simulate_game;
use shut_the_box::statistics::Statistics;

#[test]
fn test_simulate_game_plays_to_the_end() {
    for _ in 0..300 {
        let game = simulate_game();
        assert_eq!(game.total(), 12);
        let rolls = game.get_rolls().clone();
        assert!(1 <= rolls.len() && rolls.len() <= 12);
        for roll in rolls.iter() {
            assert!(2 <= *roll && *roll <= 12);
        }
        let mut replay = ShutTheBox::init(12);
        for (place, roll) in rolls.iter().enumerate() {
            assert!(!replay.victory());
            let played = replay.play_roll(*roll);
            if place + 1 < rolls.len() {
                assert!(played);
            } else {
                assert!(replay.victory() || !played);
                assert_eq!(played, replay.victory());
            }
        }
        assert_eq!(replay.get_numbers(), game.get_numbers());
        assert_eq!(replay.get_open(), game.get_open());
        assert_eq!(replay.get_shut(), game.get_shut());
        assert_eq!(replay.victory(), game.victory());
    }
}

#[test]
fn test_simulate_game_shuts_each_tile_once() {
    for _ in 0..300 {
        let game = simulate_game();
        let mut numbers = game.get_numbers().clone();
        numbers.sort();
        assert_eq!(numbers, game.get_shut());
    }
}

#[test]
fn test_simulated_games_are_saved() {
    let mut stats = Statistics::new();
    let mut won = 0;
    let mut shut = vec![0u64; 12];
    let mut nrolls = vec![0u64; 12];
    let mut lastroll = vec![0u64; 12];
    for played in 0..500u64 {
        let game = simulate_game();
        assert!(stats.accepts(&game));
        assert!(stats.save_game(&game).is_ok());
        if game.victory() {
            won += 1;
        }
        for tile in game.get_numbers().iter() {
            shut[*tile - 1] += 1;
        }
        nrolls[game.get_rolls().len() - 1] += 1;
        lastroll[*game.get_rolls().last().unwrap() - 1] += 1;
        assert_eq!(stats.num_total(), played + 1);
    }
    assert_eq!(stats.num_won(), won);
    assert_eq!(*stats.count_shut(), shut);
    assert_eq!(*stats.count_nrolls(), nrolls);
    assert_eq!(*stats.count_lastroll(), lastroll);
    assert_eq!(stats.count_between(0, u64::MAX), won);
    assert_eq!(lastroll[0], 0);
}
