use std::collections::HashMap;

use tictactoe::ai_game::AiGame;
use tictactoe::ai_player::{AiPlayer, Prior, TdStep};
use tictactoe::state::get_all_states;

fn seeded(symbol: isize, all_states: &HashMap<isize, (bool, isize)>) -> HashMap<isize, f64> {
    AiPlayer::initial_estimates(symbol, all_states)
        .into_iter()
        .map(|(hash, prior)| {
            let value = match prior {
                Prior::Zero => 0.0,
                Prior::Half => 0.5,
                Prior::One => 1.0,
            };
            (hash, value)
        })
        .collect()
}

fn ranks(values: &HashMap<isize, f64>, moves: &[(usize, isize)]) -> Vec<u64> {
    // the estimates lie between 0 and 1, where the bits of a float order
    // as the float does
    moves.iter().map(|&(_, hash)| values[&hash].to_bits()).collect()
}

fn update(values: &mut HashMap<isize, f64>, steps: &[TdStep], step_size: f64) {
    for step in steps {
        let greedy = if step.greedy { 1.0 } else { 0.0 };
        let td_error = greedy * (values[&step.successor] - values[&step.state]);
        *values.get_mut(&step.state).unwrap() += step_size * td_error;
    }
}

#[test]
fn self_play_learns_that_the_opening_is_a_draw() {
    let all_states = get_all_states();
    let mut first = seeded(1, &all_states);
    let mut second = seeded(-1, &all_states);
    let mut game = AiGame::new(AiPlayer::default(), AiPlayer::default());
    let mut episode: u64 = 0;
    while episode < 30000 {
        let mut moves: u64 = 0;
        while !game.is_end() {
            let open = game.next_moves();
            let values = if game.get_symbol() == 1 { &first } else { &second };
            // every hundredth move is a random one
            let explore = (episode * 7 + moves * 13) % 100 == 0;
            game.advance(explore, &ranks(values, &open));
            moves += 1;
        }
        let (steps1, steps2) = game.backup();
        update(&mut first, &steps1, 0.1);
        update(&mut second, &steps2, 0.1);
        game.reset();
        episode += 1;
    }
    assert!((first[&9841] - 0.5).abs() < 0.1);
    assert!((second[&9841] - 0.5).abs() < 0.1);
    // two trained agents that follow their estimates draw
    let mut draws = 0;
    for _ in 0..100 {
        while !game.is_end() {
            let open = game.next_moves();
            let values = if game.get_symbol() == 1 { &first } else { &second };
            game.advance(false, &ranks(values, &open));
        }
        if game.get_winner() == 0 {
            draws += 1;
        }
        game.reset();
    }
    assert!(draws >= 95);
}

#[test]
fn training_keeps_decided_positions_as_they_are() {
    let all_states = get_all_states();
    let mut first = seeded(1, &all_states);
    let mut game = AiGame::new(AiPlayer::default(), AiPlayer::default());
    for _ in 0..500 {
        while !game.is_end() {
            let open = game.next_moves();
            let level: Vec<u64> = open.iter().map(|_| 0).collect();
            game.advance(true, &level);
        }
        let (steps1, _) = game.backup();
        update(&mut first, &steps1, 0.1);
        game.reset();
    }
    // the last position of an episode is never updated itself
    for (hash, &(end, winner)) in all_states.iter() {
        if end {
            let expected = if winner == 1 {
                1.0
            } else if winner == 0 {
                0.5
            } else {
                0.0
            };
            assert_eq!(first[hash], expected);
        }
    }
}

#[test]
fn estimates_survive_serialization() {
    let all_states = get_all_states();
    let mut values = seeded(-1, &all_states);
    values.insert(9841, 0.1 + 0.2);
    values.insert(9922, 1.0 / 3.0);
    let serialized = serde_json::to_string(&values).unwrap();
    let restored: HashMap<isize, f64> = serde_json::from_str(&serialized).unwrap();
    assert_eq!(restored.len(), 5478);
    assert_eq!(restored, values);
}
