use poker::card_set::CardSet;
use poker::round_state::{RoundStage, RoundState};

/// Chip amounts in the library count hundredths of a big blind.
fn chips(amounts: &[f64]) -> Vec<u64> {
    amounts.iter().map(|&a| (a * 100.0).round() as u64).collect()
}

fn cards(text: &str) -> CardSet {
    CardSet::parse(text).unwrap()
}

#[test]
pub fn test_chip_distribution() {
    let mut round_state = RoundState {
        player_count: 8,
        stage: RoundStage::PreFlop,
        community_cards: cards("As Ks 5h 6c 8c"),
        player_cards: vec![
            "Ah 4h", // 0 2nd
            "Ac 3c", // 1 2nd
            "Kh 5s", // 2 1st
            "Kc 5c", // 3 1st
            "Kd 5d", // 4 1st
            "2s 3s", // 5 5th
            "8h 4d", // 6 4th
            "6h 2d", // 7 3th
        ]
        .iter()
        .map(|&s| cards(s))
        .collect(),
        bet_chips: chips(&[3.0, 50.0, 6.0, 10.0, 15.0, 110.0, 15.0, 130.0]),
        free_chips: chips(&[0.0, 0.0, 25.0, 0.0, 0.0, 0.0, 10.0, 20.0]),
        folded: (1 << 2) | (1 << 6),
        ..Default::default()
    };
    while !round_state.is_finished() {
        round_state.do_action(0);
    }
    assert!(round_state.is_finished(), "rs1 should be finished");

    assert_eq!(
        round_state.free_chips,
        chips(&[0.0, 105.0, 40.0, 27.0, 52.0, 0.0, 10.0, 160.0]),
        "Wrong distribution of chips"
    );
}

#[test]
pub fn test_game_finish() {
    let mut rs1 = RoundState {
        player_count: 8,
        stage: RoundStage::River,
        community_cards: cards("As Ks 5h 6c 8c"),
        player_cards: vec![
            cards("Ah 4h"), // 0 2nd
            cards("Ac 3c"), // 1 2nd
            cards("Kh 5s"), // 2 1st
            cards("Kc 5c"), // 3 1st
            cards("Kd 5d"), // 4 1st
            cards("2s 3s"), // 5 5th
            cards("8h 4d"), // 6 4th
            cards("6h 2d"), // 7 3th
        ],
        bet_chips: chips(&[3.0, 50.0, 0.0, 10.0, 100.0, 110.0, 15.0, 130.0]),
        free_chips: chips(&[0.0, 0.0, 25.0, 0.0, 0.0, 0.0, 10.0, 20.0]),
        folded: (1 << 2) | (1 << 6),
        ..Default::default()
    };
    while !rs1.is_finished() {
        rs1.do_action(0);
    }
    assert!(rs1.is_finished(), "rs1 should be finished");
    rs1.finish_game();

    assert_eq!(
        rs1.free_chips,
        chips(&[0.0, 0.0, 25.0, 31.5, 346.5, 0.0, 10.0, 60.0]),
        "Wrong distribution of chips"
    );
}
