use poker::card::Card;
use poker::card_set::CardSet;
use poker::round_state::{RoundStage, RoundState};

fn hand(text: &str) -> CardSet {
    CardSet::parse(text).unwrap()
}

fn value(text: &str) -> i32 {
    hand(text).as_canonical().evaluate()
}

fn codes(cs: &CardSet) -> Vec<u8> {
    cs.cards[..cs.len()].iter().map(|c| c.0).collect()
}

#[test]
fn card_parse_reads_rank_then_suit() {
    assert_eq!(Card::parse("As"), Some(Card(51)));
    assert_eq!(Card::parse("2c"), Some(Card(0)));
    assert_eq!(Card::parse("Td"), Some(Card(21)));
    assert_eq!(Card::parse("Ax"), None);
    assert_eq!(Card::parse("1c"), None);
    assert_eq!(Card::parse("A"), None);
    assert_eq!(Card::parse("Ass"), None);
    assert_eq!(Card::parse("as"), None);
}

#[test]
fn card_rank_and_suit() {
    let card = Card::parse("Qh").unwrap();
    assert_eq!(card.rank(), 10);
    assert_eq!(card.suit(), 2);
    assert_eq!(Card::from(51u8).rank(), 12);
    assert_eq!(Card::from(51u8).suit(), 3);
}

#[test]
fn card_set_parse_skips_separators() {
    let cs = hand("4h 2c 3c As 9s Qs");
    assert_eq!(codes(&cs), vec![28, 0, 1, 51, 46, 49]);
    assert_eq!(codes(&hand("4h*2c")), vec![28, 0]);
    assert_eq!(hand("").len(), 0);
    assert!(CardSet::parse("4h 2x").is_none());
    assert!(CardSet::parse("2c 3c 4c 5c 6c 7c 8c 9c").is_none());
}

#[test]
fn card_set_keeps_empty_slots() {
    let cs = CardSet::from_codes(&[3, 4]);
    assert_eq!(cs.len(), 2);
    assert_eq!(cs.cards[2].0, 255);
    let mut merged = hand("As Ks 5h 6c 8c");
    merged.set_cards_partial(&[Card(0), Card(1)], 5);
    assert_eq!(codes(&merged), vec![51, 50, 29, 4, 6, 0, 1]);
    assert_eq!(merged.iter().count(), 7);
}

#[test]
fn identifier_packs_six_bits_per_card() {
    assert_eq!(CardSet::from_codes(&[0, 1]).identifier(), 1);
    assert_eq!(CardSet::from_codes(&[51, 50]).identifier(), 51 * 64 + 50);
    assert_eq!(CardSet::from_codes(&[]).identifier(), 0);
}

#[test]
fn increment_steps_through_combinations() {
    let mut cs = CardSet::from_codes(&[0, 1]);
    assert!(cs.increment());
    assert_eq!(codes(&cs), vec![0, 2]);
    let mut cs = CardSet::from_codes(&[0, 51]);
    assert!(cs.increment());
    assert_eq!(codes(&cs), vec![1, 2]);
    let mut cs = CardSet::from_codes(&[50, 51]);
    assert!(!cs.increment());
}

#[test]
fn canonicalize_relabels_and_sorts() {
    // equal counts and equal ranks: the lower suit index comes first
    assert_eq!(codes(&hand("2c 2d").as_canonical()), vec![39, 26]);
    assert_eq!(hand("2c 2d").as_canonical().identifier(), hand("2s 2h").as_canonical().identifier());
    assert_eq!(codes(&hand("As").as_canonical()), vec![51]);
    // the suit with most cards becomes suit 3 and leads
    assert_eq!(codes(&hand("2h 5h 7h 9h Jh Ac Kd").as_canonical()), vec![48, 46, 44, 42, 39, 38, 24]);
}

#[test]
fn canonicalize_twice_changes_nothing() {
    for text in ["2h 5h 7h 9h Jh Ac Kd", "As Ks 5h 6c 8c Ah 4h", "2c 2d 2h 2s 3c", "Td"] {
        let once = hand(text).as_canonical();
        let twice = once.as_canonical();
        assert_eq!(codes(&once), codes(&twice));
    }
}

#[test]
fn evaluate_exact_values() {
    assert_eq!(value("As Ks Qs Js Ts 2c 3d"), 8 * (1 << 20) + 9);
    assert_eq!(value("Ah 2h 3h 4h 5h 9c Kd"), 8 * (1 << 20));
    assert_eq!(value("2c 2d 2h 2s Ac Kd Qh"), 7 * (1 << 20) + 12);
    assert_eq!(value("Kc Kd Kh 2s 2c 5d 9h"), 6 * (1 << 20) + 13 * 11);
    assert_eq!(value("2h 5h 7h 9h Jh Ac Kd"), 5 * (1 << 20) + 11880 * 9 + 990 * 7 + 90 * 5 + 9 * 3);
    assert_eq!(value("5c 6d 7h 8s 9c Kd 2h"), 4 * (1 << 20) + 1 + 3);
    assert_eq!(value("Ah 2c 3d 4s 5h 9c Kd"), 4 * (1 << 20));
    assert_eq!(value("7c 7d 7h 2s 9c Jd Kh"), 3 * (1 << 20) + 156 * 5 + 12 * 11 + 9);
    assert_eq!(value("Ac Ad Kh Ks 2c 5d 9h"), 2 * (1 << 20) + 156 * 11 + 13 * 11 + 7);
    assert_eq!(value("Ac Ad 2h 5s 7c 9d Jh"), (1 << 20) + 1716 * 12 + 132 * 9 + 11 * 7 + 5);
    assert_eq!(value("2c 4d 6h 8s Tc Qd Ah"), 1 + 11880 * 12 + 990 * 10 + 90 * 8 + 9 * 6 + 4);
}

#[test]
fn evaluate_orders_hands() {
    assert!(value("Ac Ad 2h 5s 7c 9d Jh") > value("Kc Kd 2h 5s 7c 9d Jh"));
    assert!(value("Ac Ad Kh Ks 2c 5d 9h") > value("Ac Ad Qh Qs Jc 5d 9h"));
    assert!(value("6c 7d 8h 9s Tc 2d 2h") > value("Ah 2c 3d 4s 5h 9c Kd"));
    assert_eq!(value("Ac Ad 2h 5s 7c 9d Jh"), value("Ah As 2d 5c 7h 9s Jd"));
}

#[test]
fn heads_up_button_posts_small_blind_and_acts_first() {
    let rs = RoundState::new(vec![10000, 10000]);
    assert_eq!(rs.button, 0);
    assert_eq!(rs.turn, 0);
    assert_eq!(rs.bet_chips, vec![50, 100]);
    assert_eq!(rs.free_chips, vec![9950, 9900]);
    assert_eq!(rs.stage, RoundStage::PreFlop);
    assert!(rs.revealed_community_cards().is_empty());
}

#[test]
fn blinds_sit_left_of_the_button_and_clip_to_stacks() {
    let rs = RoundState::new(vec![1000, 30, 60, 500]);
    assert_eq!(rs.turn, 3);
    assert_eq!(rs.bet_chips, vec![0, 30, 60, 0]);
    assert_eq!(rs.free_chips, vec![1000, 0, 0, 500]);
    let rs = RoundState::new(vec![1000, 1000, 1000]);
    assert_eq!(rs.turn, 0);
}

#[test]
fn deals_from_the_given_deck() {
    let deck: Vec<u8> = (0..52).collect();
    let rs = RoundState::new_with_deck(&deck, vec![1000, 1000, 1000]);
    assert_eq!(codes(&rs.community_cards), vec![0, 1, 2, 3, 4]);
    assert_eq!(codes(&rs.player_cards[0]), vec![5, 6]);
    assert_eq!(codes(&rs.player_cards[2]), vec![9, 10]);
}

#[test]
fn fold_call_and_raise() {
    let deck: Vec<u8> = (0..52).collect();
    let mut rs = RoundState::new_with_deck(&deck, vec![1000, 1000, 1000]);
    // seat 0 raises to 300: calls 100, raises 200
    rs.do_action(300);
    assert_eq!(rs.bet_chips, vec![300, 50, 100]);
    assert_eq!(rs.min_raise, 200);
    assert_eq!(rs.last_raise_by, 0);
    assert_eq!(rs.turn, 1);
    // seat 1 folds
    rs.do_action(-1);
    assert_eq!(rs.folded, 1 << 1);
    assert_eq!(rs.turn, 2);
    // seat 2 calls; the street closes and the flop opens left of the button
    rs.do_action(0);
    assert_eq!(rs.bet_chips, vec![300, 50, 300]);
    assert_eq!(rs.stage, RoundStage::Flop);
    assert_eq!(rs.revealed_community_cards().len(), 3);
    assert_eq!(rs.turn, 2);
    // a raise below the minimum is lifted to it
    rs.do_action(10);
    assert_eq!(rs.bet_chips, vec![300, 50, 500]);
    assert_eq!(rs.min_raise, 200);
}

#[test]
fn all_in_short_stack_wins_only_the_main_pot() {
    let mut rs = RoundState {
        player_count: 3,
        stage: RoundStage::River,
        community_cards: hand("2c 7d 9h Js Kc"),
        player_cards: vec![hand("Ac Ad"), hand("Kd Qh"), hand("3s 4s")],
        bet_chips: vec![1000, 5000, 5000],
        free_chips: vec![0, 10000, 10000],
        turn: 1,
        last_raise_by: 1,
        ..Default::default()
    };
    while !rs.is_finished() {
        rs.do_action(0);
    }
    assert_eq!(rs.free_chips, vec![3000, 18000, 10000]);
    assert_eq!(rs.bet_chips, vec![0, 0, 0]);
}

#[test]
fn split_pot_remainder_goes_to_the_first_winner() {
    let mut rs = RoundState {
        player_count: 3,
        stage: RoundStage::River,
        community_cards: hand("Ac Kd Qh Js Tc"),
        player_cards: vec![hand("2c 3d"), hand("2h 3s"), hand("4c 5d")],
        bet_chips: vec![101, 100, 100],
        free_chips: vec![0, 0, 0],
        ..Default::default()
    };
    rs.finish_game();
    let total: u64 = rs.free_chips.iter().sum::<u64>() + rs.bet_chips.iter().sum::<u64>();
    assert_eq!(total, 301);
    assert_eq!(rs.free_chips, vec![101, 100, 100]);
}

#[test]
fn chips_are_conserved_through_a_hand() {
    let mut rs = RoundState::new(vec![2000, 1500, 700, 3000]);
    let start: u64 = 2000 + 1500 + 700 + 3000;
    let mut step = 0;
    while !rs.is_finished() {
        let bet = match step % 3 {
            0 => 0,
            1 => 250,
            _ => -1,
        };
        rs.do_action(bet);
        step += 1;
        let total: u64 = rs.free_chips.iter().sum::<u64>() + rs.bet_chips.iter().sum::<u64>();
        assert_eq!(total, start);
    }
}

#[test]
fn card_text_reads_back() {
    assert_eq!(&Card(51).text(), b"As");
    assert_eq!(&Card(0).text(), b"2c");
    assert_eq!(&Card(21).text(), b"Td");
    for code in 0..52u8 {
        let text = Card(code).text();
        assert_eq!(Card::parse(std::str::from_utf8(&text).unwrap()), Some(Card(code)));
    }
}
