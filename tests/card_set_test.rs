use poker::card_set::CardSet;

/// Distinct identifiers of canonical sets, kept as one bit per combination of
/// cards: an identifier lists distinct codes six bits apiece, and its
/// combination's rank among all sets of that size picks the bit.
struct SeenIdentifiers {
    card_count: usize,
    binomial: [[u64; 8]; 53],
    bits: Vec<u64>,
    distinct: usize,
}

impl SeenIdentifiers {
    fn new(card_count: usize) -> Self {
        let mut binomial = [[0u64; 8]; 53];
        for n in 0..53 {
            binomial[n][0] = 1;
            for k in 1..8 {
                binomial[n][k] = if n == 0 { 0 } else { binomial[n - 1][k - 1] + binomial[n - 1][k] };
            }
        }
        let slots = binomial[52][card_count] as usize;
        SeenIdentifiers { card_count, binomial, bits: vec![0; slots / 64 + 1], distinct: 0 }
    }

    fn insert(&mut self, identifier: u64) {
        let mut rank = 0u64;
        let mut rest = identifier;
        // the codes come highest first, so the lowest sits in the low bits
        for i in 1..=self.card_count {
            rank += self.binomial[(rest & 63) as usize][i];
            rest >>= 6;
        }
        let (word, bit) = ((rank / 64) as usize, rank % 64);
        if self.bits[word] & (1 << bit) == 0 {
            self.bits[word] |= 1 << bit;
            self.distinct += 1;
        }
    }

    fn len(&self) -> usize {
        self.distinct
    }
}

fn increment_cardset(card_set: &mut CardSet) -> bool {
    let card_count = card_set.len();
    card_set.cards[card_count - 1].0 += 1;
    for i in (0..card_count).rev() {
        if card_set.cards[i].0 as usize >= 52 - (card_count - 1 - i) {
            if i == 0 {
                // Max value was exceeded, failed to increment
                return false;
            }
            card_set.cards[i - 1].0 += 1;
            continue;
        }
        // Found a value who's max is not exceeded
        for j in i + 1..card_count {
            card_set.cards[j].0 = card_set.cards[i].0 + (j - i) as u8;
        }
        break;
    }
    return true;
}

const EXPECTED_HAND_COUNT: [u64; 8] = [0, 52, 1326, 22100, 270725, 2598960, 20358520, 133784560];
const EXPECTED_ISOMORPHIC_HAND_COUNT: [u32; 8] = [0, 13, 169, 1755, 16432, 134459, 962988, 6009159];

#[test]
fn test_count_different_isomorphic_hands() {
    for card_count in 1..EXPECTED_ISOMORPHIC_HAND_COUNT.len() {
        let mut hand_count = 0u64;
        let codes: Vec<u8> = (0..card_count as u8).collect();
        let mut card_set = CardSet::from_codes(&codes);
        let mut seen_identifiers = SeenIdentifiers::new(card_count);
        loop {
            hand_count += 1;
            let cannonical = card_set.clone().as_canonical();
            seen_identifiers.insert(cannonical.identifier());
            if !increment_cardset(&mut card_set) {
                break;
            }
        }
        assert_eq!(
            EXPECTED_HAND_COUNT[card_count],
            hand_count,
            "Incorrect amount of hands for CarSet with {} cards",
            card_count
        );
        assert_eq!(
            EXPECTED_ISOMORPHIC_HAND_COUNT[card_count],
            seen_identifiers.len() as u32,
            "Incorrect amount of isomorphic hands for CarSet with {} cards",
            card_count
        );
    }
}

#[test]
fn test_canonical_eval() {
    const EXPECTED_EVAL_COUNTS: [(&str, u32); 9] = [
        ("High card", 23294460),
        ("One pair", 58627800),
        ("Two pair", 31433400),
        ("Three of a kind", 6461620),
        ("Straight", 6180020),
        ("Flush", 4047644),
        ("Full house", 3473184),
        ("Four of a kind", 224848),
        ("St/Ro flush", 41584),
    ];

    let codes: Vec<u8> = (0..7u8).collect();
    let mut card_set = CardSet::from_codes(&codes);
    let mut eval_type_count = [0u32; 9];
    let mut hand_count = 0u64;
    loop {
        let cannonical = card_set.clone().as_canonical();
        let eval_type = cannonical.evaluate() >> 20;
        eval_type_count[eval_type as usize] += 1;
        hand_count += 1;
        if !increment_cardset(&mut card_set) {
            break;
        }
    }

    assert_eq!(
        EXPECTED_HAND_COUNT[7],
        hand_count,
        "Incorrect amount of hands for CarSet with 7 cards"
    );

    let mut success = true;
    let mut err_string = format!("        {:15} {:8}    {:8}\n", "Hand type", "Expected", "Got");
    for i in 0..eval_type_count.len() {
        let (type_str, count) = EXPECTED_EVAL_COUNTS[i];
        if count == eval_type_count[i] {
            err_string.push_str(&format!("        {:15} {:8} == {:8}\n", type_str, count, eval_type_count[i]));
        } else {
            err_string.push_str(&format!("Wrong > {:15} {:8} != {:8}\n", type_str, count, eval_type_count[i]));
            success = false;
        }
    }
    assert!(success, "{}", err_string);
}

#[test]
fn test_test_count_different_isomorphic_hands() {
    const EXPECTED_COUNTS: [u32; 8] = [0, 13, 169, 1755, 16432, 134459, 962988, 6009159];

    for card_count in 1..EXPECTED_COUNTS.len() {
        let mut hand_count = 0u64;
        println!("Starting card_count={}", card_count);
        let mut card_vec = Vec::new();
        for i in 0..card_count {
            card_vec.push(i as u8);
        }
        let mut cards = CardSet::from_codes(&card_vec);
        let mut seen_canonicals = SeenIdentifiers::new(card_count);
        loop {
            let cannonical = cards.clone().as_canonical();
            seen_canonicals.insert(cannonical.identifier());
            hand_count += 1;
            if !cards.increment() {
                break;
            }
        }
        assert_eq!(
            EXPECTED_HAND_COUNT[card_count],
            hand_count,
            "Expected {} different generated card_sets with {} cards, got {}",
            EXPECTED_HAND_COUNT[card_count],
            card_count,
            hand_count
        );
        assert_eq!(
            EXPECTED_COUNTS[card_count],
            seen_canonicals.len() as u32,
            "Expected {} different isomorphic card_sets with {} cards, got {}",
            EXPECTED_COUNTS[card_count],
            card_count,
            seen_canonicals.len()
        );
    }
}

#[test]
fn test_test_canonical_eval() {
    const EXPECTED_COUNTS: [(&str, u32); 9] = [
        ("High card", 23294460),
        ("One pair", 58627800),
        ("Two pair", 31433400),
        ("Three of a kind", 6461620),
        ("Straight", 6180020),
        ("Flush", 4047644),
        ("Full house", 3473184),
        ("Four of a kind", 224848),
        ("St/Ro flush", 41584),
    ];

    let mut input = CardSet::from_codes(&[0, 1, 2, 3, 4, 5, 6]);
    let mut eval_type_count = vec![0u32; 9];
    let mut hand_count = 0u64;
    loop {
        let output = input.clone().as_canonical();
        let eval = output.evaluate();
        eval_type_count[(eval >> 20) as usize] += 1;
        hand_count += 1;
        if !input.increment() {
            break;
        }
    }

    assert_eq!(
        EXPECTED_HAND_COUNT[7],
        hand_count,
        "Expected {} different generated card_sets with {} cards, got {}",
        EXPECTED_HAND_COUNT[7],
        7,
        hand_count
    );

    for i in 0..eval_type_count.len() {
        let (s, c) = EXPECTED_COUNTS[i];
        assert_eq!(c, eval_type_count[i], "Expected {} occurences of '{}', got {}", c, s, eval_type_count[i]);
    }
}

#[test]
fn card_set_test_test_count_different_isomorphic_hands() {
    const EXPECTED_COUNTS: [u32; 8] = [0, 13, 169, 1755, 16432, 134459, 962988, 6009159];

    for card_count in 1..EXPECTED_COUNTS.len() {
        let mut hand_count = 0u64;
        let mut card_vec = Vec::new();
        for i in 0..card_count {
            card_vec.push(i as u8);
        }
        let mut cards = CardSet::from_codes(&card_vec);
        let mut seen_canonicals = SeenIdentifiers::new(card_count);
        loop {
            let cannonical = cards.clone().as_canonical();
            seen_canonicals.insert(cannonical.identifier());
            hand_count += 1;
            if !cards.increment() {
                break;
            }
        }
        assert_eq!(
            EXPECTED_HAND_COUNT[card_count],
            hand_count,
            "Expected {} different generated card_sets with {} cards, got {}",
            EXPECTED_HAND_COUNT[card_count],
            card_count,
            hand_count
        );
        assert_eq!(
            EXPECTED_COUNTS[card_count],
            seen_canonicals.len() as u32,
            "Expected {} different isomorphic card_sets with {} cards, got {}",
            EXPECTED_COUNTS[card_count],
            card_count,
            seen_canonicals.len()
        );
    }
}

#[test]
fn card_set_test_test_canonical_eval() {
    const EXPECTED_COUNTS: [(&str, u32); 9] = [
        ("St/Ro flush", 41584),
        ("Four of a kind", 224848),
        ("Full house", 3473184),
        ("Flush", 4047644),
        ("Straight", 6180020),
        ("Three of a kind", 6461620),
        ("Two pair", 31433400),
        ("One pair", 58627800),
        ("High card", 23294460),
    ];

    let mut input = CardSet::from_codes(&[0, 1, 2, 3, 4, 5, 6]);
    let mut eval_type_count = vec![0u32; 9];
    let mut hand_count = 0u64;
    loop {
        let output = input.clone().as_canonical();
        let eval = output.evaluate();
        let eval_type_count_index = eval_type_count.len() - 1 - ((eval >> 20) as usize);
        eval_type_count[eval_type_count_index] += 1;
        hand_count += 1;
        if !input.increment() {
            break;
        }
    }

    assert_eq!(
        EXPECTED_HAND_COUNT[7],
        hand_count,
        "Expected {} different generated card_sets with {} cards, got {}",
        EXPECTED_HAND_COUNT[7],
        7,
        hand_count
    );

    let mut success = true;
    for i in 0..eval_type_count.len() {
        let (_s, c) = EXPECTED_COUNTS[i];
        if c != eval_type_count[i] {
            success = false;
            break;
        }
    }

    if !success {
        let mut err_string = format!("\n \t{:15} {:8}    {:8}\n", "Hand type", "Expected", "Got");
        for i in 0..eval_type_count.len() {
            let (s, c) = EXPECTED_COUNTS[i];
            if c == eval_type_count[i] {
                err_string.push_str(&format!(" \t{:15}: {:8} == {:8}\n", s, c, eval_type_count[i]));
            } else {
                err_string.push_str(&format!(">\t{:15}: {:8} != {:8}\n", s, c, eval_type_count[i]));
            }
        }
        panic!("{}", err_string);
    }
}
