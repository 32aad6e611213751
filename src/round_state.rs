use vstd::prelude::*;
use rand::seq::SliceRandom;
use crate::card::Card;
use crate::card_set::CardSet;
use crate::canonical::all_real;
use crate::evaluate::hand_value;
use crate::canonical::canonical;
use vstd::relations::{sorted_by, total_ordering};

verus! {

broadcast use vstd::seq_lib::group_to_multiset_ensures;

/// Chip amounts count hundredths of a big blind.
pub const BIG_BLIND: u64 = 100;

/// The small blind: half a big blind.
pub const SMALL_BLIND: u64 = 50;

/// Largest table the fold mask can describe.
pub const MAX_PLAYERS: usize = 16;

/// The streets of a hand, in the order they are played.
#[derive(Clone, Copy, Debug, PartialEq, Eq, Structural)]
pub enum RoundStage {
    PreFlop,
    Flop,
    Turn,
    River,
    Finished,
}

impl RoundStage {
    /// Position of the street, from 0 (pre-flop) to 4 (finished).
    pub open spec fn index(self) -> int {
        match self {
            RoundStage::PreFlop => 0,
            RoundStage::Flop => 1,
            RoundStage::Turn => 2,
            RoundStage::River => 3,
            RoundStage::Finished => 4,
        }
    }

    /// Number of community cards shown on this street.
    pub open spec fn revealed(self) -> int {
        match self {
            RoundStage::PreFlop => 0,
            RoundStage::Flop => 3,
            RoundStage::Turn => 4,
            _ => 5,
        }
    }

    /// The street that follows.
    pub fn next(&self) -> (r: RoundStage)
        requires
            *self != RoundStage::Finished,
        ensures
            r.index() == self.index() + 1,
    {
        match self {
            RoundStage::PreFlop => RoundStage::Flop,
            RoundStage::Flop => RoundStage::Turn,
            RoundStage::Turn => RoundStage::River,
            _ => RoundStage::Finished,
        }
    }
}

/// Sum of the amounts.
pub open spec fn total(s: Seq<u64>) -> int
    decreases s.len(),
{
    if s.len() == 0 {
        0
    } else {
        total(s.drop_last()) + s.last()
    }
}

/// Changing one amount changes the sum by the difference.
pub proof fn lemma_total_update(s: Seq<u64>, i: int, v: u64)
    requires
        0 <= i < s.len(),
    ensures
        total(s.update(i, v)) == total(s) - s[i] + v,
    decreases s.len(),
{
    if i < s.len() - 1 {
        assert(s.update(i, v).drop_last() =~= s.drop_last().update(i, v));
        lemma_total_update(s.drop_last(), i, v);
    } else {
        assert(s.update(i, v).drop_last() =~= s.drop_last());
    }
}

/// No amount exceeds the sum.
pub proof fn lemma_total_bounds(s: Seq<u64>, i: int)
    requires
        0 <= i < s.len(),
    ensures
        s[i] <= total(s),
        0 <= total(s),
    decreases s.len(),
{
    lemma_total_nonneg(s.drop_last());
    if i < s.len() - 1 {
        lemma_total_bounds(s.drop_last(), i);
    }
}

/// A sum of amounts that are all zero is zero.
proof fn lemma_total_zero(s: Seq<u64>)
    requires
        forall|i: int| 0 <= i < s.len() ==> #[trigger] s[i] == 0,
    ensures
        total(s) == 0,
    decreases s.len(),
{
    if s.len() > 0 {
        lemma_total_zero(s.drop_last());
    }
}

/// Once every bet is settled, the chips behind the players add up to all the
/// chips of the table, which no action changes and which started as the
/// stacks. Showdown settles every bet when the largest bet belongs to a hand
/// that is shown down, for instance when the first seat is still in.
pub proof fn lemma_settled_chips(r: &RoundState)
    requires
        r.wf(),
        all_settled(r.bet_chips@),
    ensures
        total(r.free_chips@) == r.chips(),
{
    lemma_total_zero(r.bet_chips@);
}

/// A sum of amounts is never negative.
pub proof fn lemma_total_nonneg(s: Seq<u64>)
    ensures
        0 <= total(s),
    decreases s.len(),
{
    if s.len() > 0 {
        lemma_total_nonneg(s.drop_last());
    }
}

/// Player `i` has folded.
pub open spec fn has_folded(folded: u16, i: int) -> bool {
    folded & (1u16 << (i as u16)) != 0
}

/// Player `i` still has a decision to make: not folded and chips behind.
pub open spec fn can_act(folded: u16, free: Seq<u64>, i: int) -> bool {
    !has_folded(folded, i) && free[i] > 0
}

/// The seat to the left of seat `i` at a table of `n`.
pub open spec fn next_seat(n: int, i: int) -> int {
    if i + 1 >= n {
        0
    } else {
        i + 1
    }
}

/// (street, turn, last raiser) once the turn has moved on from `turn`: to the
/// next seat that can act; reaching the last raiser again closes the street,
/// and the next one opens at the seat left of the button. Closing the river
/// finishes the hand. `fuel` bounds the steps; `5 * (n + 1)` always suffices.
pub open spec fn pass_turn(
    n: int,
    button: int,
    folded: u16,
    free: Seq<u64>,
    stage: int,
    turn: int,
    last: int,
    fuel: nat,
) -> (int, int, int)
    decreases fuel,
{
    if fuel == 0 {
        (stage, turn, last)
    } else {
        let t = next_seat(n, turn);
        if t == last {
            if stage + 1 >= 4 {
                (4, t, last)
            } else {
                let opener = next_seat(n, button);
                if can_act(folded, free, opener) {
                    (stage + 1, opener, opener)
                } else {
                    pass_turn(n, button, folded, free, stage + 1, opener, opener, (fuel - 1) as nat)
                }
            }
        } else if can_act(folded, free, t) {
            (stage, t, last)
        } else {
            pass_turn(n, button, folded, free, stage, t, last, (fuel - 1) as nat)
        }
    }
}

/// Steps still open on the streets after `stage`, one round of the table each.
spec fn stage_budget(stage: int, n: int) -> int {
    if stage == 0 {
        3 * (n + 1)
    } else if stage == 1 {
        2 * (n + 1)
    } else if stage == 2 {
        n + 1
    } else {
        0
    }
}

/// Seats from `turn` forward to `last`, at least one.
spec fn seats_to(n: int, turn: int, last: int) -> int {
    if last > turn {
        last - turn
    } else {
        last - turn + n
    }
}

/// The larger of two amounts.
pub open spec fn max_u64(a: u64, b: u64) -> u64 {
    if a >= b {
        a
    } else {
        b
    }
}

/// The smaller of two amounts.
pub open spec fn min_u64(a: u64, b: u64) -> u64 {
    if a <= b {
        a
    } else {
        b
    }
}

/// The largest amount, 0 for none.
pub open spec fn highest(s: Seq<u64>) -> u64
    decreases s.len(),
{
    if s.len() == 0 {
        0
    } else {
        max_u64(highest(s.drop_last()), s.last())
    }
}

proof fn lemma_highest(s: Seq<u64>, i: int)
    requires
        0 <= i < s.len(),
    ensures
        s[i] <= highest(s),
    decreases s.len(),
{
    if i < s.len() - 1 {
        lemma_highest(s.drop_last(), i);
    }
}

/// What a player must put in to call: the gap to the largest bet, as far as
/// their free chips reach.
pub open spec fn check_amount(bet: Seq<u64>, free: Seq<u64>, i: int) -> u64 {
    min_u64((highest(bet) - bet[i]) as u64, free[i])
}

/// The raise that a bet of `bet_size` makes: nothing when it does not exceed
/// the call; otherwise the excess over the call, at least `min_raise`, as far
/// as the chips left after calling reach.
pub open spec fn raise_amount(bet: Seq<u64>, free: Seq<u64>, i: int, min_raise: u64, bet_size: int) -> u64 {
    let check = check_amount(bet, free, i);
    if bet_size <= check {
        0
    } else {
        min_u64(max_u64((bet_size - check) as u64, min_raise), (free[i] - check) as u64)
    }
}

/// One betting round of a hand.
#[derive(Clone, Debug)]
pub struct RoundState {
    pub community_cards: CardSet,
    pub button: u8,
    /// Bit `i` is set once player `i` has folded.
    pub folded: u16,
    pub stage: RoundStage,
    pub min_raise: u64,
    pub last_raise_by: u8,
    pub turn: u8,
    pub player_count: usize,
    pub player_cards: Vec<CardSet>,
    pub bet_chips: Vec<u64>,
    pub start_chips: Vec<u64>,
    pub free_chips: Vec<u64>,
}

impl RoundState {
    /// Chips on the table and behind, over all players.
    pub open spec fn chips(&self) -> int {
        total(self.bet_chips@) + total(self.free_chips@)
    }

    /// Everything but the chip lists agrees with `o`.
    pub open spec fn same_table(&self, o: &RoundState) -> bool {
        &&& self.community_cards == o.community_cards
        &&& self.button == o.button
        &&& self.folded == o.folded
        &&& self.stage == o.stage
        &&& self.min_raise == o.min_raise
        &&& self.last_raise_by == o.last_raise_by
        &&& self.turn == o.turn
        &&& self.player_count == o.player_count
        &&& self.player_cards == o.player_cards
        &&& self.start_chips == o.start_chips
    }

    /// Everything but the chip lists and the betting position agrees with `o`.
    pub open spec fn same_table_except_turn(&self, o: &RoundState) -> bool {
        &&& self.community_cards == o.community_cards
        &&& self.button == o.button
        &&& self.player_count == o.player_count
        &&& self.player_cards == o.player_cards
        &&& self.start_chips == o.start_chips
    }

    /// The shape every state keeps: 2 to 16 players, one entry per player in
    /// each list, seats in range, five community and two hole cards apiece,
    /// all real cards, and a chip total that fits in 64 bits.
    pub open spec fn wf(&self) -> bool {
        &&& 2 <= self.player_count <= MAX_PLAYERS
        &&& self.player_cards@.len() == self.player_count
        &&& self.bet_chips@.len() == self.player_count
        &&& self.free_chips@.len() == self.player_count
        &&& self.turn < self.player_count
        &&& self.button < self.player_count
        &&& self.last_raise_by < self.player_count
        &&& self.community_cards.wf()
        &&& self.community_cards.size == 5
        &&& all_real(self.community_cards@)
        &&& forall|i: int| 0 <= i < self.player_count ==> {
            &&& (#[trigger] self.player_cards@[i]).wf()
            &&& self.player_cards@[i].size == 2
            &&& all_real(self.player_cards@[i]@)
        }
        &&& self.chips() <= u64::MAX
    }

    pub fn is_finished(&self) -> (r: bool)
        ensures
            r == (self.stage == RoundStage::Finished),
    {
        self.stage == RoundStage::Finished
    }

    /// The community cards shown so far: none pre-flop, three on the flop,
    /// four on the turn, five from the river on.
    pub fn revealed_community_cards(&self) -> (r: &[Card])
        ensures
            r@ == self.community_cards.cards@.subrange(0, self.stage.revealed()),
    {
        let count: usize = match self.stage {
            RoundStage::PreFlop => 0,
            RoundStage::Flop => 3,
            RoundStage::Turn => 4,
            _ => 5,
        };
        vstd::slice::slice_subrange(self.community_cards.cards.as_slice(), 0, count)
    }
}

/// Seats of the small and the big blind and of the first to act pre-flop,
/// with the button on seat 0: heads-up the button posts the small blind and
/// acts first; otherwise the blinds sit left of the button and the seat
/// after them opens.
pub open spec fn blind_seats(n: int) -> (int, int, int) {
    if n == 2 {
        (0int, 1int, 0int)
    } else {
        (1int, 2int, 3int % n)
    }
}

/// Relies on rand's `SliceRandom::shuffle` with the thread-local generator,
/// which only swaps entries: the deck keeps its cards, in a random order.
#[verifier::external_body]
fn shuffle_deck(deck: &mut Vec<u8>)
    ensures
        final(deck)@.to_multiset() == old(deck)@.to_multiset(),
{
    deck.shuffle(&mut rand::thread_rng());
}

impl Default for RoundState {
    fn default() -> (r: RoundState)
        ensures
            r.player_count == 0,
            r.community_cards@.len() == 0,
            r.community_cards.wf(),
            r.player_cards@.len() == 0,
            r.bet_chips@.len() == 0,
            r.start_chips@.len() == 0,
            r.free_chips@.len() == 0,
            r.stage == RoundStage::PreFlop,
            r.turn == 0,
            r.button == 0,
            r.min_raise == BIG_BLIND,
            r.folded == 0,
            r.last_raise_by == 0,
    {
        RoundState {
            player_count: 0,
            community_cards: CardSet::new(&[]),
            player_cards: Vec::new(),
            bet_chips: Vec::new(),
            start_chips: Vec::new(),
            free_chips: Vec::new(),
            stage: RoundStage::PreFlop,
            turn: 0,
            button: 0,
            min_raise: BIG_BLIND,
            folded: 0,
            last_raise_by: 0,
        }
    }
}

impl RoundState {
    /// Card `x` of the deal: the five community cards, then each player's two
    /// hole cards in seat order.
    pub open spec fn dealt(&self, x: int) -> Card {
        if x < 5 {
            self.community_cards@[x]
        } else {
            self.player_cards@[(x - 5) / 2]@[(x - 5) % 2]
        }
    }

    /// Deals from `deck` (five community cards, then two for each player in
    /// seat order), puts the button on seat 0 and posts the blinds, each
    /// clipped to the payer's stack.
    pub fn new_with_deck(deck: &[u8], free_chips: Vec<u64>) -> (r: RoundState)
        requires
            2 <= free_chips@.len() <= MAX_PLAYERS,
            5 + 2 * free_chips@.len() <= deck@.len(),
            forall|i: int| 0 <= i < deck@.len() ==> #[trigger] deck@[i] < 52,
            total(free_chips@) <= u64::MAX,
        ensures
            r.wf(),
            r.player_count == free_chips@.len(),
            r.chips() == total(free_chips@),
            r.stage == RoundStage::PreFlop,
            r.button == 0,
            r.folded == 0,
            r.min_raise == BIG_BLIND,
            r.last_raise_by == 0,
            r.turn == blind_seats(free_chips@.len() as int).2,
            r.start_chips@ == free_chips@,
            forall|i: int| 0 <= i < 5 ==> (#[trigger] r.community_cards@[i]).0 == deck@[i],
            forall|p: int, k: int|
                0 <= p < free_chips@.len() && 0 <= k < 2 ==> (#[trigger] r.player_cards@[p]@[k]).0
                    == deck@[5 + 2 * p + k],
            ({
                let (sb, bb, first) = blind_seats(free_chips@.len() as int);
                let small = min_u64(SMALL_BLIND, free_chips@[sb]);
                let big = min_u64(BIG_BLIND, free_chips@[bb]);
                &&& r.bet_chips@ == Seq::new(
                    free_chips@.len(),
                    |i: int| if i == sb { small } else if i == bb { big } else { 0u64 },
                )
                &&& r.free_chips@ == free_chips@.update(sb, (free_chips@[sb] - small) as u64).update(
                    bb,
                    (free_chips@[bb] - big) as u64,
                )
            }),
    {
        let n = free_chips.len();
        let community_cards = CardSet::from_codes(vstd::slice::slice_subrange(deck, 0, 5));
        let mut player_cards: Vec<CardSet> = Vec::new();
        let mut bet_chips: Vec<u64> = Vec::new();
        let mut p: usize = 0;
        while p < n
            invariant
                p <= n <= MAX_PLAYERS,
                5 + 2 * n <= deck@.len(),
                forall|i: int| 0 <= i < deck@.len() ==> #[trigger] deck@[i] < 52,
                player_cards@.len() == p,
                bet_chips@.len() == p,
                total(bet_chips@) == 0,
                forall|i: int| 0 <= i < p ==> (#[trigger] bet_chips@[i]) == 0,
                forall|i: int| 0 <= i < p ==> {
                    &&& (#[trigger] player_cards@[i]).wf()
                    &&& player_cards@[i].size == 2
                    &&& all_real(player_cards@[i]@)
                },
                forall|q: int, k: int|
                    0 <= q < p && 0 <= k < 2 ==> (#[trigger] player_cards@[q]@[k]).0 == deck@[5 + 2 * q + k],
            decreases n - p,
        {
            let hole = CardSet::from_codes(vstd::slice::slice_subrange(deck, 5 + 2 * p, 7 + 2 * p));
            player_cards.push(hole);
            assert(bet_chips@.push(0).drop_last() =~= bet_chips@);
            bet_chips.push(0);
            p += 1;
        }
        let (small_seat, big_seat, first): (usize, usize, usize) = if n == 2 {
            (0, 1, 0)
        } else {
            (1, 2, 3 % n)
        };
        let start_chips = free_chips.clone();
        let mut rs = RoundState {
            player_count: n,
            community_cards,
            player_cards,
            bet_chips,
            start_chips,
            free_chips,
            stage: RoundStage::PreFlop,
            turn: first as u8,
            button: 0,
            min_raise: BIG_BLIND,
            folded: 0,
            last_raise_by: 0,
        };
        let ghost free0 = rs.free_chips@;
        let small = if SMALL_BLIND <= rs.free_chips[small_seat] {
            SMALL_BLIND
        } else {
            rs.free_chips[small_seat]
        };
        let big = if BIG_BLIND <= rs.free_chips[big_seat] {
            BIG_BLIND
        } else {
            rs.free_chips[big_seat]
        };
        proof {
            lemma_total_update(rs.bet_chips@, small_seat as int, small);
            lemma_total_update(rs.free_chips@, small_seat as int, (free0[small_seat as int] - small) as u64);
        }
        rs.bet_chips[small_seat] = small;
        rs.free_chips[small_seat] = rs.free_chips[small_seat] - small;
        proof {
            lemma_total_update(rs.bet_chips@, big_seat as int, big);
            lemma_total_update(rs.free_chips@, big_seat as int, (free0[big_seat as int] - big) as u64);
        }
        rs.bet_chips[big_seat] = big;
        rs.free_chips[big_seat] = rs.free_chips[big_seat] - big;
        assert(rs.bet_chips@ =~= Seq::new(
            n as nat,
            |i: int| if i == small_seat { small } else if i == big_seat { big } else { 0u64 },
        ));
        assert(rs.free_chips@ =~= free0.update(small_seat as int, (free0[small_seat as int] - small) as u64).update(
            big_seat as int,
            (free0[big_seat as int] - big) as u64,
        ));
        rs
    }

    /// A fresh hand from a shuffled deck; see [`RoundState::new_with_deck`].
    pub fn new(free_chips: Vec<u64>) -> (r: RoundState)
        requires
            2 <= free_chips@.len() <= MAX_PLAYERS,
            total(free_chips@) <= u64::MAX,
        ensures
            r.wf(),
            r.player_count == free_chips@.len(),
            r.chips() == total(free_chips@),
            r.stage == RoundStage::PreFlop,
            r.button == 0,
            r.folded == 0,
            r.min_raise == BIG_BLIND,
            r.last_raise_by == 0,
            r.turn == blind_seats(free_chips@.len() as int).2,
            r.start_chips@ == free_chips@,
            ({
                let (sb, bb, first) = blind_seats(free_chips@.len() as int);
                let small = min_u64(SMALL_BLIND, free_chips@[sb]);
                let big = min_u64(BIG_BLIND, free_chips@[bb]);
                &&& r.bet_chips@ == Seq::new(
                    free_chips@.len(),
                    |i: int| if i == sb { small } else if i == bb { big } else { 0u64 },
                )
                &&& r.free_chips@ == free_chips@.update(sb, (free_chips@[sb] - small) as u64).update(
                    bb,
                    (free_chips@[bb] - big) as u64,
                )
            }),
            forall|x: int, y: int|
                0 <= x < y < 5 + 2 * free_chips@.len() ==> #[trigger] r.dealt(x) != #[trigger] r.dealt(y),
    {
        let mut deck: Vec<u8> = Vec::new();
        let mut c: u8 = 0;
        while c < 52
            invariant
                c <= 52,
                deck@.len() == c,
                forall|i: int| 0 <= i < c ==> #[trigger] deck@[i] == i,
            decreases 52 - c,
        {
            deck.push(c);
            c += 1;
        }
        let ghost ordered = deck@;
        shuffle_deck(&mut deck);
        proof {
            assert forall|i: int| 0 <= i < deck@.len() implies #[trigger] deck@[i] < 52 by {
                assert(deck@.contains(deck@[i]));
                assert(deck@.to_multiset().count(deck@[i]) > 0);
                assert(ordered.contains(deck@[i]));
            }
            assert(deck@.len() == 52) by {
                assert(deck@.to_multiset().len() == ordered.to_multiset().len());
            }
            assert(ordered.no_duplicates());
            ordered.lemma_multiset_has_no_duplicates();
            assert forall|x: u8| deck@.to_multiset().contains(x) implies deck@.to_multiset().count(x) == 1 by {
                assert(ordered.to_multiset().contains(x));
            }
            deck@.lemma_multiset_has_no_duplicates_conv();
        }
        let n = free_chips.len();
        let r = RoundState::new_with_deck(deck.as_slice(), free_chips);
        proof {
            assert forall|x: int| 0 <= x < 5 + 2 * n implies (#[trigger] r.dealt(x)).0 == deck@[x] by {
                if x >= 5 {
                    let p = (x - 5) / 2;
                    let k = (x - 5) % 2;
                    assert(5 + 2 * p + k == x);
                    assert(r.player_cards@[p]@[k].0 == deck@[5 + 2 * p + k]);
                }
            }
            assert forall|x: int, y: int| 0 <= x < y < 5 + 2 * n implies #[trigger] r.dealt(x) != #[trigger] r.dealt(y) by {
                assert(r.dealt(x).0 == deck@[x]);
                assert(r.dealt(y).0 == deck@[y]);
                assert(deck@[x] != deck@[y]);
            }
        }
        r
    }
}

/// Whether a player's hand is ranked at showdown. The fold mask is tested by
/// comparing the masked bit with 1, so only the first seat's fold withdraws
/// a hand; every other hand is shown down and contests the pots its bets
/// reached.
pub open spec fn shows_down(folded: u16, i: int) -> bool {
    !(i == 0 && folded & 1u16 == 1u16)
}

/// Showdown entry `a` settles before entry `b`: a stronger hand first, then
/// the smaller bet, then the lower seat.
pub open spec fn settles_before(a: (usize, u64, i32), b: (usize, u64, i32)) -> bool {
    a.2 > b.2 || a.2 == b.2 && (a.1 < b.1 || a.1 == b.1 && a.0 <= b.0)
}

fn settles_before_exec(a: (usize, u64, i32), b: (usize, u64, i32)) -> (r: bool)
    ensures
        r == settles_before(a, b),
{
    a.2 > b.2 || a.2 == b.2 && (a.1 < b.1 || a.1 == b.1 && a.0 <= b.0)
}

/// Orders the showdown entries with [`settles_before`], keeping the entries.
fn order_showdown(order: &mut Vec<(usize, u64, i32)>)
    ensures
        final(order)@.len() == old(order)@.len(),
        final(order)@.to_multiset() == old(order)@.to_multiset(),
        forall|a: int, b: int|
            0 <= a < b < final(order)@.len() ==> settles_before(final(order)@[a], final(order)@[b]),
{
    let ghost start = order@;
    let n = order.len();
    let mut i: usize = 1;
    while i < n
        invariant
            n == order@.len() == start.len(),
            order@.to_multiset() == start.to_multiset(),
            forall|a: int, b: int| 0 <= a < b < i && b < n ==> settles_before(order@[a], order@[b]),
        decreases n - i,
    {
        let mut j: usize = i;
        while j > 0 && !settles_before_exec(order[j - 1], order[j])
            invariant
                n == order@.len() == start.len(),
                0 <= j <= i < n,
                order@.to_multiset() == start.to_multiset(),
                forall|a: int, b: int| 0 <= a < b < j ==> settles_before(order@[a], order@[b]),
                forall|a: int, b: int| j <= a < b <= i ==> settles_before(order@[a], order@[b]),
                forall|a: int, b: int| 0 <= a < j && j < b <= i ==> settles_before(order@[a], order@[b]),
            decreases j,
        {
            let ghost prev = order@;
            let x = order[j];
            let y = order[j - 1];
            order[j - 1] = x;
            order[j] = y;
            proof {
                crate::canonical::lemma_swap_multiset(prev, j - 1, j as int);
                assert(order@ =~= prev.update(j - 1, prev[j as int]).update(j as int, prev[j - 1]));
            }
            j -= 1;
        }
        proof {
            assert forall|a: int, b: int| 0 <= a < b <= i implies settles_before(order@[a], order@[b]) by {
                if a < j && b == j && a < j - 1 {
                    assert(settles_before(order@[a], order@[j - 1]));
                }
            }
        }
        i += 1;
    }
}

/// The order in which showdown entries settle, as a relation.
pub open spec fn settle_order() -> spec_fn((usize, u64, i32), (usize, u64, i32)) -> bool {
    |a: (usize, u64, i32), b: (usize, u64, i32)| settles_before(a, b)
}

/// The showdown entries of the seats below `i`, in seat order: for each seat
/// whose hand [`shows_down`], its seat, its bet and the value of its best
/// hand, the canonical set of the community cards and its hole cards.
pub open spec fn showdown_entries(
    folded: u16,
    community: Seq<Card>,
    hands: Seq<CardSet>,
    bets: Seq<u64>,
    i: int,
) -> Seq<(usize, u64, i32)>
    decreases i,
{
    if i <= 0 {
        Seq::empty()
    } else {
        let e = showdown_entries(folded, community, hands, bets, i - 1);
        if shows_down(folded, i - 1) {
            e.push(((i - 1) as usize, bets[i - 1], hand_value(canonical(community + hands[i - 1]@)) as i32))
        } else {
            e
        }
    }
}

/// End of the run of entries from `j` on whose hand value equals entry `k`'s.
pub open spec fn tie_end(order: Seq<(usize, u64, i32)>, k: int, j: int) -> int
    decreases order.len() - j,
{
    if 0 <= j < order.len() && order[j].2 == order[k].2 {
        tie_end(order, k, j + 1)
    } else {
        j
    }
}

/// What every player puts in a pot whose level is `c`: their bet, up to `c`.
pub open spec fn swept(bets: Seq<u64>, c: u64) -> Seq<u64> {
    bets.map_values(|b: u64| min_u64(b, c))
}

/// The bets once a pot of level `c` has been taken from them.
pub open spec fn left_after(bets: Seq<u64>, c: u64) -> Seq<u64> {
    bets.map_values(|b: u64| (b - min_u64(b, c)) as u64)
}

/// No bet is left on the table.
pub open spec fn all_settled(bets: Seq<u64>) -> bool {
    forall|i: int| 0 <= i < bets.len() ==> #[trigger] bets[i] == 0
}

/// The free chips once the first `w` winners from entry `k` on have each
/// been paid `share`, and the first `rest` of them one more.
pub open spec fn pay(free: Seq<u64>, order: Seq<(usize, u64, i32)>, k: int, share: u64, rest: u64, w: int) -> Seq<u64>
    decreases w,
{
    if w <= 0 {
        free
    } else {
        let f = pay(free, order, k, share, rest, w - 1);
        let seat = order[k + w - 1].0 as int;
        f.update(seat, (f[seat] + share + if w - 1 < rest { 1int } else { 0int }) as u64)
    }
}

/// (bets, free chips) once the entries from `k` on have settled. An entry
/// whose player has a bet `c` left makes a pot of everyone's bet up to `c`;
/// the entry and the following ones with the same hand value split it evenly,
/// the first of them taking one more each while the remainder lasts.
/// Settling stops once no bet is left.
pub open spec fn settle(order: Seq<(usize, u64, i32)>, k: int, bets: Seq<u64>, free: Seq<u64>) -> (Seq<u64>, Seq<u64>)
    decreases order.len() - k,
{
    if k < 0 || k >= order.len() {
        (bets, free)
    } else {
        let c = bets[order[k].0 as int];
        if c == 0 {
            settle(order, k + 1, bets, free)
        } else {
            let winners = tie_end(order, k, k + 1) - k;
            let pot = total(swept(bets, c));
            let bets2 = left_after(bets, c);
            let free2 = pay(free, order, k, (pot / winners) as u64, (pot % winners) as u64, winners);
            if all_settled(bets2) {
                (bets2, free2)
            } else {
                settle(order, k + 1, bets2, free2)
            }
        }
    }
}

/// (bets, free chips) after showdown: the entries of the hands shown down,
/// ordered by [`settles_before`], settled by [`settle`].
pub open spec fn showdown(
    folded: u16,
    community: Seq<Card>,
    hands: Seq<CardSet>,
    bets: Seq<u64>,
    free: Seq<u64>,
) -> (Seq<u64>, Seq<u64>) {
    settle(
        showdown_entries(folded, community, hands, bets, bets.len() as int).sort_by(settle_order()),
        0,
        bets,
        free,
    )
}

/// A sum of amounts that are zero but at three places is the sum of those three.
proof fn lemma_total_three(s: Seq<u64>, x: int, y: int, z: int)
    requires
        0 <= x < s.len(),
        0 <= y < s.len(),
        0 <= z < s.len(),
        x != y && y != z && x != z,
        forall|i: int| 0 <= i < s.len() && i != x && i != y && i != z ==> #[trigger] s[i] == 0,
    ensures
        total(s) == s[x] + s[y] + s[z],
    decreases s.len(),
{
    let l = s.len() - 1;
    let p = s.drop_last();
    if l == x {
        lemma_total_two(p, y, z);
    } else if l == y {
        lemma_total_two(p, x, z);
    } else if l == z {
        lemma_total_two(p, x, y);
    } else {
        lemma_total_three(p, x, y, z);
    }
}

proof fn lemma_total_two(s: Seq<u64>, x: int, y: int)
    requires
        0 <= x < s.len(),
        0 <= y < s.len(),
        x != y,
        forall|i: int| 0 <= i < s.len() && i != x && i != y ==> #[trigger] s[i] == 0,
    ensures
        total(s) == s[x] + s[y],
    decreases s.len(),
{
    let l = s.len() - 1;
    let p = s.drop_last();
    if l == x {
        lemma_total_one(p, y);
    } else if l == y {
        lemma_total_one(p, x);
    } else {
        lemma_total_two(p, x, y);
    }
}

proof fn lemma_total_one(s: Seq<u64>, x: int)
    requires
        0 <= x < s.len(),
        forall|i: int| 0 <= i < s.len() && i != x ==> #[trigger] s[i] == 0,
    ensures
        total(s) == s[x],
    decreases s.len(),
{
    let p = s.drop_last();
    if s.len() - 1 == x {
        lemma_total_zero(p);
    } else {
        lemma_total_one(p, x);
    }
}

proof fn lemma_tie_end(order: Seq<(usize, u64, i32)>, j: int, w: int)
    requires
        1 <= j <= w <= order.len(),
        forall|x: int| 0 <= x < w ==> #[trigger] order[x].2 == order[0].2,
        w < order.len() ==> order[w].2 != order[0].2,
    ensures
        tie_end(order, 0, j) == w,
    decreases w - j,
{
    if j < w {
        lemma_tie_end(order, j + 1, w);
    }
}

/// Paying the first `w` winners from entry `k`, each at a seat of its own,
/// gives each its share and the first `rest` of them one more, and no one else
/// anything.
proof fn lemma_pay(free: Seq<u64>, order: Seq<(usize, u64, i32)>, k: int, share: u64, rest: u64, w: int)
    requires
        0 <= k,
        0 <= w,
        k + w <= order.len(),
        forall|x: int| k <= x < k + w ==> (#[trigger] order[x]).0 < free.len(),
        forall|x: int, y: int| k <= x < y < k + w ==> (#[trigger] order[x]).0 != (#[trigger] order[y]).0,
        forall|x: int| k <= x < k + w ==> free[(#[trigger] order[x]).0 as int] + share + 1 <= u64::MAX,
    ensures
        pay(free, order, k, share, rest, w).len() == free.len(),
        forall|x: int| k <= x < k + w ==> pay(free, order, k, share, rest, w)[(#[trigger] order[x]).0 as int]
            == free[order[x].0 as int] + share + if x - k < rest { 1int } else { 0int },
        forall|j: int| 0 <= j < free.len() && (forall|x: int| k <= x < k + w ==> (#[trigger] order[x]).0 != j)
            ==> #[trigger] pay(free, order, k, share, rest, w)[j] == free[j],
    decreases w,
{
    if w > 0 {
        lemma_pay(free, order, k, share, rest, w - 1);
        let f = pay(free, order, k, share, rest, w - 1);
        let last = order[k + w - 1].0 as int;
        assert(f[last] == free[last]) by {
            assert forall|x: int| k <= x < k + w - 1 implies (#[trigger] order[x]).0 != last by {
                assert(order[x].0 != order[k + w - 1].0);
            }
        }
    }
}

/// Tied best hands with the largest bet split everything: when the first `w`
/// entries share the best hand value, sit at seats of their own and bet as much
/// as anyone, each of them gains the table's bets divided by `w` (the first of
/// them one more while the remainder lasts), nobody else gains, and every bet
/// is settled.
pub proof fn lemma_tied_split(order: Seq<(usize, u64, i32)>, bets: Seq<u64>, free: Seq<u64>, w: int)
    requires
        1 <= w <= order.len(),
        bets.len() == free.len(),
        forall|x: int| 0 <= x < w ==> #[trigger] order[x].2 == order[0].2,
        w < order.len() ==> order[w].2 != order[0].2,
        forall|x: int| 0 <= x < w ==> (#[trigger] order[x]).0 < bets.len(),
        forall|x: int, y: int| 0 <= x < y < w ==> (#[trigger] order[x]).0 != (#[trigger] order[y]).0,
        bets[order[0].0 as int] > 0,
        forall|j: int| 0 <= j < bets.len() ==> #[trigger] bets[j] <= bets[order[0].0 as int],
        total(bets) <= u64::MAX,
        forall|x: int| 0 <= x < w ==> free[(#[trigger] order[x]).0 as int] + total(bets) / w + 1 <= u64::MAX,
    ensures
        ({
            let (bets_after, free_after) = settle(order, 0, bets, free);
            &&& all_settled(bets_after)
            &&& forall|x: int| 0 <= x < w ==> free_after[(#[trigger] order[x]).0 as int]
                == free[order[x].0 as int] + total(bets) / w + if x < total(bets) % w { 1int } else { 0int }
            &&& forall|j: int| 0 <= j < free.len() && (forall|x: int| 0 <= x < w ==> (#[trigger] order[x]).0 != j)
                ==> #[trigger] free_after[j] == free[j]
        }),
{
    let c = bets[order[0].0 as int];
    lemma_tie_end(order, 1, w);
    assert(swept(bets, c) =~= bets);
    let pot = total(bets);
    lemma_total_nonneg(bets);
    assert(left_after(bets, c) =~= Seq::new(bets.len(), |j: int| 0u64));
    assert(all_settled(left_after(bets, c)));
    assert(pot / w <= u64::MAX) by {
        lemma_total_bounds(bets, order[0].0 as int);
        assert(pot / w <= pot) by (nonlinear_arith)
            requires
                pot >= 0,
                w >= 1,
        ;
        assert(free[order[0].0 as int] + pot / w + 1 <= u64::MAX);
    }
    assert(pot % w < w) by (nonlinear_arith)
        requires
            w >= 1,
    ;
    assert(0 <= pot % w <= pot) by (nonlinear_arith)
        requires
            pot >= 0,
            w >= 1,
    ;
    assert(tie_end(order, 0, 1) - 0 == w);
    assert(total(swept(bets, c)) == pot);
    lemma_pay(free, order, 0, (pot / w) as u64, (pot % w) as u64, w);
    assert(settle(order, 0, bets, free) == (left_after(bets, c), pay(free, order, 0, (pot / w) as u64, (pot % w) as u64, w)));
}

/// Side pot: three hands contest, the strongest all-in for `a`, the other two
/// in for `b > a`. The strongest takes the main pot of `3a` and nothing more;
/// the second takes the side pot of `2(b - a)`; the weakest takes nothing, and
/// every bet is settled.
pub proof fn lemma_side_pot(order: Seq<(usize, u64, i32)>, bets: Seq<u64>, free: Seq<u64>, a: u64, b: u64)
    requires
        order.len() == 3,
        order[0].2 > order[1].2 > order[2].2,
        bets.len() == free.len(),
        order[0].0 < bets.len() && order[1].0 < bets.len() && order[2].0 < bets.len(),
        order[0].0 != order[1].0 && order[1].0 != order[2].0 && order[0].0 != order[2].0,
        0 < a < b,
        bets[order[0].0 as int] == a,
        bets[order[1].0 as int] == b,
        bets[order[2].0 as int] == b,
        forall|i: int|
            0 <= i < bets.len() && i != order[0].0 && i != order[1].0 && i != order[2].0 ==> #[trigger] bets[i] == 0,
        free[order[0].0 as int] + 3 * a <= u64::MAX,
        free[order[1].0 as int] + 2 * (b - a) <= u64::MAX,
    ensures
        ({
            let (x, y, z) = (order[0].0 as int, order[1].0 as int, order[2].0 as int);
            let (bets_after, free_after) = settle(order, 0, bets, free);
            &&& all_settled(bets_after)
            &&& free_after == free.update(x, (free[x] + 3 * a) as u64).update(y, (free[y] + 2 * (b - a)) as u64)
        }),
{
    let (x, y, z) = (order[0].0 as int, order[1].0 as int, order[2].0 as int);
    assert(tie_end(order, 0, 1) == 1);
    assert(tie_end(order, 1, 2) == 2);
    let once = left_after(bets, a);
    lemma_total_three(swept(bets, a), x, y, z);
    assert(total(swept(bets, a)) == 3 * a);
    let free1 = pay(free, order, 0, (3 * a) as u64, 0, 1);
    assert(pay(free, order, 0, (3 * a) as u64, 0, 0) == free);
    assert(free1 == free.update(x, (free[x] + 3 * a) as u64));
    assert(!all_settled(once)) by {
        assert(once[y] != 0);
    }
    lemma_total_three(swept(once, (b - a) as u64), x, y, z);
    assert(total(swept(once, (b - a) as u64)) == 2 * (b - a));
    let twice = left_after(once, (b - a) as u64);
    assert(all_settled(twice));
    let free2 = pay(free1, order, 1, (2 * (b - a)) as u64, 0, 1);
    assert(pay(free1, order, 1, (2 * (b - a)) as u64, 0, 0) == free1);
    assert(free2 == free1.update(y, (free1[y] + 2 * (b - a)) as u64));
    assert(once[order[1].0 as int] == b - a);
    assert((2 * (b - a)) / 1 == 2 * (b - a));
    assert((2 * (b - a)) % 1 == 0);
    assert(settle(order, 1, once, free1) == (twice, free2));
    assert(settle(order, 0, bets, free) == settle(order, 1, once, free1));
}

impl RoundState {
    /// Showdown: every hand that [`shows_down`] is ranked, and the pots are
    /// settled from the strongest hand down, smaller bets first among equal
    /// hands. Each settlement takes as the pot, from every player, up to the
    /// settling player's remaining bet, and splits it evenly among the
    /// following entries with the same hand value; a remainder that does not
    /// divide goes one hundredth at a time to the first of them. Settling
    /// stops once no bet is left.
    pub fn finish_game(&mut self)
        requires
            old(self).wf(),
        ensures
            final(self).wf(),
            final(self).chips() == old(self).chips(),
            final(self).same_table(old(self)),
            forall|i: int|
                0 <= i < old(self).player_count ==> #[trigger] final(self).bet_chips@[i]
                    <= old(self).bet_chips@[i],
            forall|i: int|
                0 <= i < old(self).player_count ==> #[trigger] final(self).free_chips@[i]
                    >= old(self).free_chips@[i],
            forall|i: int|
                0 <= i < old(self).player_count && shows_down(old(self).folded, i)
                    ==> #[trigger] final(self).bet_chips@[i] == 0,
            (exists|t: int|
                0 <= t < old(self).player_count && shows_down(old(self).folded, t) && forall|j: int|
                    0 <= j < old(self).player_count ==> #[trigger] old(self).bet_chips@[j] <= old(self).bet_chips@[t])
                ==> all_settled(final(self).bet_chips@),
            (final(self).bet_chips@, final(self).free_chips@) == showdown(
                old(self).folded,
                old(self).community_cards@,
                old(self).player_cards@,
                old(self).bet_chips@,
                old(self).free_chips@,
            ),
    {
        let n = self.player_count;
        let ghost s0 = *self;
        // a shown-down player whose bet is the largest, when there is one
        let ghost has_top = exists|t: int|
            0 <= t < n && shows_down(s0.folded, t) && forall|j: int| 0 <= j < n ==> #[trigger] s0.bet_chips@[j] <= s0.bet_chips@[t];
        let ghost top: int = if has_top {
            choose|t: int| 0 <= t < n && shows_down(s0.folded, t) && forall|j: int| 0 <= j < n ==> #[trigger] s0.bet_chips@[j] <= s0.bet_chips@[t]
        } else {
            0
        };
        let mut order: Vec<(usize, u64, i32)> = Vec::new();
        let mut i: usize = 0;
        while i < n
            invariant
                *self == s0,
                s0.wf(),
                n == s0.player_count,
                i <= n,
                forall|k: int| 0 <= k < order@.len() ==> (#[trigger] order@[k]).0 < n,
                forall|j: int| 0 <= j < i && shows_down(s0.folded, j) ==> exists|x: int|
                    0 <= x < order@.len() && (#[trigger] order@[x]).0 == j,
                order@ == showdown_entries(s0.folded, s0.community_cards@, s0.player_cards@, s0.bet_chips@, i as int),
            decreases n - i,
        {
            let ghost before = order@;
            if !(i == 0 && self.folded & 1 == 1) {
                let mut hand = self.community_cards;
                let hole = &self.player_cards[i];
                assert(hole.cards@.subrange(0, 2) =~= hole@);
                hand.set_cards_partial(vstd::slice::slice_subrange(hole.cards.as_slice(), 0, 2), 5);
                proof {
                    assert(hand@ =~= self.community_cards@ + hole@);
                    assert forall|k: int| 0 <= k < hand@.len() implies (#[trigger] hand@[k]).0 < 52 by {
                        if k >= 5 {
                            assert(hand@[k] == hole@[k - 5]);
                        }
                    }
                }
                let ghost joined = hand@;
                hand.canonicalize();
                let value = hand.evaluate();
                assert(value == hand_value(canonical(s0.community_cards@ + s0.player_cards@[i as int]@)) as i32);
                order.push((i, self.bet_chips[i], value));
                proof {
                    assert(order@[order@.len() - 1].0 == i);
                    assert forall|j: int| 0 <= j < i && shows_down(s0.folded, j) implies exists|x: int|
                        0 <= x < order@.len() && (#[trigger] order@[x]).0 == j by {
                        let x = choose|x: int| 0 <= x < before.len() && (#[trigger] before[x]).0 == j;
                        assert(order@[x] == before[x]);
                    }
                }
            }
            proof {
                assert((i == 0 && s0.folded & 1 == 1) == !shows_down(s0.folded, i as int));
            }
            i += 1;
        }
        let ghost unsorted = order@;
        order_showdown(&mut order);
        proof {
            let leq = settle_order();
            assert(total_ordering(leq));
            assert(sorted_by(order@, leq));
            unsorted.lemma_sort_by_ensures(leq);
            vstd::seq_lib::lemma_sorted_unique(order@, unsorted.sort_by(leq), leq);
            assert(s0.bet_chips@.len() == n);
            assert forall|k: int| 0 <= k < order@.len() implies (#[trigger] order@[k]).0 < n by {
                assert(order@.contains(order@[k]));
                assert(order@.to_multiset().count(order@[k]) > 0);
                assert(unsorted.contains(order@[k]));
            }
            assert forall|j: int| 0 <= j < n && shows_down(s0.folded, j) implies exists|x: int|
                0 <= x < order@.len() && (#[trigger] order@[x]).0 == j by {
                let x = choose|x: int| 0 <= x < unsorted.len() && (#[trigger] unsorted[x]).0 == j;
                assert(unsorted.contains(unsorted[x]));
                assert(unsorted.to_multiset().count(unsorted[x]) > 0);
                assert(order@.contains(unsorted[x]));
                let y = choose|y: int| 0 <= y < order@.len() && order@[y] == unsorted[x];
                assert(order@[y].0 == j);
            }
        }
        let m = order.len();
        let mut k: usize = 0;
        while k < m
            invariant
                self.wf(),
                self.chips() == s0.chips(),
                self.same_table(&s0),
                s0.wf(),
                n == s0.player_count,
                m == order@.len(),
                forall|x: int| 0 <= x < m ==> (#[trigger] order@[x]).0 < n,
                forall|p: int| 0 <= p < n ==> #[trigger] self.bet_chips@[p] <= s0.bet_chips@[p],
                forall|p: int| 0 <= p < n ==> #[trigger] self.free_chips@[p] >= s0.free_chips@[p],
                k <= m,
                forall|x: int| 0 <= x < k ==> self.bet_chips@[(#[trigger] order@[x]).0 as int] == 0,
                forall|j: int| 0 <= j < n && shows_down(s0.folded, j) ==> exists|x: int|
                    0 <= x < order@.len() && (#[trigger] order@[x]).0 == j,
                settle(order@, 0, s0.bet_chips@, s0.free_chips@) == settle(order@, k as int, self.bet_chips@, self.free_chips@),
                has_top ==> 0 <= top < n && shows_down(s0.folded, top),
                has_top ==> forall|j: int| 0 <= j < n ==> #[trigger] self.bet_chips@[j] <= self.bet_chips@[top],
            decreases m - k,
        {
            let ghost bets_before = self.bet_chips@;
            let ghost free_before = self.free_chips@;
            let entry = order[k];
            let contribution = self.bet_chips[entry.0];
            if contribution > 0 {
                let mut winners: usize = 1;
                while k + winners < m && order[k + winners].2 == entry.2
                    invariant
                        1 <= winners,
                        k + winners <= m,
                        m == order@.len(),
                        entry == order@[k as int],
                        tie_end(order@, k as int, k + 1) == tie_end(order@, k as int, k + winners),
                        0 <= k < m,
                    decreases m - winners - k,
                {
                    winners += 1;
                }
                let ghost bets0 = total(self.bet_chips@);
                let ghost free0 = total(self.free_chips@);
                proof {
                    lemma_total_nonneg(self.free_chips@);
                }
                let mut pot: u64 = 0;
                let mut chips_left = false;
                let mut p: usize = 0;
                while p < n
                    invariant
                        self.same_table(&s0),
                        s0.wf(),
                        n == s0.player_count,
                        self.bet_chips@.len() == n,
                        self.free_chips@.len() == n,
                        p <= n,
                        total(self.bet_chips@) + pot == bets0,
                        total(self.free_chips@) == free0,
                        bets0 + free0 <= u64::MAX,
                        bets0 + free0 == s0.chips(),
                        0 <= free0,
                        forall|q: int| 0 <= q < n ==> #[trigger] self.free_chips@[q] >= s0.free_chips@[q],
                        entry.0 < n,
                        contribution == bets_before[entry.0 as int],
                        bets_before.len() == n,
                        forall|q: int| p <= q < n ==> #[trigger] self.bet_chips@[q] == bets_before[q],
                        forall|q: int| 0 <= q < n ==> #[trigger] self.bet_chips@[q] <= bets_before[q],
                        p > entry.0 ==> self.bet_chips@[entry.0 as int] == 0,
                        !chips_left ==> forall|q: int| 0 <= q < p ==> #[trigger] self.bet_chips@[q] == 0,
                        chips_left ==> exists|q: int| 0 <= q < p && #[trigger] self.bet_chips@[q] != 0,
                        forall|q: int| 0 <= q < n ==> #[trigger] self.bet_chips@[q] <= s0.bet_chips@[q],
                        forall|q: int| 0 <= q < p ==> #[trigger] self.bet_chips@[q] == left_after(bets_before, contribution)[q],
                        pot == total(swept(bets_before, contribution).subrange(0, p as int)),
                        self.free_chips@ == free_before,
                    decreases n - p,
                {
                    proof {
                        let sw = swept(bets_before, contribution);
                        assert(sw.subrange(0, p + 1).drop_last() =~= sw.subrange(0, p as int));
                    }
                    let ghost prev_bets = self.bet_chips@;
                    let ghost was_left = chips_left;
                    let bet = self.bet_chips[p];
                    let amount = if bet <= contribution { bet } else { contribution };
                    proof {
                        lemma_total_bounds(self.bet_chips@, p as int);
                        lemma_total_update(self.bet_chips@, p as int, (bet - amount) as u64);
                    }
                    self.bet_chips[p] = bet - amount;
                    pot = pot + amount;
                    if bet - amount != 0 {
                        chips_left = true;
                    }
                    proof {
                        if was_left {
                            let q = choose|q: int| 0 <= q < p && #[trigger] prev_bets[q] != 0;
                            assert(self.bet_chips@[q] == prev_bets[q]);
                        }
                        if bet - amount != 0 {
                            assert(self.bet_chips@[p as int] != 0);
                        }
                    }
                    p += 1;
                }
                let share = pot / (winners as u64);
                let rest = pot % (winners as u64);
                proof {
                    assert(self.bet_chips@ =~= left_after(bets_before, contribution));
                    assert(swept(bets_before, contribution).subrange(0, n as int) =~= swept(bets_before, contribution));
                    assert(chips_left == !all_settled(self.bet_chips@));
                    if has_top {
                        assert forall|j: int| 0 <= j < n implies #[trigger] self.bet_chips@[j] <= self.bet_chips@[top] by {
                            assert(bets_before[j] <= bets_before[top]);
                        }
                    }
                    vstd::arithmetic::div_mod::lemma_fundamental_div_mod(pot as int, winners as int);
                    vstd::arithmetic::div_mod::lemma_mod_pos_bound(pot as int, winners as int);
                    vstd::arithmetic::mul::lemma_mul_is_commutative(share as int, winners as int);
                    lemma_total_nonneg(self.bet_chips@);
                }
                let ghost free_start = total(self.free_chips@);
                let ghost bets_after = total(self.bet_chips@);
                let mut w: usize = 0;
                while w < winners
                    invariant
                        self.same_table(&s0),
                        s0.wf(),
                        n == s0.player_count,
                        self.free_chips@.len() == n,
                        self.bet_chips@.len() == n,
                        total(self.bet_chips@) == bets_after,
                        bets_after + free_start + pot == s0.chips(),
                        forall|q: int| 0 <= q < n ==> #[trigger] self.bet_chips@[q] <= s0.bet_chips@[q],
                        forall|q: int| 0 <= q < n ==> #[trigger] self.bet_chips@[q] <= bets_before[q],
                        self.bet_chips@[entry.0 as int] == 0,
                        !chips_left ==> forall|q: int| 0 <= q < n ==> #[trigger] self.bet_chips@[q] == 0,
                        entry.0 < n,
                        bets_before.len() == n,
                        k + winners <= m,
                        m == order@.len(),
                        forall|x: int| 0 <= x < m ==> (#[trigger] order@[x]).0 < n,
                        w <= winners,
                        pot == share * winners + rest,
                        rest < winners,
                        total(self.free_chips@) == free_start + share * w + (if w <= rest { w as int } else { rest as int }),
                        free_start + pot <= u64::MAX,
                        forall|q: int| 0 <= q < n ==> #[trigger] self.free_chips@[q] >= s0.free_chips@[q],
                        self.free_chips@ == pay(free_before, order@, k as int, share, rest, w as int),
                        pot == total(swept(bets_before, contribution)),
                        self.bet_chips@ == left_after(bets_before, contribution),
                        has_top ==> 0 <= top < n,
                        has_top ==> forall|j: int| 0 <= j < n ==> #[trigger] self.bet_chips@[j] <= self.bet_chips@[top],
                        chips_left == !all_settled(self.bet_chips@),
                        bets_before[order@[k as int].0 as int] == contribution,
                        contribution > 0,
                        entry == order@[k as int],
                        winners == tie_end(order@, k as int, k + 1) - k,
                        share == pot / (winners as u64),
                        rest == pot % (winners as u64),
                    decreases winners - w,
                {
                    let seat = order[k + w].0;
                    let extra: u64 = if (w as u64) < rest { 1 } else { 0 };
                    proof {
                        assert(share * w + share <= share * winners) by (nonlinear_arith)
                            requires
                                w < winners,
                        ;
                        assert(share * (w + 1) == share * w + share) by (nonlinear_arith);
                        lemma_total_bounds(self.free_chips@, seat as int);
                        lemma_total_update(self.free_chips@, seat as int, (self.free_chips@[seat as int] + share + extra) as u64);
                    }
                    self.free_chips[seat] = self.free_chips[seat] + share + extra;
                    w += 1;
                }
                proof {
                    let winners_spec = tie_end(order@, k as int, k + 1) - k;
                    assert(winners_spec == winners);
                    assert(bets_before[order@[k as int].0 as int] == contribution);
                    assert(settle(order@, k as int, bets_before, free_before) == if all_settled(self.bet_chips@) {
                        (self.bet_chips@, self.free_chips@)
                    } else {
                        settle(order@, k + 1, self.bet_chips@, self.free_chips@)
                    });
                }
                if !chips_left {
                    // nothing is left to settle
                    k = m;
                } else {
                    k += 1;
                }
            } else {
                k += 1;
            }
            proof {
                assert forall|x: int| 0 <= x < k implies self.bet_chips@[(#[trigger] order@[x]).0 as int] == 0 by {
                    let seat = order@[x].0 as int;
                    assert(self.bet_chips@[seat] <= bets_before[seat]);
                }
            }
        }
        proof {
            assert forall|i: int| 0 <= i < n && shows_down(s0.folded, i) implies #[trigger] self.bet_chips@[i] == 0 by {
                let x = choose|x: int| 0 <= x < order@.len() && (#[trigger] order@[x]).0 == i;
                assert(self.bet_chips@[order@[x].0 as int] == 0);
            }
            if has_top {
                assert(self.bet_chips@[top] == 0);
                assert(all_settled(self.bet_chips@));
            }
        }
    }
}

fn highest_bet(v: &Vec<u64>) -> (r: u64)
    ensures
        r == highest(v@),
{
    let mut top: u64 = 0;
    let mut i: usize = 0;
    while i < v.len()
        invariant
            i <= v@.len(),
            top == highest(v@.subrange(0, i as int)),
        decreases v@.len() - i,
    {
        assert(v@.subrange(0, i + 1).drop_last() =~= v@.subrange(0, i as int));
        if v[i] > top {
            top = v[i];
        }
        i += 1;
    }
    assert(v@.subrange(0, i as int) =~= v@);
    top
}

impl RoundState {
    /// The raise that `bet_size` makes for the player to act; none for a fold.
    pub open spec fn raise_of(&self, bet_size: int) -> u64 {
        if bet_size < 0 {
            0
        } else {
            raise_amount(self.bet_chips@, self.free_chips@, self.turn as int, self.min_raise, bet_size)
        }
    }

    /// The chips that `bet_size` moves from behind the player to act into
    /// their bet: the call and the raise; none for a fold.
    pub open spec fn committed(&self, bet_size: int) -> u64 {
        if bet_size < 0 {
            0
        } else {
            (check_amount(self.bet_chips@, self.free_chips@, self.turn as int) + self.raise_of(
                bet_size,
            )) as u64
        }
    }

    /// The fold mask once the player to act has decided.
    pub open spec fn folded_after(&self, bet_size: int) -> u16 {
        if bet_size < 0 {
            self.folded | (1u16 << (self.turn as u16))
        } else {
            self.folded
        }
    }

    /// The bets once the player to act has decided.
    pub open spec fn bets_after(&self, bet_size: int) -> Seq<u64> {
        self.bet_chips@.update(
            self.turn as int,
            (self.bet_chips@[self.turn as int] + self.committed(bet_size)) as u64,
        )
    }

    /// The chips behind once the player to act has decided.
    pub open spec fn free_after(&self, bet_size: int) -> Seq<u64> {
        self.free_chips@.update(
            self.turn as int,
            (self.free_chips@[self.turn as int] - self.committed(bet_size)) as u64,
        )
    }

    /// The last raiser once the player to act has decided.
    pub open spec fn last_raise_after(&self, bet_size: int) -> int {
        if self.raise_of(bet_size) > 0 {
            self.turn as int
        } else {
            self.last_raise_by as int
        }
    }

    /// (street, turn, last raiser) after `bet_size` and the move of the turn.
    pub open spec fn next_turn(&self, bet_size: int) -> (int, int, int) {
        let n = self.player_count as int;
        pass_turn(
            n,
            self.button as int,
            self.folded_after(bet_size),
            self.free_after(bet_size),
            self.stage.index(),
            self.turn as int,
            self.last_raise_after(bet_size),
            (5 * (n + 1)) as nat,
        )
    }

    /// The player to act decides: a negative `bet_size` folds; up to the call
    /// it checks or calls (as far as their chips reach); above it raises by the
    /// excess, at least the minimum raise, capped by the chips left after
    /// calling. A raise lifts the minimum raise to its size when larger and
    /// makes the player the last raiser. The turn then moves on (see
    /// [`pass_turn`]); when the river closes, the pots are settled at once by
    /// [`RoundState::finish_game`], as [`showdown`] says.
    pub fn do_action(&mut self, bet_size: i64)
        requires
            old(self).wf(),
            old(self).stage != RoundStage::Finished,
        ensures
            final(self).wf(),
            final(self).chips() == old(self).chips(),
            final(self).community_cards == old(self).community_cards,
            final(self).player_cards == old(self).player_cards,
            final(self).player_count == old(self).player_count,
            final(self).button == old(self).button,
            final(self).start_chips == old(self).start_chips,
            final(self).folded == old(self).folded_after(bet_size as int),
            final(self).min_raise == max_u64(old(self).min_raise, old(self).raise_of(bet_size as int)),
            final(self).stage.index() == old(self).next_turn(bet_size as int).0,
            final(self).turn == old(self).next_turn(bet_size as int).1,
            final(self).last_raise_by == old(self).next_turn(bet_size as int).2,
            final(self).stage != RoundStage::Finished ==> final(self).bet_chips@ == old(self).bets_after(
                bet_size as int,
            ) && final(self).free_chips@ == old(self).free_after(bet_size as int),
            final(self).stage == RoundStage::Finished && (exists|t: int|
                0 <= t < old(self).player_count && shows_down(old(self).folded_after(bet_size as int), t)
                    && forall|j: int| 0 <= j < old(self).player_count ==> #[trigger] old(self).bets_after(bet_size as int)[j]
                    <= old(self).bets_after(bet_size as int)[t]) ==> all_settled(final(self).bet_chips@),
            final(self).stage == RoundStage::Finished ==> (final(self).bet_chips@, final(self).free_chips@)
                == showdown(
                old(self).folded_after(bet_size as int),
                old(self).community_cards@,
                old(self).player_cards@,
                old(self).bets_after(bet_size as int),
                old(self).free_after(bet_size as int),
            ),
    {
        let ghost s0 = *self;
        let n = self.player_count;
        let t = self.turn as usize;
        if bet_size < 0 {
            self.folded = self.folded | (1u16 << (self.turn as u16));
            assert(self.bet_chips@ =~= s0.bets_after(bet_size as int));
            assert(self.free_chips@ =~= s0.free_after(bet_size as int));
        } else {
            let top = highest_bet(&self.bet_chips);
            proof {
                lemma_highest(self.bet_chips@, t as int);
            }
            let bet = self.bet_chips[t];
            let free = self.free_chips[t];
            let owed = top - bet;
            let check = if owed <= free { owed } else { free };
            let mut raise: u64 = 0;
            if bet_size as u64 > check {
                let excess = bet_size as u64 - check;
                let wanted = if excess >= self.min_raise { excess } else { self.min_raise };
                raise = if wanted <= free - check { wanted } else { free - check };
            }
            if raise > self.min_raise {
                self.min_raise = raise;
            }
            let committed = check + raise;
            proof {
                lemma_total_bounds(self.bet_chips@, t as int);
                lemma_total_bounds(self.free_chips@, t as int);
                lemma_total_update(self.bet_chips@, t as int, (bet + committed) as u64);
                lemma_total_update(self.free_chips@, t as int, (free - committed) as u64);
            }
            self.bet_chips[t] = bet + committed;
            self.free_chips[t] = free - committed;
            if raise > 0 {
                self.last_raise_by = self.turn;
            }
            assert(self.bet_chips@ =~= s0.bets_after(bet_size as int));
            assert(self.free_chips@ =~= s0.free_after(bet_size as int));
        }
        let ghost folded = self.folded;
        let ghost free = self.free_chips@;
        let ghost fuel0: nat = (5 * (n + 1)) as nat;
        let ghost mut fuel: nat = fuel0;
        let ghost mut budget: int = stage_budget(self.stage.index(), n as int);
        let mut done = false;
        while !done
            invariant
                s0.wf(),
                n == s0.player_count,
                self.same_table_except_turn(&s0),
                self.folded == folded,
                self.free_chips@ == free,
                free == s0.free_after(bet_size as int),
                self.bet_chips@ == s0.bets_after(bet_size as int),
                self.min_raise == max_u64(s0.min_raise, s0.raise_of(bet_size as int)),
                self.bet_chips@.len() == n,
                free.len() == n,
                self.chips() == s0.chips(),
                self.turn < n,
                self.last_raise_by < n,
                !done ==> self.stage != RoundStage::Finished,
                !done ==> budget == stage_budget(self.stage.index(), n as int),
                !done ==> fuel >= budget + seats_to(n as int, self.turn as int, self.last_raise_by as int),
                !done ==> pass_turn(n as int, s0.button as int, folded, free, s0.stage.index(), s0.turn as int,
                    s0.last_raise_after(bet_size as int), fuel0)
                    == pass_turn(n as int, s0.button as int, folded, free, self.stage.index(),
                    self.turn as int, self.last_raise_by as int, fuel),
                done ==> pass_turn(n as int, s0.button as int, folded, free, s0.stage.index(), s0.turn as int,
                    s0.last_raise_after(bet_size as int), fuel0)
                    == (self.stage.index(), self.turn as int, self.last_raise_by as int),
            decreases (if done { 0 } else { fuel + 1 }),
        {
            let next = if self.turn as usize + 1 >= n { 0 } else { self.turn + 1 };
            self.turn = next;
            if next == self.last_raise_by {
                self.stage = self.stage.next();
                if self.stage == RoundStage::Finished {
                    done = true;
                } else {
                    let opener = if self.button as usize + 1 >= n { 0 } else { self.button + 1 };
                    self.turn = opener;
                    self.last_raise_by = opener;
                    proof {
                        budget = budget - (n + 1);
                    }
                    if self.folded & (1u16 << (opener as u16)) == 0 && self.free_chips[opener as usize] > 0 {
                        done = true;
                    }
                }
            } else if self.folded & (1u16 << (next as u16)) == 0 && self.free_chips[next as usize] > 0 {
                done = true;
            }
            proof {
                fuel = (fuel - 1) as nat;
            }
        }
        if self.stage == RoundStage::Finished {
            self.finish_game();
        }
    }
}

} // verus!
