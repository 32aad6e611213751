use vstd::prelude::*;
use crate::card::{Card, NO_CARD, card_of_token, parse_token};
use vstd::string::StringSliceAdditionalSpecFns;

verus! {

/// At most seven cards in fixed slots: the first `size` slots hold the cards,
/// the others hold [`NO_CARD`] (see [`CardSet::wf`]).
#[derive(Clone, Copy, Debug)]
pub struct CardSet {
    pub cards: [Card; 7],
    pub size: usize,
}

impl View for CardSet {
    type V = Seq<Card>;

    /// The occupied slots, in order.
    open spec fn view(&self) -> Seq<Card> {
        self.cards@.subrange(0, self.size as int)
    }
}

/// Packs the codes into an integer, six bits per card, first card highest.
pub open spec fn pack(s: Seq<Card>) -> u64
    decreases s.len(),
{
    if s.len() == 0 {
        0
    } else {
        (pack(s.drop_last()) << 6u64) | (s.last().0 as u64)
    }
}

/// `s` lists card codes below 52 in strictly increasing order, with room above
/// each for the ones after it: a combination of `s.len()` cards out of 52.
pub open spec fn is_combination(s: Seq<Card>) -> bool {
    &&& forall|i: int| 0 <= i < s.len() ==> (#[trigger] s[i]).0 + s.len() - i <= 52
    &&& forall|i: int, j: int| 0 <= i < j < s.len() ==> s[i].0 < s[j].0
}

/// The last position of a combination whose code can still grow, `-1` when
/// every code is at its largest.
pub open spec fn pivot(s: Seq<Card>, i: int) -> int
    decreases i + 1,
{
    if i < 0 {
        -1
    } else if s[i].0 + s.len() - i < 52 {
        i
    } else {
        pivot(s, i - 1)
    }
}

/// The combination that follows `s` in lexicographic order: the pivot code
/// grows by one and the codes after it follow it one by one.
pub open spec fn next_combination(s: Seq<Card>) -> Seq<Card> {
    let p = pivot(s, s.len() - 1);
    Seq::new(s.len(), |j: int| if j < p { s[j] } else { Card((s[p].0 + 1 + (j - p)) as u8) })
}

/// Number of card tokens in a text of `len` bytes: one per three bytes, the
/// last one without its separator.
pub open spec fn token_count(len: int) -> int {
    (len + 1) / 3
}

/// The cards that a text names: two-character tokens, each followed by one
/// separator byte of any kind; `None` when a token does not name a card or
/// there are more than seven.
pub open spec fn cards_of_text(b: Seq<u8>) -> Option<Seq<Card>> {
    let n = token_count(b.len() as int);
    if n <= 7 && forall|i: int| 0 <= i < n ==> (#[trigger] card_of_token(b.subrange(3 * i, 3 * i + 2))) is Some {
        Some(Seq::new(n as nat, |i: int| card_of_token(b.subrange(3 * i, 3 * i + 2))->Some_0))
    } else {
        None
    }
}

impl CardSet {
    /// Reads cards written as in `"4h 2c 3c As 9s Qs"`: a token every three
    /// bytes, the byte between tokens ignored.
    pub fn parse(s: &str) -> (r: Option<CardSet>)
        ensures
            match cards_of_text(s.spec_bytes()) {
                Some(cards) => r is Some && r->Some_0.wf() && r->Some_0@ == cards,
                None => r is None,
            },
    {
        let b = s.as_bytes();
        let n = b.len() / 3 + if b.len() % 3 == 2 { 1 } else { 0 };
        if n > 7 {
            return None;
        }
        let mut cs = CardSet { cards: [Card(NO_CARD); 7], size: n };
        let mut i: usize = 0;
        while i < n
            invariant
                b@ == s.spec_bytes(),
                n == token_count(b@.len() as int),
                n <= 7,
                i <= n,
                cs.size == n,
                forall|j: int| 0 <= j < i ==> (#[trigger] card_of_token(b@.subrange(3 * j, 3 * j + 2))) == Some(cs.cards[j]),
                forall|j: int| n <= j < 7 ==> (#[trigger] cs.cards[j]).0 == NO_CARD,
            decreases n - i,
        {
            match parse_token(b, 3 * i) {
                Some(card) => {
                    cs.cards[i] = card;
                },
                None => {
                    let ghost k = i as int;
                    assert(card_of_token(b@.subrange(3 * k, 3 * k + 2)) is None);
                    assert(0 <= k < token_count(b@.len() as int));
                    assert(cards_of_text(b@) is None);
                    return None;
                },
            }
            i += 1;
        }
        assert(cs@ =~= cards_of_text(b@)->Some_0);
        Some(cs)
    }

    /// Occupied slots come first and the rest are empty.
    pub open spec fn wf(&self) -> bool {
        &&& self.size <= 7
        &&& forall|i: int| self.size <= i < 7 ==> (#[trigger] self.cards[i]).0 == NO_CARD
    }

    pub fn new(cards: &[Card]) -> (r: CardSet)
        requires
            cards@.len() <= 7,
        ensures
            r.wf(),
            r@ == cards@,
    {
        let mut cs = CardSet { cards: [Card(NO_CARD); 7], size: 0 };
        cs.set_cards_partial(cards, 0);
        assert(cs@ =~= cards@);
        cs
    }

    /// A set of the cards with these codes.
    pub fn from_codes(codes: &[u8]) -> (r: CardSet)
        requires
            codes@.len() <= 7,
        ensures
            r.wf(),
            r@.len() == codes@.len(),
            forall|i: int| 0 <= i < codes@.len() ==> (#[trigger] r@[i]).0 == codes@[i],
    {
        let mut cs = CardSet { cards: [Card(NO_CARD); 7], size: codes.len() };
        let mut i: usize = 0;
        while i < codes.len()
            invariant
                i <= codes@.len() <= 7,
                cs.size == codes@.len(),
                forall|j: int| 0 <= j < i ==> (#[trigger] cs.cards[j]).0 == codes@[j],
                forall|j: int| codes@.len() <= j < 7 ==> (#[trigger] cs.cards[j]).0 == NO_CARD,
            decreases codes@.len() - i,
        {
            cs.cards[i] = Card(codes[i]);
            i += 1;
        }
        cs
    }

    /// Writes `cards` into the slots from `offset` on; the set grows to cover
    /// them when they reach past its end.
    pub fn set_cards_partial(&mut self, cards: &[Card], offset: usize)
        requires
            old(self).wf(),
            offset + cards@.len() <= 7,
        ensures
            final(self).wf(),
            final(self).size == vstd::math::max(
                old(self).size as int,
                offset + cards@.len(),
            ),
            final(self).cards@ == old(self).cards@.subrange(0, offset as int) + cards@
                + old(self).cards@.subrange(offset + cards@.len(), 7),
    {
        let end = offset + cards.len();
        let ghost old_size = self.size;
        if self.size < end {
            self.size = end;
        }
        let ghost before = self.cards@;
        let mut i: usize = 0;
        while i < cards.len()
            invariant
                end == offset + cards@.len() <= 7,
                i <= cards@.len(),
                self.size == vstd::math::max(old_size as int, end as int),
                old_size <= 7,
                before.len() == 7,
                forall|j: int| old_size <= j < 7 ==> (#[trigger] before[j]).0 == NO_CARD,
                forall|j: int| 0 <= j < 7 && !(offset <= j < offset + i) ==> self.cards@[j] == before[j],
                forall|j: int| offset <= j < offset + i ==> self.cards@[j] == cards@[j - offset],
            decreases cards@.len() - i,
        {
            self.cards[offset + i] = cards[i];
            i += 1;
        }
        assert(self.cards@ =~= before.subrange(0, offset as int) + cards@ + before.subrange(end as int, 7));
    }

    #[inline]
    pub fn len(&self) -> (r: usize)
        requires
            self.wf(),
        ensures
            r == self@.len(),
    {
        self.size
    }

    /// The occupied slots.
    pub fn iter(&self) -> (r: std::slice::Iter<'_, Card>)
        requires
            self.wf(),
        ensures
            vstd::std_specs::slice::into_iter_elts(r) == self@,
    {
        vstd::slice::slice_subrange(self.cards.as_slice(), 0, self.size).iter()
    }

    /// The codes packed six bits apiece, first card in the highest bits: a key
    /// that two sets share exactly when they hold the same cards in the same order
    /// (for codes below 64).
    #[inline]
    pub fn identifier(&self) -> (r: u64)
        requires
            self.wf(),
        ensures
            r == pack(self@),
    {
        let mut id: u64 = 0;
        let mut i: usize = 0;
        while i < self.size
            invariant
                self.wf(),
                i <= self.size,
                id == pack(self@.subrange(0, i as int)),
            decreases self.size - i,
        {
            assert(self@.subrange(0, i + 1).drop_last() =~= self@.subrange(0, i as int));
            id = (id << 6u64) | (self.cards[i].0 as u64);
            i += 1;
        }
        assert(self@.subrange(0, i as int) =~= self@);
        id
    }

    /// Steps a combination to the next one in lexicographic order; `false`
    /// once the last combination has been passed.
    #[inline]
    pub fn increment(&mut self) -> (r: bool)
        requires
            old(self).wf(),
            old(self)@.len() >= 1,
            is_combination(old(self)@),
        ensures
            r == (pivot(old(self)@, old(self)@.len() - 1) >= 0),
            r ==> final(self).wf() && final(self)@ == next_combination(old(self)@)
                && is_combination(final(self)@),
            !r ==> *final(self) == *old(self),
    {
        let n = self.size;
        let ghost s = self@;
        // find the pivot from the right
        let mut i: usize = n;
        while i > 0 && self.cards[i - 1].0 as usize + n - (i - 1) >= 52
            invariant
                self.wf(),
                self@ == s,
                n == s.len(),
                1 <= n <= 7,
                i <= n,
                is_combination(s),
                pivot(s, n - 1) == pivot(s, i - 1),
            decreases i,
        {
            i -= 1;
        }
        if i == 0 {
            return false;
        }
        let p = i - 1;
        assert(pivot(s, n - 1) == p as int);
        let base = self.cards[p].0 + 1;
        let mut j: usize = p;
        while j < n
            invariant
                self.wf(),
                self.size == n,
                1 <= n <= 7,
                p < n,
                p <= j <= n,
                base == s[p as int].0 + 1,
                base + (n - 1 - p) <= 52,
                forall|k: int| 0 <= k < p ==> self.cards[k] == s[k],
                forall|k: int| p <= k < j ==> self.cards[k].0 == base + (k - p),
            decreases n - j,
        {
            self.cards[j] = Card(base + (j - p) as u8);
            j += 1;
        }
        assert(self@ =~= next_combination(s));
        true
    }
}

} // verus!
