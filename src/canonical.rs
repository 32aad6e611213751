use vstd::prelude::*;
use vstd::relations::{sorted_by, total_ordering};
use vstd::multiset::Multiset;
use crate::card::{Card, NO_CARD, rank_of, suit_of};
use crate::card_set::CardSet;
use crate::evaluate::hand_value;

verus! {

broadcast use vstd::seq_lib::group_to_multiset_ensures;

/// The prime that stands for a rank: 2, 3, 5, ... 41 for ranks 0 to 12.
pub open spec fn rank_prime(r: int) -> int {
    if r == 0 { 2 }
    else if r == 1 { 3 }
    else if r == 2 { 5 }
    else if r == 3 { 7 }
    else if r == 4 { 11 }
    else if r == 5 { 13 }
    else if r == 6 { 17 }
    else if r == 7 { 19 }
    else if r == 8 { 23 }
    else if r == 9 { 29 }
    else if r == 10 { 31 }
    else if r == 11 { 37 }
    else { 41 }
}

/// Number of cards of suit `s` in `h`.
pub open spec fn suit_count(h: Seq<Card>, s: int) -> nat
    decreases h.len(),
{
    if h.len() == 0 {
        0
    } else {
        suit_count(h.drop_last(), s) + if suit_of(h.last().0) == s { 1nat } else { 0nat }
    }
}

/// Product of the primes of the ranks held in suit `s`: equal for two suits
/// exactly when they hold the same ranks.
pub open spec fn suit_print(h: Seq<Card>, s: int) -> int
    decreases h.len(),
{
    if h.len() == 0 {
        1
    } else {
        suit_print(h.drop_last(), s) * if suit_of(h.last().0) == s {
            rank_prime(rank_of(h.last().0))
        } else {
            1
        }
    }
}

/// Suit `t` comes before suit `s`: it holds fewer cards, or as many and a
/// smaller rank print, or the same of both and a smaller index.
pub open spec fn suit_before(h: Seq<Card>, t: int, s: int) -> bool {
    ||| suit_count(h, t) < suit_count(h, s)
    ||| suit_count(h, t) == suit_count(h, s) && suit_print(h, t) < suit_print(h, s)
    ||| suit_count(h, t) == suit_count(h, s) && suit_print(h, t) == suit_print(h, s) && t < s
}

/// The suit that suit `s` becomes: the number of suits that come before it.
pub open spec fn suit_target(h: Seq<Card>, s: int) -> int {
    (if suit_before(h, 0, s) { 1int } else { 0int }) + (if suit_before(h, 1, s) {
        1int
    } else {
        0int
    }) + (if suit_before(h, 2, s) { 1int } else { 0int }) + (if suit_before(h, 3, s) {
        1int
    } else {
        0int
    })
}

/// Card `c` with its suit renamed as in hand `h`, its rank kept.
pub open spec fn renamed(h: Seq<Card>, c: Card) -> Card {
    Card((suit_target(h, suit_of(c.0)) * 13 + rank_of(c.0)) as u8)
}

/// Every card with its suit renamed, its rank kept.
pub open spec fn relabel(h: Seq<Card>) -> Seq<Card> {
    h.map_values(|c: Card| renamed(h, c))
}

/// Cards by decreasing code.
pub open spec fn desc_order() -> spec_fn(Card, Card) -> bool {
    |a: Card, b: Card| a.0 >= b.0
}

/// The representative of the hands that differ from `h` only in which suit is
/// which: suits renamed by [`suit_target`], then cards by decreasing code.
pub open spec fn canonical(h: Seq<Card>) -> Seq<Card> {
    relabel(h).sort_by(desc_order())
}

/// All cards are real cards.
pub open spec fn all_real(h: Seq<Card>) -> bool {
    forall|i: int| 0 <= i < h.len() ==> (#[trigger] h[i]).0 < 52
}

/// 41 to the power `i`, for `i` up to 7.
spec fn bound41(i: int) -> int {
    if i <= 0 { 1 }
    else if i == 1 { 41 }
    else if i == 2 { 1681 }
    else if i == 3 { 68921 }
    else if i == 4 { 2825761 }
    else if i == 5 { 115856201 }
    else if i == 6 { 4750104241 }
    else { 194754273881 }
}


pub(crate) proof fn lemma_swap_multiset<T>(s: Seq<T>, i: int, j: int)
    requires
        0 <= i < s.len(),
        0 <= j < s.len(),
    ensures
        s.update(i, s[j]).update(j, s[i]).to_multiset() =~= s.to_multiset(),
{
    broadcast use vstd::multiset::group_multiset_axioms;
    broadcast use vstd::seq_lib::to_multiset_update;

    let t = s.update(i, s[j]);
    assert(t[j] == s[j] || i == j);
}

/// Sorts the first `n` slots by decreasing code and leaves the others alone.
/// Each card is carried down the sorted prefix, trading places with every
/// smaller one it meets, so the work does not depend on the order.
#[inline]
fn sort_desc(arr: &mut [Card; 7], n: usize)
    requires
        n <= 7,
    ensures
        final(arr)@.subrange(0, n as int).to_multiset() =~= old(arr)@.subrange(0, n as int).to_multiset(),
        sorted_by(final(arr)@.subrange(0, n as int), desc_order()),
        final(arr)@.subrange(n as int, 7) == old(arr)@.subrange(n as int, 7),
{
    let ghost start = arr@;
    let mut i: usize = 1;
    while i < n
        invariant
            n <= 7,
            1 <= i,
            arr@.len() == 7,
            start.len() == 7,
            arr@.subrange(0, n as int).to_multiset() =~= start.subrange(0, n as int).to_multiset(),
            arr@.subrange(n as int, 7) == start.subrange(n as int, 7),
            forall|a: int, b: int| 0 <= a < b < i && b < n ==> arr[a].0 >= arr[b].0,
        decreases n - i,
    {
        let mut x = arr[i];
        assert(arr@.update(i as int, x) =~= arr@);
        let mut j: usize = 0;
        while j < i
            invariant
                n <= 7,
                0 <= j <= i < n,
                arr@.len() == 7,
                start.len() == 7,
                arr@.update(i as int, x).subrange(0, n as int).to_multiset() =~= start.subrange(0, n as int).to_multiset(),
                arr@.subrange(n as int, 7) == start.subrange(n as int, 7),
                forall|a: int, b: int| 0 <= a < b < j ==> arr[a].0 >= arr[b].0,
                forall|a: int, b: int| j <= a < b < i ==> arr[a].0 >= arr[b].0,
                forall|a: int, b: int| 0 <= a < j && j <= b < i ==> arr[a].0 >= arr[b].0,
                forall|a: int| 0 <= a < j ==> arr[a].0 >= x.0,
            decreases i - j,
        {
            let ghost cur = arr@.update(i as int, x);
            let y = arr[j];
            let keep = y.0 >= x.0;
            let hi = if keep { y } else { x };
            let lo = if keep { x } else { y };
            arr[j] = hi;
            x = lo;
            proof {
                let sub = cur.subrange(0, n as int);
                if !keep {
                    lemma_swap_multiset(sub, j as int, i as int);
                    assert(arr@.update(i as int, x).subrange(0, n as int) =~= sub.update(j as int, sub[i as int]).update(
                        i as int,
                        sub[j as int],
                    ));
                } else {
                    assert(arr@.update(i as int, x).subrange(0, n as int) =~= sub);
                }
                assert(arr@.subrange(n as int, 7) =~= cur.subrange(n as int, 7));
            }
            j += 1;
        }
        let ghost carried = arr@.update(i as int, x);
        arr[i] = x;
        assert(arr@ == carried);
        i += 1;
    }
}

/// The suit renaming is a permutation of the four suits.
proof fn lemma_targets_permute(h: Seq<Card>)
    ensures
        forall|s: int| 0 <= s < 4 ==> 0 <= #[trigger] suit_target(h, s) <= 3,
        forall|a: int, b: int| 0 <= a < 4 && 0 <= b < 4 && a != b ==> suit_target(h, a) != suit_target(h, b),
        suit_target(h, 0) + suit_target(h, 1) + suit_target(h, 2) + suit_target(h, 3) == 6,
{
}

/// One step of [`suit_count`] as a fold.
spec fn count_step(s: int) -> spec_fn(int, Card) -> int {
    |acc: int, c: Card| acc + if suit_of(c.0) == s { 1int } else { 0int }
}

/// One step of [`suit_print`] as a fold.
spec fn print_step(s: int) -> spec_fn(int, Card) -> int {
    |acc: int, c: Card| acc * if suit_of(c.0) == s { rank_prime(rank_of(c.0)) } else { 1int }
}

proof fn lemma_suit_stats_fold(h: Seq<Card>, s: int)
    ensures
        suit_count(h, s) == h.fold_left(0int, count_step(s)),
        suit_print(h, s) == h.fold_left(1int, print_step(s)),
    decreases h.len(),
{
    if h.len() > 0 {
        lemma_suit_stats_fold(h.drop_last(), s);
    }
}

/// Counts and rank prints of a suit do not depend on the order of the cards.
proof fn lemma_suit_stats_permutation(x: Seq<Card>, y: Seq<Card>, s: int)
    requires
        x.to_multiset() == y.to_multiset(),
    ensures
        suit_count(x, s) == suit_count(y, s),
        suit_print(x, s) == suit_print(y, s),
{
    lemma_suit_stats_fold(x, s);
    lemma_suit_stats_fold(y, s);
    let f = count_step(s);
    let g = print_step(s);
    assert forall|a: Card, b: Card, v: int| #[trigger] f(f(v, a), b) == f(f(v, b), a) by {}
    assert forall|a: Card, b: Card, v: int| #[trigger] g(g(v, a), b) == g(g(v, b), a) by {
        let pa = if suit_of(a.0) == s { rank_prime(rank_of(a.0)) } else { 1int };
        let pb = if suit_of(b.0) == s { rank_prime(rank_of(b.0)) } else { 1int };
        assert((v * pa) * pb == (v * pb) * pa) by (nonlinear_arith);
    }
    vstd::seq_lib::lemma_fold_left_permutation(x, y, f, 0int);
    vstd::seq_lib::lemma_fold_left_permutation(x, y, g, 1int);
}

/// Renaming the suits of `x` as in `h` moves the counts and prints of each
/// suit to its new name.
proof fn lemma_renamed_stats(h: Seq<Card>, x: Seq<Card>, s: int)
    requires
        all_real(x),
        0 <= s < 4,
    ensures
        suit_count(x.map_values(|c: Card| renamed(h, c)), suit_target(h, s)) == suit_count(x, s),
        suit_print(x.map_values(|c: Card| renamed(h, c)), suit_target(h, s)) == suit_print(x, s),
    decreases x.len(),
{
    lemma_targets_permute(h);
    if x.len() > 0 {
        let f = |c: Card| renamed(h, c);
        lemma_renamed_stats(h, x.drop_last(), s);
        assert(x.map_values(f).drop_last() =~= x.drop_last().map_values(f));
        let c = x.last();
        assert(c.0 < 52);
        let t = suit_target(h, suit_of(c.0));
        assert(0 <= t <= 3);
        assert(suit_of(renamed(h, c).0) == t);
        assert(rank_of(renamed(h, c).0) == rank_of(c.0));
        assert((t == suit_target(h, s)) == (suit_of(c.0) == s));
    }
}

/// Canonicalising a canonical hand changes nothing: the renamed suits are
/// already in the order that the renaming gives, and the cards already come
/// by decreasing code.
pub proof fn lemma_canonical_idempotent(h: Seq<Card>)
    requires
        all_real(h),
    ensures
        canonical(canonical(h)) == canonical(h),
{
    broadcast use vstd::seq_lib::group_to_multiset_ensures;

    let leq = desc_order();
    let rl = relabel(h);
    let c = canonical(h);
    assert(total_ordering(leq));
    rl.lemma_sort_by_ensures(leq);
    lemma_targets_permute(h);
    assert forall|s: int| 0 <= s < 4 implies suit_count(c, #[trigger] suit_target(h, s)) == suit_count(h, s)
        && suit_print(c, suit_target(h, s)) == suit_print(h, s) by {
        lemma_renamed_stats(h, h, s);
        lemma_suit_stats_permutation(c, rl, suit_target(h, s));
    }
    assert forall|s: int| 0 <= s < 4 implies suit_target(c, #[trigger] suit_target(h, s)) == suit_target(h, s) by {
        lemma_renamed_stats(h, h, 0);
        lemma_renamed_stats(h, h, 1);
        lemma_renamed_stats(h, h, 2);
        lemma_renamed_stats(h, h, 3);
        lemma_suit_stats_permutation(c, rl, suit_target(h, 0));
        lemma_suit_stats_permutation(c, rl, suit_target(h, 1));
        lemma_suit_stats_permutation(c, rl, suit_target(h, 2));
        lemma_suit_stats_permutation(c, rl, suit_target(h, 3));
    }
    assert forall|j: int| 0 <= j < c.len() implies renamed(c, #[trigger] c[j]) == c[j] by {
        assert(c.contains(c[j]));
        assert(c.to_multiset().count(c[j]) > 0);
        assert(rl.contains(c[j]));
        let i = choose|i: int| 0 <= i < rl.len() && rl[i] == c[j];
        let s = suit_of(h[i].0);
        assert(h[i].0 < 52);
        assert(c[j] == renamed(h, h[i]));
        assert(suit_of(c[j].0) == suit_target(h, s));
        assert(rank_of(c[j].0) == rank_of(h[i].0));
    }
    assert(relabel(c) =~= c);
    c.lemma_sort_by_ensures(leq);
    assert forall|a: int, b: int| 0 <= a < b < c.len() implies #[trigger] leq(c[a], c[b]) by {}
    vstd::seq_lib::lemma_sorted_unique(c.sort_by(leq), c, leq);
}

/// Mapping every card keeps two sequences with the same cards alike.
proof fn lemma_map_multiset(s1: Seq<Card>, s2: Seq<Card>, f: spec_fn(Card) -> Card)
    requires
        s1.to_multiset() == s2.to_multiset(),
    ensures
        s1.map_values(f).to_multiset() == s2.map_values(f).to_multiset(),
{
    let g = |m: Multiset<Card>, x: Card| m.insert(f(x));
    assert forall|x: Card, y: Card, m: Multiset<Card>| #[trigger] g(g(m, x), y) == g(g(m, y), x) by {
        broadcast use vstd::multiset::group_multiset_axioms;

        assert(m.insert(f(x)).insert(f(y)) =~= m.insert(f(y)).insert(f(x)));
    }
    lemma_map_fold(s1, f);
    lemma_map_fold(s2, f);
    vstd::seq_lib::lemma_fold_left_permutation(s1, s2, g, Multiset::empty());
}

proof fn lemma_map_fold(s: Seq<Card>, f: spec_fn(Card) -> Card)
    ensures
        s.map_values(f).to_multiset() == s.fold_left(Multiset::empty(), |m: Multiset<Card>, x: Card| m.insert(f(x))),
    decreases s.len(),
{
    if s.len() == 0 {
        assert(s.map_values(f) =~= Seq::<Card>::empty());
    } else {
        lemma_map_fold(s.drop_last(), f);
        assert(s.map_values(f) =~= s.drop_last().map_values(f).push(f(s.last())));
        vstd::seq_lib::to_multiset_build(s.drop_last().map_values(f), f(s.last()));
    }
}

/// Listing the same cards in another order gives the same canonical hand,
/// and so the same value.
pub proof fn lemma_canonical_reorder(h1: Seq<Card>, h2: Seq<Card>)
    requires
        h1.to_multiset() == h2.to_multiset(),
    ensures
        canonical(h1) == canonical(h2),
        hand_value(canonical(h1)) == hand_value(canonical(h2)),
{
    let f = |c: Card| renamed(h1, c);
    assert forall|c: Card| renamed(h2, c) == #[trigger] renamed(h1, c) by {
        lemma_suit_stats_permutation(h1, h2, 0);
        lemma_suit_stats_permutation(h1, h2, 1);
        lemma_suit_stats_permutation(h1, h2, 2);
        lemma_suit_stats_permutation(h1, h2, 3);
        lemma_suit_stats_permutation(h1, h2, suit_of(c.0));
    }
    assert(relabel(h2) =~= h2.map_values(f));
    assert(relabel(h1) =~= h1.map_values(f));
    lemma_map_multiset(h1, h2, f);
    let leq = desc_order();
    assert(total_ordering(leq));
    relabel(h1).lemma_sort_by_ensures(leq);
    relabel(h2).lemma_sort_by_ensures(leq);
    vstd::seq_lib::lemma_sorted_unique(canonical(h1), canonical(h2), leq);
}

impl CardSet {
    /// Renames the suits and reorders the cards so that every hand that differs
    /// from this one only in which suit is which ends up the same. A suit with
    /// five or more cards becomes suit 3 and, as the cards come by decreasing
    /// code, its cards come first.
    #[inline]
    pub fn canonicalize(&mut self)
        requires
            old(self).wf(),
            all_real(old(self)@),
        ensures
            final(self).wf(),
            final(self).size == old(self).size,
            final(self)@ == canonical(old(self)@),
            all_real(final(self)@),
    {
        let ghost h = self@;
        let n = self.size;
        let mut counts: [u64; 4] = [0; 4];
        let mut prints: [u64; 4] = [1; 4];
        let primes: [u64; 13] = [2, 3, 5, 7, 11, 13, 17, 19, 23, 29, 31, 37, 41];
        assert(forall|r: int| 0 <= r < 13 ==> #[trigger] primes[r] == rank_prime(r) && 2 <= primes[r] <= 41);
        let mut i: usize = 0;
        while i < n
            invariant
                self.wf(),
                h == self@,
                n == self.size,
                all_real(h),
                i <= n,
                forall|s: int| 0 <= s < 4 ==> (#[trigger] counts[s]) == suit_count(h.take(i as int), s),
                forall|s: int| 0 <= s < 4 ==> (#[trigger] prints[s]) == suit_print(h.take(i as int), s),
                forall|s: int| 0 <= s < 4 ==> 1 <= (#[trigger] prints[s]) <= bound41(i as int),
                forall|s: int| 0 <= s < 4 ==> (#[trigger] counts[s]) <= i,
                forall|r: int| 0 <= r < 13 ==> #[trigger] primes[r] == rank_prime(r) && 2 <= primes[r] <= 41,
            decreases n - i,
        {
            let c = self.cards[i];
            assert(c == h[i as int]);
            let s = c.suit() as usize;
            let rank = c.rank();
            let p = primes[rank as usize];
            let old_print = prints[s];
            assert(old_print * p <= bound41(i + 1)) by (nonlinear_arith)
                requires
                    old_print <= bound41(i as int),
                    p <= 41,
                    bound41(i + 1) == 41 * bound41(i as int),
            ;
            assert(1 <= old_print * p) by (nonlinear_arith)
                requires
                    1 <= old_print,
                    2 <= p,
            ;
            counts[s] = counts[s] + 1;
            prints[s] = old_print * p;
            assert(h.take(i + 1).drop_last() =~= h.take(i as int));
            i += 1;
        }
        assert(h.take(n as int) =~= h);
        // one key per suit orders the suits as suit_before does
        let mut keys: [u64; 4] = [0; 4];
        let mut s: usize = 0;
        while s < 4
            invariant
                s <= 4,
                n <= 7,
                forall|t: int| 0 <= t < 4 ==> (#[trigger] counts[t]) == suit_count(h, t),
                forall|t: int| 0 <= t < 4 ==> (#[trigger] prints[t]) == suit_print(h, t),
                forall|t: int| 0 <= t < 4 ==> 1 <= (#[trigger] prints[t]) <= bound41(n as int),
                forall|t: int| 0 <= t < 4 ==> (#[trigger] counts[t]) <= n,
                forall|t: int| 0 <= t < s ==> (#[trigger] keys[t]) == counts[t] * 0x400_0000_0000 + prints[t] * 4 + t,
            decreases 4 - s,
        {
            keys[s] = counts[s] * 0x400_0000_0000 + prints[s] * 4 + s as u64;
            s += 1;
        }
        proof {
            assert forall|t: int, u: int| 0 <= t < 4 && 0 <= u < 4 implies (keys[t] < keys[u]) == suit_before(h, t, u) by {
                assert(bound41(n as int) <= 194754273881);
            }
        }
        let mut target: [u8; 4] = [0; 4];
        let mut s: usize = 0;
        while s < 4
            invariant
                s <= 4,
                forall|t: int, u: int| 0 <= t < 4 && 0 <= u < 4 ==> (keys[t] < keys[u]) == suit_before(h, t, u),
                forall|t: int| 0 <= t < s ==> (#[trigger] target[t]) == suit_target(h, t),
                forall|t: int| 0 <= t < s ==> (#[trigger] target[t]) <= 3,
            decreases 4 - s,
        {
            let key = keys[s];
            target[s] = (keys[0] < key) as u8 + (keys[1] < key) as u8 + (keys[2] < key) as u8 + (keys[3] < key) as u8;
            s += 1;
        }
        let mut out: [Card; 7] = [Card(NO_CARD); 7];
        let mut k: usize = 0;
        while k < n
            invariant
                self.wf(),
                h == self@,
                n == self.size,
                all_real(h),
                k <= n,
                forall|t: int| 0 <= t < 4 ==> (#[trigger] target[t]) == suit_target(h, t),
                forall|t: int| 0 <= t < 4 ==> (#[trigger] target[t]) <= 3,
                forall|j: int| 0 <= j < k ==> (#[trigger] out[j]) == relabel(h)[j],

                forall|j: int| n <= j < 7 ==> (#[trigger] out[j]).0 == NO_CARD,
            decreases n - k,
        {
            let c = self.cards[k];
            assert(c == h[k as int]);
            out[k] = Card(target[c.suit() as usize] * 13 + c.rank());
            k += 1;
        }
        assert(out@.subrange(0, n as int) =~= relabel(h));
        sort_desc(&mut out, n);
        proof {
            let sorted = out@.subrange(0, n as int);
            let leq = desc_order();
            assert(total_ordering(leq));
            relabel(h).lemma_sort_by_ensures(leq);
            vstd::seq_lib::lemma_sorted_unique(sorted, relabel(h).sort_by(leq), leq);
            assert forall|j: int| n <= j < 7 implies (#[trigger] out[j]).0 == NO_CARD by {
                assert(out@.subrange(n as int, 7)[j - n] == out[j]);
            }
            assert forall|j: int| 0 <= j < n implies (#[trigger] out[j]).0 < 52 by {
                let sub = out@.subrange(0, n as int);
                assert(sub[j] == out[j]);
                assert(sub.contains(out[j]));
                assert(sub.to_multiset().count(out[j]) > 0);
                assert(relabel(h).contains(out[j]));
                let i = choose|i: int| 0 <= i < relabel(h).len() && relabel(h)[i] == out[j];
                lemma_targets_permute(h);
                assert(h[i].0 < 52);
            }
        }
        self.cards = out;
    }

    /// This set, canonicalised.
    #[inline]
    pub fn as_canonical(self) -> (r: CardSet)
        requires
            self.wf(),
            all_real(self@),
        ensures
            r.wf(),
            r.size == self.size,
            r@ == canonical(self@),
            all_real(r@),
    {
        let mut cs = self;
        cs.canonicalize();
        cs
    }
}

} // verus!
