use vstd::prelude::*;
use crate::card::{Card, rank_of, suit_of};
use crate::card_set::CardSet;

verus! {

pub const HIGH_CARD_START: i32 = 1;
pub const PAIR_START: i32 = 0x100000;
pub const TWO_PAIR_START: i32 = 0x200000;
pub const THREE_OF_KIND_START: i32 = 0x300000;
pub const STRAIGHT_START: i32 = 0x400000;
pub const FLUSH_START: i32 = 0x500000;
pub const FULL_HOUSE_START: i32 = 0x600000;
pub const FOUR_OF_KIND_START: i32 = 0x700000;
pub const STRAIGHT_FLUSH_START: i32 = 0x800000;

/// Number of cards of rank `r` in `h`.
pub open spec fn count_rank(h: Seq<Card>, r: int) -> nat
    decreases h.len(),
{
    if h.len() == 0 {
        0
    } else {
        count_rank(h.drop_last(), r) + if rank_of(h.last().0) == r { 1nat } else { 0nat }
    }
}

/// Number of cards of suit `s` and rank `r` in `h`.
pub open spec fn count_suited_rank(h: Seq<Card>, s: int, r: int) -> nat
    decreases h.len(),
{
    if h.len() == 0 {
        0
    } else {
        count_suited_rank(h.drop_last(), s, r) + if rank_of(h.last().0) == r && suit_of(
            h.last().0,
        ) == s {
            1nat
        } else {
            0nat
        }
    }
}

/// The ranks that occur in `h`.
pub open spec fn ranks_present(h: Seq<Card>) -> Seq<bool> {
    Seq::new(13, |r: int| count_rank(h, r) > 0)
}

/// The ranks that occur in `h` with suit 3, the suit that canonicalisation
/// gives to a flush.
pub open spec fn flush_ranks_present(h: Seq<Card>) -> Seq<bool> {
    Seq::new(13, |r: int| count_suited_rank(h, 3, r) > 0)
}

/// The ranks that occur exactly `n` times in `h`.
pub open spec fn ranks_with_count(h: Seq<Card>, n: nat) -> Seq<bool> {
    Seq::new(13, |r: int| count_rank(h, r) == n)
}

/// The ranks that occur at least twice in `h`.
pub open spec fn ranks_paired(h: Seq<Card>) -> Seq<bool> {
    Seq::new(13, |r: int| count_rank(h, r) >= 2)
}

/// Among the ranks up to `from` marked in `p`, leaving out `a` and `b`, the
/// one in place `k` counting down from the highest; `-1` when there are
/// not that many.
pub open spec fn kth_rank(p: Seq<bool>, a: int, b: int, from: int, k: nat) -> int
    decreases from + 1,
{
    if from < 0 {
        -1
    } else if p[from] && from != a && from != b {
        if k == 0 {
            from
        } else {
            kth_rank(p, a, b, from - 1, (k - 1) as nat)
        }
    } else {
        kth_rank(p, a, b, from - 1, k)
    }
}

/// With nothing marked up to `from`, there is no rank to pick.
proof fn lemma_kth_rank_none(p: Seq<bool>, a: int, b: int, from: int, k: nat)
    requires
        forall|r: int| 0 <= r <= from ==> !(#[trigger] p[r]),
    ensures
        kth_rank(p, a, b, from, k) == -1,
    decreases from + 1,
{
    if from >= 0 {
        lemma_kth_rank_none(p, a, b, from - 1, k);
    }
}

/// The highest rank marked in `p` other than `a` and `b`, `-1` for none.
pub open spec fn top_rank(p: Seq<bool>, a: int, b: int, k: nat) -> int {
    kth_rank(p, a, b, 12, k)
}

/// Five ranks in a row from `l` up are all marked.
pub open spec fn run_of_five(p: Seq<bool>, l: int) -> bool {
    p[l] && p[l + 1] && p[l + 2] && p[l + 3] && p[l + 4]
}

/// The lowest rank of the highest run of five at or below `l`, `-1` for none.
pub open spec fn best_run(p: Seq<bool>, l: int) -> int
    decreases l + 1,
{
    if l < 0 {
        -1
    } else if run_of_five(p, l) {
        l
    } else {
        best_run(p, l - 1)
    }
}

/// Score of the best straight in the ranks marked by `p`: one more than its
/// lowest rank, `0` for ace-to-five, `-1` when there is none.
pub open spec fn straight_score(p: Seq<bool>) -> int {
    if best_run(p, 8) >= 0 {
        best_run(p, 8) + 1
    } else if p[12] && p[0] && p[1] && p[2] && p[3] {
        0
    } else {
        -1
    }
}

/// Positional weighting of five ranks, highest first.
pub open spec fn five_weight(r0: int, r1: int, r2: int, r3: int, r4: int) -> int {
    11880 * r0 + 990 * r1 + 90 * r2 + 9 * r3 + r4
}

/// Value of a hand without five cards of suit 3.
pub open spec fn plain_value(h: Seq<Card>) -> int {
    let present = ranks_present(h);
    let quad = top_rank(ranks_with_count(h, 4), -1, -1, 0);
    let three = top_rank(ranks_with_count(h, 3), -1, -1, 0);
    let pair_hi = top_rank(ranks_paired(h), three, -1, 0);
    if quad >= 0 {
        FOUR_OF_KIND_START + 13 * quad + top_rank(present, quad, -1, 0)
    } else if three >= 0 && pair_hi >= 0 {
        FULL_HOUSE_START + 13 * three + pair_hi
    } else if straight_score(present) >= 0 {
        STRAIGHT_START + straight_score(present)
    } else if three >= 0 {
        THREE_OF_KIND_START + 156 * three + 12 * top_rank(present, three, -1, 0) + top_rank(
            present,
            three,
            -1,
            1,
        )
    } else if pair_hi >= 0 {
        let pair_lo = top_rank(ranks_paired(h), -1, -1, 1);
        if pair_lo >= 0 {
            TWO_PAIR_START + 156 * (pair_hi - 1) + 13 * pair_lo + top_rank(
                present,
                pair_hi,
                pair_lo,
                0,
            )
        } else {
            PAIR_START + 1716 * pair_hi + 132 * top_rank(present, pair_hi, -1, 0) + 11 * top_rank(
                present,
                pair_hi,
                -1,
                1,
            ) + top_rank(present, pair_hi, -1, 2)
        }
    } else {
        HIGH_CARD_START + five_weight(
            top_rank(present, -1, -1, 0),
            top_rank(present, -1, -1, 1),
            top_rank(present, -1, -1, 2),
            top_rank(present, -1, -1, 3),
            top_rank(present, -1, -1, 4),
        )
    }
}

/// Value of a seven-card hand in canonical order: when its fifth card has suit 3 the hand is a flush (or a straight flush) in that suit,
/// otherwise ranks alone decide. Stronger hands get larger values; the value
/// divided by 2^20 is the category, from high card (0) to straight flush (8).
pub open spec fn hand_value(h: Seq<Card>) -> int {
    if suit_of(h[4].0) == 3 {
        let s = straight_score(flush_ranks_present(h));
        if s >= 0 {
            STRAIGHT_FLUSH_START + s
        } else {
            FLUSH_START + five_weight(
                rank_of(h[0].0),
                rank_of(h[1].0),
                rank_of(h[2].0),
                rank_of(h[3].0),
                rank_of(h[4].0),
            )
        }
    } else {
        plain_value(h)
    }
}

/// The ranks whose bits are set in `m`.
pub open spec fn bits_of(m: u16) -> Seq<bool> {
    Seq::new(13, |r: int| (m >> (r as u16)) & 1u16 == 1u16)
}

/// Ranks above `to` up to `from` that are not marked do not change the pick.
proof fn lemma_kth_rank_skip(p: Seq<bool>, a: int, b: int, from: int, to: int, k: nat)
    requires
        -1 <= to <= from,
        forall|x: int| to < x <= from ==> !(#[trigger] p[x]),
    ensures
        kth_rank(p, a, b, from, k) == kth_rank(p, a, b, to, k),
    decreases from - to,
{
    if from > to {
        lemma_kth_rank_skip(p, a, b, from - 1, to, k);
    }
}

/// Leaving out `a` and `b` is the same as unmarking them.
proof fn lemma_kth_rank_unmark(p: Seq<bool>, q: Seq<bool>, a: int, b: int, from: int, k: nat)
    requires
        from <= 12,
        forall|x: int| 0 <= x <= 12 ==> (#[trigger] q[x]) == (p[x] && x != a && x != b),
    ensures
        kth_rank(p, a, b, from, k) == kth_rank(q, -1, -1, from, k),
    decreases from + 1,
{
    if from >= 0 {
        if k > 0 {
            lemma_kth_rank_unmark(p, q, a, b, from - 1, (k - 1) as nat);
        }
        lemma_kth_rank_unmark(p, q, a, b, from - 1, k);
    }
}

proof fn lemma_bit_set_or(x: u16, y: u16, k: u16, r: u16)
    requires
        k < 16,
        r < 16,
    ensures
        (((x | (y & (1u16 << k))) >> r) & 1u16 == 1u16) == if r == k {
            (x >> r) & 1u16 == 1u16 || (y >> r) & 1u16 == 1u16
        } else {
            (x >> r) & 1u16 == 1u16
        },
        (((x | (1u16 << k)) >> r) & 1u16 == 1u16) == (r == k || (x >> r) & 1u16 == 1u16),
{
    assert((((x | (y & (1u16 << k))) >> r) & 1u16 == 1u16) == if r == k {
        (x >> r) & 1u16 == 1u16 || (y >> r) & 1u16 == 1u16
    } else {
        (x >> r) & 1u16 == 1u16
    }) by (bit_vector)
        requires
            k < 16,
            r < 16,
    ;
    assert((((x | (1u16 << k)) >> r) & 1u16 == 1u16) == (r == k || (x >> r) & 1u16 == 1u16)) by (bit_vector)
        requires
            k < 16,
            r < 16,
    ;
}

proof fn lemma_bit_set_one_bounded(x: u16, k: u16)
    requires
        k < 13,
        x >> 13u16 == 0,
    ensures
        (x | (1u16 << k)) >> 13u16 == 0,
{
    assert((x | (1u16 << k)) >> 13u16 == 0) by (bit_vector)
        requires
            k < 13,
            x >> 13u16 == 0,
    ;
}

proof fn lemma_bit_clear(x: u16, k: u16, r: u16)
    requires
        k < 16,
        r < 16,
    ensures
        ((x & !(1u16 << k)) >> r) & 1u16 == if r == k { 0u16 } else { (x >> r) & 1u16 },
        x >> 13u16 == 0 ==> (x & !(1u16 << k)) >> 13u16 == 0,
{
    assert(((x & !(1u16 << k)) >> r) & 1u16 == if r == k { 0u16 } else { (x >> r) & 1u16 }) by (bit_vector)
        requires
            k < 16,
            r < 16,
    ;
    assert(x >> 13u16 == 0 ==> (x & !(1u16 << k)) >> 13u16 == 0) by (bit_vector);
}

proof fn lemma_bit_is_one(x: u16, r: u16)
    ensures
        (x >> r) & 1u16 == 1u16 || (x >> r) & 1u16 == 0u16,
{
    assert((x >> r) & 1u16 == 1u16 || (x >> r) & 1u16 == 0u16) by (bit_vector);
}

proof fn lemma_high_bits_clear(x: u16, r: u16)
    requires
        x >> 13u16 == 0,
        13 <= r < 16,
    ensures
        (x >> r) & 1u16 == 0u16,
{
    assert(x >> 13u16 == 0 && 13 <= r < 16 ==> (x >> r) & 1u16 == 0u16) by (bit_vector);
}

proof fn lemma_bit_set_bounded(x: u16, y: u16, k: u16)
    requires
        k < 13,
        x >> 13u16 == 0,
    ensures
        (x | (y & (1u16 << k))) >> 13u16 == 0,
{
    assert((x | (y & (1u16 << k))) >> 13u16 == 0) by (bit_vector)
        requires
            k < 13,
            x >> 13u16 == 0,
    ;
}

proof fn lemma_bit_and_not(x: u16, y: u16, r: u16)
    ensures
        (((x & !y) >> r) & 1u16 == 1u16) == ((x >> r) & 1u16 == 1u16 && (y >> r) & 1u16 != 1u16),
        x >> 13u16 == 0 ==> (x & !y) >> 13u16 == 0,
{
    assert((((x & !y) >> r) & 1u16 == 1u16) == ((x >> r) & 1u16 == 1u16 && (y >> r) & 1u16 != 1u16)) by (bit_vector);
    assert(x >> 13u16 == 0 ==> (x & !y) >> 13u16 == 0) by (bit_vector);
}

proof fn lemma_runs_mask(m: u16, l: u16)
    requires
        m >> 13u16 == 0,
        l < 13,
    ensures
        (((m & (m >> 1u16) & (m >> 2u16) & (m >> 3u16) & (m >> 4u16)) >> l) & 1u16 == 1u16) == (l <= 8
            && (m >> l) & 1u16 == 1u16 && (m >> (l + 1) as u16) & 1u16 == 1u16 && (m >> (l + 2) as u16)
            & 1u16 == 1u16 && (m >> (l + 3) as u16) & 1u16 == 1u16 && (m >> (l + 4) as u16) & 1u16 == 1u16),
        (m & (m >> 1u16) & (m >> 2u16) & (m >> 3u16) & (m >> 4u16)) >> 13u16 == 0,
{
    assert((((m & (m >> 1u16) & (m >> 2u16) & (m >> 3u16) & (m >> 4u16)) >> l) & 1u16 == 1u16) == (l <= 8
        && (m >> l) & 1u16 == 1u16 && (m >> (l + 1) as u16) & 1u16 == 1u16 && (m >> (l + 2) as u16)
        & 1u16 == 1u16 && (m >> (l + 3) as u16) & 1u16 == 1u16 && (m >> (l + 4) as u16) & 1u16 == 1u16)) by (bit_vector)
        requires
            m >> 13u16 == 0,
            l < 13,
    ;
    assert((m & (m >> 1u16) & (m >> 2u16) & (m >> 3u16) & (m >> 4u16)) >> 13u16 == 0) by (bit_vector)
        requires
            m >> 13u16 == 0,
    ;
}

proof fn lemma_wheel_mask(m: u16)
    ensures
        ((m & 0x100fu16) == 0x100fu16) == ((m >> 12u16) & 1u16 == 1u16 && (m >> 0u16) & 1u16 == 1u16
            && (m >> 1u16) & 1u16 == 1u16 && (m >> 2u16) & 1u16 == 1u16 && (m >> 3u16) & 1u16 == 1u16),
{
    assert(((m & 0x100fu16) == 0x100fu16) == ((m >> 12u16) & 1u16 == 1u16 && (m >> 0u16) & 1u16 == 1u16
        && (m >> 1u16) & 1u16 == 1u16 && (m >> 2u16) & 1u16 == 1u16 && (m >> 3u16) & 1u16 == 1u16)) by (bit_vector);
}

/// The highest start of a run of five, read off the marks of the starts.
proof fn lemma_best_run_marks(p: Seq<bool>, q: Seq<bool>, from: int)
    requires
        -1 <= from <= 12,
        forall|l: int| 0 <= l <= 12 ==> (#[trigger] q[l]) == (l <= 8 && run_of_five(p, l)),
    ensures
        kth_rank(q, -1, -1, from, 0) == best_run(p, if from > 8 { 8 } else { from }),
    decreases from + 1,
{
    if from >= 0 {
        lemma_best_run_marks(p, q, from - 1);
    }
}

proof fn lemma_zero_bits(r: u16)
    ensures
        (0u16 >> r) & 1u16 == 0u16,
{
    assert((0u16 >> r) & 1u16 == 0u16) by (bit_vector);
}

/// The first `k` (up to five) set bits of `m`, from the top; `-1` pads.
#[inline]
fn top_bits(m: u16, k: usize) -> (r: [i32; 5])
    requires
        k <= 5,
        m >> 13u16 == 0,
    ensures
        forall|j: int| 0 <= j < k ==> (#[trigger] r[j]) == kth_rank(bits_of(m), -1, -1, 12, j as nat),
        forall|j: int| 0 <= j < 5 ==> -1 <= #[trigger] r[j] <= 12,
{
    broadcast use vstd::std_specs::bits::axiom_u16_leading_zeros;

    let ghost q = bits_of(m);
    let mut rest = m;
    let mut out: [i32; 5] = [-1; 5];
    let mut found: usize = 0;
    let ghost mut lim: int = 13;
    while found < k && rest != 0
        invariant
            found <= k <= 5,
            0 <= lim <= 13,
            q == bits_of(m),
            rest >> 13u16 == 0,
            forall|x: int| 0 <= x < 13 ==> #[trigger] bits_of(rest)[x] == (q[x] && x < lim),
            forall|j: int| 0 <= j < found ==> (#[trigger] out[j]) == kth_rank(q, -1, -1, 12, j as nat),
            forall|j: int| found <= j < 5 ==> #[trigger] kth_rank(q, -1, -1, 12, j as nat)
                == kth_rank(q, -1, -1, lim - 1, (j - found) as nat),
            forall|j: int| 0 <= j < 5 ==> -1 <= #[trigger] out[j] <= 12,
            forall|j: int| found <= j < 5 ==> #[trigger] out[j] == -1,
        decreases lim,
    {
        let zeros = rest.leading_zeros();
        let top: u16 = 15 - zeros as u16;
        proof {
            assert(top < 13) by {
                if top >= 13 {
                    lemma_high_bits_clear(rest, top);
                }
            }
            assert((rest >> top) & 1u16 != 0u16);
            lemma_bit_is_one(rest, top);
            assert(bits_of(rest)[top as int]);
            assert forall|x: int| top < x <= lim - 1 implies !(#[trigger] q[x]) by {
                if q[x] {
                    assert(bits_of(rest)[x]);
                    assert((rest >> (x as u16)) & 1u16 == 0u16);
                }
            }
            lemma_kth_rank_skip(q, -1, -1, lim - 1, top as int, 0);
            assert forall|j: int| found < j < 5 implies #[trigger] kth_rank(q, -1, -1, 12, j as nat)
                == kth_rank(q, -1, -1, top - 1, (j - found - 1) as nat) by {
                lemma_kth_rank_skip(q, -1, -1, lim - 1, top as int, (j - found) as nat);
            }
            assert forall|x: int| 0 <= x < 13 implies #[trigger] bits_of(rest & !(1u16 << top))[x] == (q[x] && x < top) by {
                lemma_bit_clear(rest, top, x as u16);
                assert(bits_of(rest)[x] == (q[x] && x < lim));
                if top < x < lim {
                    assert(!q[x]);
                }
                lemma_bit_is_one(rest, x as u16);
                lemma_bit_is_one(rest & !(1u16 << top), x as u16);
            }
            lemma_bit_clear(rest, top, 0);
        }
        out[found] = top as i32;
        found += 1;
        rest = rest & !(1u16 << top);
        proof {
            lim = top as int;
        }
    }
    proof {
        if rest == 0 {
            assert forall|x: int| 0 <= x <= lim - 1 implies !(#[trigger] q[x]) by {
                assert(bits_of(rest)[x] == (q[x] && x < lim));
                lemma_zero_bits(x as u16);
            }
            assert forall|j: int| found <= j < 5 implies #[trigger] kth_rank(q, -1, -1, 12, j as nat) == -1 by {
                lemma_kth_rank_none(q, -1, -1, lim - 1, (j - found) as nat);
            }
        }
    }
    out
}

/// Score of the best straight in the marked ranks, as [`straight_score`].
#[inline]
fn flush_straight_in(p: &[bool; 13]) -> (r: i32)
    ensures
        r == straight_score(p@),
        -1 <= r <= 9,
{
    let mut l: i32 = 8;
    while l >= 0
        invariant
            -1 <= l <= 8,
            best_run(p@, 8) == best_run(p@, l as int),
        decreases l + 1,
    {
        let lu = l as usize;
        if p[lu] && p[lu + 1] && p[lu + 2] && p[lu + 3] && p[lu + 4] {
            return l + 1;
        }
        l -= 1;
    }
    if p[12] && p[0] && p[1] && p[2] && p[3] {
        0
    } else {
        -1
    }
}

impl CardSet {
    /// Ranks a seven-card hand (see [`hand_value`]). The value is meaningful
    /// for a canonical set, where a flush sits in suit 3 at the front: there
    /// the stronger of two hands gets the larger value.
    #[inline]
    pub fn evaluate(&self) -> (r: i32)
        requires
            self.wf(),
            self@.len() == 7,
        ensures
            r == hand_value(self@),
    {
        let ghost h = self@;
        let mut counts: [u8; 13] = [0; 13];
        // bit r of m<k> is set when rank r occurs at least k times
        let mut m1: u16 = 0;
        let mut m2: u16 = 0;
        let mut m3: u16 = 0;
        let mut m4: u16 = 0;
        let mut m5: u16 = 0;
        let mut i: usize = 0;
        proof {
            assert forall|r: int| 0 <= r < 13 implies !(#[trigger] bits_of(0u16)[r]) by {
                lemma_zero_bits(r as u16);
            }
            assert(0u16 >> 13u16 == 0) by (bit_vector);
        }
        while i < 7
            invariant
                self.wf(),
                h == self@,
                h.len() == 7,
                i <= 7,
                forall|r: int| 0 <= r < 13 ==> (#[trigger] counts[r]) == count_rank(h.take(i as int), r),
                forall|r: int| 0 <= r < 13 ==> (#[trigger] counts[r]) <= i,
                forall|r: int| 0 <= r < 13 ==> (#[trigger] bits_of(m1)[r]) == (counts[r] >= 1),
                forall|r: int| 0 <= r < 13 ==> (#[trigger] bits_of(m2)[r]) == (counts[r] >= 2),
                forall|r: int| 0 <= r < 13 ==> (#[trigger] bits_of(m3)[r]) == (counts[r] >= 3),
                forall|r: int| 0 <= r < 13 ==> (#[trigger] bits_of(m4)[r]) == (counts[r] >= 4),
                forall|r: int| 0 <= r < 13 ==> (#[trigger] bits_of(m5)[r]) == (counts[r] >= 5),
                m1 >> 13u16 == 0,
                m2 >> 13u16 == 0,
                m3 >> 13u16 == 0,
                m4 >> 13u16 == 0,
                m5 >> 13u16 == 0,
            decreases 7 - i,
        {
            let c = self.cards[i];
            assert(c == h[i as int]);
            let rank = c.rank();
            let bit: u16 = 1u16 << (rank as u16);
            proof {
                let k = rank as u16;
                assert forall|r: int| 0 <= r < 13 implies {
                    &&& (#[trigger] bits_of(m1 | bit)[r]) == (r == rank || bits_of(m1)[r])
                    &&& bits_of(m2 | (m1 & bit))[r] == (if r == rank { bits_of(m2)[r] || bits_of(m1)[r] } else { bits_of(m2)[r] })
                    &&& bits_of(m3 | (m2 & bit))[r] == (if r == rank { bits_of(m3)[r] || bits_of(m2)[r] } else { bits_of(m3)[r] })
                    &&& bits_of(m4 | (m3 & bit))[r] == (if r == rank { bits_of(m4)[r] || bits_of(m3)[r] } else { bits_of(m4)[r] })
                    &&& bits_of(m5 | (m4 & bit))[r] == (if r == rank { bits_of(m5)[r] || bits_of(m4)[r] } else { bits_of(m5)[r] })
                } by {
                    let ru = r as u16;
                    lemma_bit_set_or(m1, m1, k, ru);
                    lemma_bit_set_or(m2, m1, k, ru);
                    lemma_bit_set_or(m3, m2, k, ru);
                    lemma_bit_set_or(m4, m3, k, ru);
                    lemma_bit_set_or(m5, m4, k, ru);
                }
                lemma_bit_set_one_bounded(m1, k);
                lemma_bit_set_bounded(m2, m1, k);
                lemma_bit_set_bounded(m3, m2, k);
                lemma_bit_set_bounded(m4, m3, k);
                lemma_bit_set_bounded(m5, m4, k);
                assert forall|r: int| 0 <= r < 13 implies (#[trigger] bits_of(m2 | (m1 & bit))[r]) == (if r == rank { bits_of(m2)[r] || bits_of(m1)[r] } else { bits_of(m2)[r] }) by {
                    lemma_bit_set_or(m2, m1, k, r as u16);
                }
                assert forall|r: int| 0 <= r < 13 implies (#[trigger] bits_of(m3 | (m2 & bit))[r]) == (if r == rank { bits_of(m3)[r] || bits_of(m2)[r] } else { bits_of(m3)[r] }) by {
                    lemma_bit_set_or(m3, m2, k, r as u16);
                }
                assert forall|r: int| 0 <= r < 13 implies (#[trigger] bits_of(m4 | (m3 & bit))[r]) == (if r == rank { bits_of(m4)[r] || bits_of(m3)[r] } else { bits_of(m4)[r] }) by {
                    lemma_bit_set_or(m4, m3, k, r as u16);
                }
                assert forall|r: int| 0 <= r < 13 implies (#[trigger] bits_of(m5 | (m4 & bit))[r]) == (if r == rank { bits_of(m5)[r] || bits_of(m4)[r] } else { bits_of(m5)[r] }) by {
                    lemma_bit_set_or(m5, m4, k, r as u16);
                }
            }
            m5 = m5 | (m4 & bit);
            m4 = m4 | (m3 & bit);
            m3 = m3 | (m2 & bit);
            m2 = m2 | (m1 & bit);
            m1 = m1 | bit;
            counts[rank as usize] = counts[rank as usize] + 1;
            assert(h.take(i + 1).drop_last() =~= h.take(i as int));
            i += 1;
        }
        assert(h.take(7) =~= h);
        if self.cards[4].suit() == 3 {
            let mut flush_present: [bool; 13] = [false; 13];
            let mut i: usize = 0;
            while i < 7
                invariant
                    self.wf(),
                    h == self@,
                    h.len() == 7,
                    i <= 7,
                    forall|r: int| 0 <= r < 13 ==> (#[trigger] flush_present[r]) == (count_suited_rank(h.take(i as int), 3, r) > 0),
                decreases 7 - i,
            {
                let c = self.cards[i];
                assert(c == h[i as int]);
                let rank = c.rank() as usize;
                if c.suit() == 3 {
                    flush_present[rank] = true;
                }
                assert(h.take(i + 1).drop_last() =~= h.take(i as int));
                i += 1;
            }
            assert(flush_present@ =~= flush_ranks_present(h));
            let s = flush_straight_in(&flush_present);
            if s >= 0 {
                return STRAIGHT_FLUSH_START + s;
            }
            return FLUSH_START + 11880 * (self.cards[0].rank() as i32) + 990 * (
            self.cards[1].rank() as i32) + 90 * (self.cards[2].rank() as i32) + 9 * (
            self.cards[3].rank() as i32) + (self.cards[4].rank() as i32);
        }
        let quads = m4 & !m5;
        let trips = m3 & !m4;
        proof {
            assert forall|r: int| 0 <= r < 13 implies (#[trigger] bits_of(quads)[r]) == (counts[r] == 4) by {
                lemma_bit_and_not(m4, m5, r as u16);
                assert(bits_of(m4)[r] == (counts[r] >= 4));
                assert(bits_of(m5)[r] == (counts[r] >= 5));
            }
            assert forall|r: int| 0 <= r < 13 implies (#[trigger] bits_of(trips)[r]) == (counts[r] == 3) by {
                lemma_bit_and_not(m3, m4, r as u16);
                assert(bits_of(m4)[r] == (counts[r] >= 4));
                assert(bits_of(m3)[r] == (counts[r] >= 3));
            }
            lemma_bit_and_not(m4, m5, 0);
            lemma_bit_and_not(m3, m4, 0);
            assert(bits_of(m1) =~= ranks_present(h));
            assert(bits_of(quads) =~= ranks_with_count(h, 4));
            assert(bits_of(trips) =~= ranks_with_count(h, 3));
            assert(bits_of(m2) =~= ranks_paired(h));
        }
        let ghost present = ranks_present(h);
        let quad = top_bits(quads, 1)[0];
        if quad >= 0 {
            let rest = m1 & !(1u16 << (quad as u16));
            proof {
                assert forall|x: int| 0 <= x <= 12 implies (#[trigger] bits_of(rest)[x]) == (present[x] && x != quad && x != -1) by {
                    lemma_bit_clear(m1, quad as u16, x as u16);
                    lemma_bit_is_one(m1, x as u16);
                    lemma_bit_is_one(rest, x as u16);
                }
                lemma_bit_clear(m1, quad as u16, 0);
                lemma_kth_rank_unmark(present, bits_of(rest), quad as int, -1, 12, 0);
            }
            let kicker = top_bits(rest, 1)[0];
            return FOUR_OF_KIND_START + 13 * quad + kicker;
        }
        let straights = m1 & (m1 >> 1u16) & (m1 >> 2u16) & (m1 >> 3u16) & (m1 >> 4u16);
        proof {
            assert forall|l: int| 0 <= l <= 12 implies (#[trigger] bits_of(straights)[l]) == (l <= 8 && run_of_five(present, l)) by {
                lemma_runs_mask(m1, l as u16);
                if l <= 8 {
                    assert(present[l] == bits_of(m1)[l]);
                    assert(present[l + 1] == bits_of(m1)[l + 1]);
                    assert(present[l + 2] == bits_of(m1)[l + 2]);
                    assert(present[l + 3] == bits_of(m1)[l + 3]);
                    assert(present[l + 4] == bits_of(m1)[l + 4]);
                }
            }
            lemma_runs_mask(m1, 0);
            lemma_best_run_marks(present, bits_of(straights), 12);
            lemma_wheel_mask(m1);
            assert(present[12] == bits_of(m1)[12]);
            assert(present[0] == bits_of(m1)[0]);
            assert(present[1] == bits_of(m1)[1]);
            assert(present[2] == bits_of(m1)[2]);
            assert(present[3] == bits_of(m1)[3]);
        }
        let best = top_bits(straights, 1)[0];
        let straight: i32 = if best >= 0 {
            best + 1
        } else if m1 & 0x100fu16 == 0x100fu16 {
            0
        } else {
            -1
        };
        let three = top_bits(trips, 1)[0];
        if three >= 0 {
            let others = m2 & !(1u16 << (three as u16));
            let rest = m1 & !(1u16 << (three as u16));
            proof {
                assert forall|x: int| 0 <= x <= 12 implies (#[trigger] bits_of(others)[x]) == (ranks_paired(h)[x] && x != three && x != -1) by {
                    lemma_bit_clear(m2, three as u16, x as u16);
                    lemma_bit_is_one(m2, x as u16);
                    lemma_bit_is_one(others, x as u16);
                }
                assert forall|x: int| 0 <= x <= 12 implies (#[trigger] bits_of(rest)[x]) == (present[x] && x != three && x != -1) by {
                    lemma_bit_clear(m1, three as u16, x as u16);
                    lemma_bit_is_one(m1, x as u16);
                    lemma_bit_is_one(rest, x as u16);
                }
                lemma_bit_clear(m2, three as u16, 0);
                lemma_bit_clear(m1, three as u16, 0);
                lemma_kth_rank_unmark(ranks_paired(h), bits_of(others), three as int, -1, 12, 0);
                lemma_kth_rank_unmark(present, bits_of(rest), three as int, -1, 12, 0);
                lemma_kth_rank_unmark(present, bits_of(rest), three as int, -1, 12, 1);
            }
            let pair_hi = top_bits(others, 1)[0];
            if pair_hi >= 0 {
                return FULL_HOUSE_START + 13 * three + pair_hi;
            }
            if straight >= 0 {
                return STRAIGHT_START + straight;
            }
            let k = top_bits(rest, 2);
            return THREE_OF_KIND_START + 156 * three + 12 * k[0] + k[1];
        }
        if straight >= 0 {
            return STRAIGHT_START + straight;
        }
        let pairs = top_bits(m2, 2);
        let pair_hi = pairs[0];
        let pair_lo = pairs[1];
        if pair_hi >= 0 {
            if pair_lo >= 0 {
                let rest = m1 & !(1u16 << (pair_hi as u16)) & !(1u16 << (pair_lo as u16));
                proof {
                    let once = m1 & !(1u16 << (pair_hi as u16));
                    assert forall|x: int| 0 <= x <= 12 implies (#[trigger] bits_of(rest)[x]) == (present[x] && x != pair_hi && x != pair_lo) by {
                        lemma_bit_clear(m1, pair_hi as u16, x as u16);
                        lemma_bit_clear(once, pair_lo as u16, x as u16);
                        lemma_bit_is_one(m1, x as u16);
                        lemma_bit_is_one(once, x as u16);
                        lemma_bit_is_one(rest, x as u16);
                    }
                    lemma_bit_clear(m1, pair_hi as u16, 0);
                    lemma_bit_clear(once, pair_lo as u16, 0);
                    lemma_kth_rank_unmark(present, bits_of(rest), pair_hi as int, pair_lo as int, 12, 0);
                }
                let k = top_bits(rest, 1);
                return TWO_PAIR_START + 156 * (pair_hi - 1) + 13 * pair_lo + k[0];
            }
            let rest = m1 & !(1u16 << (pair_hi as u16));
            proof {
                assert forall|x: int| 0 <= x <= 12 implies (#[trigger] bits_of(rest)[x]) == (present[x] && x != pair_hi && x != -1) by {
                    lemma_bit_clear(m1, pair_hi as u16, x as u16);
                    lemma_bit_is_one(m1, x as u16);
                    lemma_bit_is_one(rest, x as u16);
                }
                lemma_bit_clear(m1, pair_hi as u16, 0);
                lemma_kth_rank_unmark(present, bits_of(rest), pair_hi as int, -1, 12, 0);
                lemma_kth_rank_unmark(present, bits_of(rest), pair_hi as int, -1, 12, 1);
                lemma_kth_rank_unmark(present, bits_of(rest), pair_hi as int, -1, 12, 2);
            }
            let k = top_bits(rest, 3);
            return PAIR_START + 1716 * pair_hi + 132 * k[0] + 11 * k[1] + k[2];
        }
        let k = top_bits(m1, 5);
        HIGH_CARD_START + 11880 * k[0] + 990 * k[1] + 90 * k[2] + 9 * k[3] + k[4]
    }
}

} // verus!
