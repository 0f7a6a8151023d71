//! Scratchcards: each card lists winning numbers and held numbers.  A
//! card's matches double its score, and in the second reading each match
//! wins a copy of the following cards.

use vstd::prelude::*;
use vstd::string::StringSliceAdditionalSpecFns;

use crate::oasis::pot;
use crate::scan::{all_digits, digits_val, parse_u64, split_bytes, split_on, trim_space};

verus! {

/// A card, reduced to the numbers that appear on both of its halves.
pub type Card = Vec<u64>;

/// A number list as mathematical integers.
pub open spec fn as_ints(s: Seq<u64>) -> Seq<int> {
    s.map_values(|u: u64| u as int)
}

/// The whitespace-separated numeric tokens of a byte string; fails when a
/// non-empty token is not a number.
pub open spec fn spec_tokens(pieces: Seq<Seq<u8>>) -> Option<Seq<int>>
    decreases pieces.len(),
{
    if pieces.len() == 0 {
        Some(Seq::empty())
    } else {
        match spec_tokens(pieces.drop_last()) {
            Some(acc) => {
                let p = pieces.last();
                if p.len() == 0 {
                    Some(acc)
                } else if all_digits(p) && digits_val(p) <= u64::MAX {
                    Some(acc.push(digits_val(p)))
                } else {
                    None
                }
            },
            None => None,
        }
    }
}

proof fn lemma_tokens_none(pieces: Seq<Seq<u8>>, i: int)
    requires
        0 <= i <= pieces.len(),
        spec_tokens(pieces.take(i)) is None,
    ensures
        spec_tokens(pieces) is None,
    decreases pieces.len() - i,
{
    if i < pieces.len() {
        assert(pieces.take(i + 1).drop_last() =~= pieces.take(i));
        lemma_tokens_none(pieces, i + 1);
    } else {
        assert(pieces.take(i) =~= pieces);
    }
}

/// Parse a space-separated list of numbers into a duplicate-free list: a
/// value is in the result exactly when some token denotes it.
pub fn number_list(s: &str) -> (r: Option<Vec<u64>>)
    ensures
        match r {
            Some(ns) => spec_tokens(split_on(s.spec_bytes(), 32)) matches Some(ts) && (forall|
                v: int,
            |
                ts.contains(v) <==> as_ints(ns@).contains(v)) && (forall|i: int, j: int|
                0 <= i < j < ns@.len() ==> ns@[i] != ns@[j]),
            None => spec_tokens(split_on(s.spec_bytes(), 32)) is None,
        },
{
    let pieces = split_bytes(s.as_bytes(), 32);
    proof {
        crate::crucible::lemma_grid_deep_view(&pieces);
    }
    let mut ns: Vec<u64> = Vec::new();
    let mut i: usize = 0;
    #[verifier::loop_isolation(false)]
    while i < pieces.len()
        invariant
            0 <= i <= pieces@.len(),
            spec_tokens(pieces.deep_view().take(i as int)) matches Some(ts) && (forall|v: int|
                ts.contains(v) <==> as_ints(ns@).contains(v)) && (forall|t: int, j: int|
                0 <= t < j < ns@.len() ==> ns@[t] != ns@[j]),
        decreases pieces@.len() - i,
    {
        proof {
            assert(pieces.deep_view().take(i + 1).drop_last() =~= pieces.deep_view().take(
                i as int,
            ));
            assert(pieces.deep_view().take(i + 1).last() == pieces.deep_view()[i as int]);
        }
        let ghost ts0 = spec_tokens(pieces.deep_view().take(i as int)).unwrap();
        let p = &pieces[i];
        if p.len() > 0 {
            let v = match parse_u64(p.as_slice()) {
                Some(v) => v,
                None => {
                    proof {
                        if all_digits(p@) && digits_val(p@) <= u64::MAX {
                            crate::scan::lemma_digits_val_nonneg(p@);
                        }
                        lemma_tokens_none(pieces.deep_view(), i + 1);
                    }
                    return None;
                },
            };
            let mut dup = false;
            let mut k: usize = 0;
            #[verifier::loop_isolation(false)]
            while k < ns.len()
                invariant
                    0 <= k <= ns@.len(),
                    dup <==> exists|t: int| 0 <= t < k && #[trigger] ns@[t] == v,
                decreases ns@.len() - k,
            {
                if ns[k] == v {
                    dup = true;
                }
                k += 1;
            }
            let ghost ns0 = ns@;
            if !dup {
                ns.push(v);
            }
            proof {
                assert forall|w: int| #![auto]
                    ts0.push(v as int).contains(w) <==> as_ints(ns@).contains(w) by {
                    if !dup {
                        assert(as_ints(ns@) =~= as_ints(ns0).push(v as int));
                    }
                    if ts0.push(v as int).contains(w) {
                        if w == v as int {
                            if dup {
                                let t = choose|t: int| 0 <= t < ns0.len() && ns0[t] == v;
                                assert(as_ints(ns@)[t] == w);
                            } else {
                                assert(as_ints(ns@).last() == w);
                            }
                        } else {
                            let t = choose|t: int| 0 <= t < ts0.len() && ts0[t] == w;
                            assert(ts0[t] == w && ts0.contains(w));
                            let u = choose|u: int|
                                0 <= u < ns0.len() && as_ints(ns0)[u] == w;
                            assert(as_ints(ns@)[u] == w);
                        }
                    }
                    if as_ints(ns@).contains(w) {
                        let u = choose|u: int| 0 <= u < ns@.len() && as_ints(ns@)[u] == w;
                        if u < ns0.len() {
                            assert(as_ints(ns0)[u] == w);
                            assert(as_ints(ns0).contains(w));
                            assert(ts0.contains(w));
                            let t = choose|t: int| 0 <= t < ts0.len() && ts0[t] == w;
                            assert(ts0.push(v as int)[t] == w);
                        } else {
                            assert(ns@[u] == v);
                            assert(ts0.push(v as int).last() == w);
                        }
                    }
                }
            }
        }
        i += 1;
    }
    proof {
        assert(pieces.deep_view().take(pieces.deep_view().len() as int) =~= pieces.deep_view());
    }
    Some(ns)
}

/// Parse one card line: the part after the colon holds the winning numbers
/// and the held numbers, separated by a bar.  The card keeps exactly the
/// numbers on both sides, without duplicates.
pub fn parse(line: &str) -> (r: Option<Card>)
    ensures
        match r {
            Some(card) => forall|i: int, j: int|
                0 <= i < j < card@.len() ==> #[trigger] card@[i] != #[trigger] card@[j],
            None => true,
        },
{
    let top = split_bytes(line.as_bytes(), 58);
    if top.len() != 2 {
        return None;
    }
    let body = trim_space(top[1].as_slice());
    let halves = split_bytes(body.as_slice(), 124);
    if halves.len() != 2 {
        return None;
    }
    let wins = match number_list_bytes(&halves[0]) {
        Some(ws) => ws,
        None => {
            return None;
        },
    };
    let have = match number_list_bytes(&halves[1]) {
        Some(hs) => hs,
        None => {
            return None;
        },
    };
    // keep the winners that are also held
    let mut card: Vec<u64> = Vec::new();
    let mut i: usize = 0;
    #[verifier::loop_isolation(false)]
    while i < wins.len()
        invariant
            0 <= i <= wins@.len(),
            forall|t: int, j: int|
                0 <= t < j < wins@.len() ==> #[trigger] wins@[t] != #[trigger] wins@[j],
            forall|t: int, j: int|
                0 <= t < j < card@.len() ==> #[trigger] card@[t] != #[trigger] card@[j],
            forall|t: int|
                0 <= t < card@.len() ==> exists|u: int|
                    0 <= u < i && #[trigger] card@[t] == wins@[u],
        decreases wins@.len() - i,
    {
        let w = wins[i];
        let mut held = false;
        let mut k: usize = 0;
        #[verifier::loop_isolation(false)]
        while k < have.len()
            invariant
                0 <= k <= have@.len(),
            decreases have@.len() - k,
        {
            if have[k] == w {
                held = true;
            }
            k += 1;
        }
        if held {
            proof {
                assert forall|t: int| 0 <= t < card@.len() implies #[trigger] card@[t] != w by {
                    let u = choose|u: int| 0 <= u < i && #[trigger] card@[t] == wins@[u];
                    assert(wins@[u] != wins@[i as int]);
                }
            }
            card.push(w);
        }
        i += 1;
    }
    Some(card)
}

/// Parse a space-separated number list from raw bytes, without duplicates.
fn number_list_bytes(bs: &Vec<u8>) -> (r: Option<Vec<u64>>)
    ensures
        match r {
            Some(ns) => forall|i: int, j: int|
                0 <= i < j < ns@.len() ==> #[trigger] ns@[i] != #[trigger] ns@[j],
            None => true,
        },
{
    let pieces = split_bytes(bs.as_slice(), 32);
    let mut ns: Vec<u64> = Vec::new();
    let mut i: usize = 0;
    #[verifier::loop_isolation(false)]
    while i < pieces.len()
        invariant
            0 <= i <= pieces@.len(),
            forall|t: int, j: int|
                0 <= t < j < ns@.len() ==> #[trigger] ns@[t] != #[trigger] ns@[j],
        decreases pieces@.len() - i,
    {
        let p = &pieces[i];
        if p.len() > 0 {
            let v = match parse_u64(p.as_slice()) {
                Some(v) => v,
                None => {
                    return None;
                },
            };
            let mut dup = false;
            let mut k: usize = 0;
            #[verifier::loop_isolation(false)]
            while k < ns.len()
                invariant
                    0 <= k <= ns@.len(),
                    dup <==> exists|t: int| 0 <= t < k && #[trigger] ns@[t] == v,
                decreases ns@.len() - k,
            {
                if ns[k] == v {
                    dup = true;
                }
                k += 1;
            }
            if !dup {
                ns.push(v);
            }
        }
        i += 1;
    }
    Some(ns)
}

/// A card's score: nothing for no match, else a point doubled for every
/// further match.
pub fn score(card: &Card) -> (r: u64)
    requires
        card@.len() <= 63,
    ensures
        r == if card@.len() == 0 {
            0int
        } else {
            pot((card@.len() - 1) as nat)
        },
{
    let n = card.len();
    if n == 0 {
        return 0;
    }
    let mut r: u64 = 1;
    let mut k: usize = 1;
    proof {
        lemma_pot_mono(0, 62);
    }
    #[verifier::loop_isolation(false)]
    while k < n
        invariant
            1 <= k <= n <= 63,
            r as int == pot((k - 1) as nat),
            r as int <= pot(62),
        decreases n - k,
    {
        proof {
            lemma_pot_le(62);
            lemma_pot_mono((k - 1) as nat, 61);
        }
        r = r * 2;
        k += 1;
    }
    r
}

proof fn lemma_pot_mono(a: nat, b: nat)
    requires
        a <= b,
    ensures
        1 <= pot(a) <= pot(b),
    decreases b - a,
{
    if a == b {
        lemma_pot_pos2(a);
    } else {
        lemma_pot_mono(a, (b - 1) as nat);
        lemma_pot_pos2(b);
    }
}

proof fn lemma_pot_pos2(n: nat)
    ensures
        pot(n) >= 1,
    decreases n,
{
    if n > 0 {
        lemma_pot_pos2((n - 1) as nat);
    }
}

proof fn lemma_pot_le(n: nat)
    requires
        n <= 62,
    ensures
        pot(n) <= 0x4000_0000_0000_0000,
{
    assert(pot(62) == 0x4000_0000_0000_0000) by {
        reveal_with_fuel(pot, 63);
    }
    lemma_pot_mono(n, 62);
}

/// The copy table after playing the first `i` cards: one copy of each card
/// to begin with, and each played card adds its own copies to the next
/// cards, one for every match.
pub open spec fn add_wins(copies: Seq<int>, i: int, k: int) -> Seq<int>
    decreases k,
{
    if k <= 0 {
        copies
    } else {
        let c1 = add_wins(copies, i, k - 1);
        if 0 <= i && i + k < c1.len() {
            c1.update(i + k, c1[i + k] + c1[i])
        } else {
            c1
        }
    }
}

/// The copy table after playing the first `i` cards.
pub open spec fn copies_after(cards: Seq<Card>, i: int) -> Seq<int>
    decreases i,
{
    if i <= 0 {
        Seq::new(cards.len(), |t: int| 1int)
    } else {
        add_wins(copies_after(cards, i - 1), i - 1, cards[i - 1]@.len() as int)
    }
}

/// Total over the copy table.
pub open spec fn copies_total(copies: Seq<int>, n: int) -> int
    decreases n,
{
    if n <= 0 {
        0
    } else {
        copies_total(copies, n - 1) + copies[n - 1]
    }
}

/// How many scratchcards are held in the end, copies included.
pub open spec fn spec_q2(cards: Seq<Card>) -> int {
    copies_total(copies_after(cards, cards.len() as int), cards.len() as int)
}

proof fn lemma_add_wins_len(copies: Seq<int>, i: int, k: int)
    ensures
        add_wins(copies, i, k).len() == copies.len(),
    decreases k,
{
    if k > 0 {
        lemma_add_wins_len(copies, i, k - 1);
    }
}

proof fn lemma_copies_len(cards: Seq<Card>, i: int)
    ensures
        copies_after(cards, i).len() == cards.len(),
    decreases i,
{
    if i > 0 {
        lemma_copies_len(cards, i - 1);
        lemma_add_wins_len(copies_after(cards, i - 1), i - 1, cards[i - 1]@.len() as int);
    }
}

proof fn lemma_add_wins_pointwise(copies: Seq<int>, i: int, k: int)
    requires
        forall|t: int| 0 <= t < copies.len() ==> #[trigger] copies[t] >= 0,
    ensures
        add_wins(copies, i, k).len() == copies.len(),
        forall|t: int|
            0 <= t < copies.len() ==> #[trigger] add_wins(copies, i, k)[t] >= copies[t],
        forall|t: int| 0 <= t < copies.len() && t <= i ==> #[trigger] add_wins(copies, i, k)[t]
            == copies[t],
    decreases k,
{
    if k > 0 {
        lemma_add_wins_pointwise(copies, i, k - 1);
    }
}

proof fn lemma_copies_pointwise(cards: Seq<Card>, i: int)
    requires
        0 <= i,
    ensures
        copies_after(cards, i).len() == cards.len(),
        forall|t: int| 0 <= t < cards.len() ==> #[trigger] copies_after(cards, i)[t] >= 1,
    decreases i,
{
    if i == 0 {
    } else {
        lemma_copies_pointwise(cards, i - 1);
        lemma_add_wins_pointwise(copies_after(cards, i - 1), i - 1, cards[i - 1]@.len() as int);
    }
}

/// Later stages only grow the table.
proof fn lemma_copies_stage_mono(cards: Seq<Card>, i: int, j: int)
    requires
        0 <= i <= j,
    ensures
        forall|t: int|
            0 <= t < cards.len() ==> #[trigger] copies_after(cards, j)[t] >= copies_after(
                cards,
                i,
            )[t],
    decreases j - i,
{
    lemma_copies_len(cards, i);
    lemma_copies_len(cards, j);
    if i < j {
        lemma_copies_stage_mono(cards, i, j - 1);
        lemma_copies_pointwise(cards, j - 1);
        lemma_add_wins_pointwise(copies_after(cards, j - 1), j - 1, cards[j - 1]@.len() as int);
    }
}

/// Every entry is at most the total of its table.
proof fn lemma_entry_le_total(copies: Seq<int>, n: int, t: int)
    requires
        0 <= t < n <= copies.len(),
        forall|u: int| 0 <= u < copies.len() ==> #[trigger] copies[u] >= 0,
    ensures
        copies[t] <= copies_total(copies, n),
        copies_total(copies, n) >= 0,
    decreases n,
{
    if n > 0 {
        if t == n - 1 {
            lemma_total_nonneg(copies, n - 1);
        } else {
            lemma_entry_le_total(copies, n - 1, t);
        }
    }
}

proof fn lemma_total_nonneg(copies: Seq<int>, n: int)
    requires
        n <= copies.len(),
        forall|u: int| 0 <= u < copies.len() ==> #[trigger] copies[u] >= 0,
    ensures
        copies_total(copies, n) >= 0,
    decreases n,
{
    if n > 0 {
        lemma_total_nonneg(copies, n - 1);
    }
}

/// Totals agree wherever the tables agree.
proof fn lemma_total_congruent(a: Seq<int>, b: Seq<int>, n: int)
    requires
        0 <= n <= a.len(),
        n <= b.len(),
        forall|t: int| 0 <= t < n ==> #[trigger] a[t] == b[t],
    ensures
        copies_total(a, n) == copies_total(b, n),
    decreases n,
{
    if n > 0 {
        lemma_total_congruent(a, b, n - 1);
    }
}

/// Play every card and count the held cards, copies included.
pub fn q2(cards: &Vec<Card>) -> (r: u64)
    requires
        forall|i: int|
            0 <= i < cards@.len() ==> i + 1 + (#[trigger] cards@[i])@.len() <= cards@.len(),
        spec_q2(cards@) <= u64::MAX,
    ensures
        r == spec_q2(cards@),
{
    let n = cards.len();
    let mut copies: Vec<u64> = Vec::new();
    let mut t: usize = 0;
    #[verifier::loop_isolation(false)]
    while t < n
        invariant
            0 <= t <= n,
            copies@.len() == t,
            forall|u: int| 0 <= u < t ==> #[trigger] copies@[u] == 1,
        decreases n - t,
    {
        copies.push(1);
        t += 1;
    }
    proof {
        lemma_copies_len(cards@, 0);
        assert(copies@.map_values(|v: u64| v as int) =~= copies_after(cards@, 0));
    }
    let ghost final_copies = copies_after(cards@, n as int);
    proof {
        lemma_copies_len(cards@, n as int);
        lemma_copies_pointwise(cards@, n as int);
        lemma_total_nonneg(final_copies, n as int);
    }
    let mut card_id: usize = 0;
    #[verifier::loop_isolation(false)]
    while card_id < n
        invariant
            0 <= card_id <= n,
            copies@.len() == n,
            copies@.map_values(|v: u64| v as int) == copies_after(cards@, card_id as int),
        decreases n - card_id,
    {
        let won = cards[card_id].len();
        let base = copies[card_id];
        let mut i: usize = 0;
        #[verifier::loop_isolation(false)]
        while i < won
            invariant
                0 <= i <= won,
                copies@.len() == n,
                card_id + 1 + won <= n,
                won == cards@[card_id as int]@.len(),
                base == copies@[card_id as int],
                copies@.map_values(|v: u64| v as int) == add_wins(
                    copies_after(cards@, card_id as int),
                    card_id as int,
                    i as int,
                ),
            decreases won - i,
        {
            let id = i + card_id + 1;
            proof {
                let cur = copies@.map_values(|v: u64| v as int);
                lemma_copies_len(cards@, card_id as int);
                lemma_add_wins_len(copies_after(cards@, card_id as int), card_id as int, i as int);
                lemma_copies_pointwise(cards@, card_id as int);
                lemma_add_wins_pointwise(
                    copies_after(cards@, card_id as int),
                    card_id as int,
                    i as int,
                );
                // the new value already appears in the next stage's table,
                // which is bounded by the final total
                assert(add_wins(copies_after(cards@, card_id as int), card_id as int, i + 1)[id
                    as int] == cur[id as int] + cur[card_id as int]);
                lemma_stage_step_bound(cards@, card_id as int, i as int, id as int);
            }
            let add = copies[id];
            copies[id] = add + base;
            proof {
                assert(copies@.map_values(|v: u64| v as int) =~= add_wins(
                    copies_after(cards@, card_id as int),
                    card_id as int,
                    i + 1,
                ));
            }
            i += 1;
        }
        proof {
            assert(copies_after(cards@, card_id + 1) == add_wins(
                copies_after(cards@, card_id as int),
                card_id as int,
                won as int,
            ));
        }
        card_id += 1;
    }
    let mut total: u64 = 0;
    let mut k: usize = 0;
    #[verifier::loop_isolation(false)]
    while k < n
        invariant
            0 <= k <= n,
            copies@.len() == n,
            copies@.map_values(|v: u64| v as int) == final_copies,
            total == copies_total(final_copies, k as int),
        decreases n - k,
    {
        proof {
            lemma_partial_total_bound(final_copies, n as int, k as int);
        }
        total = total + copies[k];
        k += 1;
    }
    total
}

/// The value written mid-stage is bounded by the final total.
proof fn lemma_stage_step_bound(cards: Seq<Card>, card_id: int, i: int, id: int)
    requires
        0 <= card_id < cards.len(),
        0 <= i,
        card_id + 1 + cards[card_id]@.len() <= cards.len(),
        i < cards[card_id]@.len(),
        id == i + card_id + 1,
        spec_q2(cards) <= u64::MAX,
    ensures
        add_wins(copies_after(cards, card_id), card_id, i + 1)[id] <= u64::MAX,
        add_wins(copies_after(cards, card_id), card_id, i + 1)[id] >= 0,
{
    let n = cards.len() as int;
    lemma_copies_len(cards, card_id);
    lemma_copies_pointwise(cards, card_id);
    let s1 = add_wins(copies_after(cards, card_id), card_id, i + 1);
    lemma_add_wins_pointwise(copies_after(cards, card_id), card_id, i + 1);
    // the next full stage dominates this partial stage pointwise
    lemma_add_wins_partial(copies_after(cards, card_id), card_id, i + 1, cards[card_id]@.len() as int);
    let s2 = copies_after(cards, card_id + 1);
    lemma_copies_len(cards, card_id + 1);
    lemma_copies_stage_mono(cards, card_id + 1, n);
    lemma_copies_pointwise(cards, n);
    lemma_entry_le_total(copies_after(cards, n), n, id);
}

/// More additions only grow the table.
proof fn lemma_add_wins_partial(copies: Seq<int>, i: int, k1: int, k2: int)
    requires
        0 <= k1 <= k2,
        forall|t: int| 0 <= t < copies.len() ==> #[trigger] copies[t] >= 0,
    ensures
        forall|t: int|
            0 <= t < copies.len() ==> #[trigger] add_wins(copies, i, k2)[t] >= add_wins(
                copies,
                i,
                k1,
            )[t],
    decreases k2 - k1,
{
    lemma_add_wins_len(copies, i, k1);
    lemma_add_wins_len(copies, i, k2);
    if k1 < k2 {
        lemma_add_wins_partial(copies, i, k1, k2 - 1);
        lemma_add_wins_pointwise(copies, i, k2 - 1);
        lemma_add_wins_pointwise(copies, i, k2);
    }
}

/// A partial total plus the next entry stays within the full total.
proof fn lemma_partial_total_bound(copies: Seq<int>, n: int, k: int)
    requires
        0 <= k < n <= copies.len(),
        forall|u: int| 0 <= u < copies.len() ==> #[trigger] copies[u] >= 0,
    ensures
        copies_total(copies, k) + copies[k] == copies_total(copies, k + 1),
        copies_total(copies, k + 1) <= copies_total(copies, n),
        copies_total(copies, k) >= 0,
    decreases n - k,
{
    lemma_total_nonneg(copies, k);
    if k + 1 < n {
        lemma_partial_total_bound(copies, n, k + 1);
    }
}

} // verus!
