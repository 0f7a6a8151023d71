//! Camel cards: five-card hands are classified by the multiplicities of
//! their card values, under two valuations (with and without jokers).

use vstd::prelude::*;

verus! {

/// One playing card.
#[derive(Clone, Copy, Debug, Hash, PartialEq, Eq, Structural)]
pub enum Card {
    A,
    K,
    Q,
    T,
    Number(u32),
    J,
}

/// A numbered card carries a single decimal digit.
pub open spec fn card_wf(c: Card) -> bool {
    match c {
        Card::Number(n) => n <= 9,
        _ => true,
    }
}

/// What a card character denotes.
pub open spec fn spec_card_parse(c: char) -> Card {
    match c {
        'A' => Card::A,
        'K' => Card::K,
        'Q' => Card::Q,
        'T' => Card::T,
        'J' => Card::J,
        _ => Card::Number((c as u32 - 48) as u32),
    }
}

/// Rank of a card without jokers: ace strongest (lowest number), then
/// king, queen, jack, ten, then the digits downward.
pub open spec fn spec_eval_q1(c: Card) -> int {
    match c {
        Card::A => 1,
        Card::K => 2,
        Card::Q => 3,
        Card::J => 4,
        Card::T => 5,
        Card::Number(n) => 9 - n + 6,
    }
}

/// Rank of a card with jokers: as before but the joker is weakest.
pub open spec fn spec_eval_q2(c: Card) -> int {
    match c {
        Card::A => 1,
        Card::K => 2,
        Card::Q => 3,
        Card::T => 4,
        Card::Number(n) => 9 - n + 5,
        Card::J => 13,
    }
}

impl Card {
    /// Parse one card character.  Characters other than the four letters
    /// and the joker must be decimal digits.
    pub fn parse(c: char) -> (r: Card)
        requires
            c == 'A' || c == 'K' || c == 'Q' || c == 'T' || c == 'J' || ('0' <= c <= '9'),
        ensures
            r == spec_card_parse(c),
            card_wf(r),
    {
        match c {
            'A' => Card::A,
            'K' => Card::K,
            'Q' => Card::Q,
            'T' => Card::T,
            'J' => Card::J,
            x => Card::Number(x as u32 - 48),
        }
    }

    /// Rank under the joker valuation.
    pub fn eval_q2(&self) -> (r: u32)
        requires
            card_wf(*self),
        ensures
            r == spec_eval_q2(*self),
    {
        match self {
            Card::A => 1,
            Card::K => 2,
            Card::Q => 3,
            Card::T => 4,
            Card::Number(n) => 9 - *n + 5,
            Card::J => 13,
        }
    }

    /// Rank under the plain valuation.
    pub fn eval_q1(&self) -> (r: u32)
        requires
            card_wf(*self),
        ensures
            r == spec_eval_q1(*self),
    {
        match self {
            Card::A => 1,
            Card::K => 2,
            Card::Q => 3,
            Card::J => 4,
            Card::T => 5,
            Card::Number(n) => 9 - *n + 6,
        }
    }

    /// Every non-joker card, strongest first.
    pub fn list_q2() -> (r: Vec<Card>)
        ensures
            r@ =~= seq![
                Card::A,
                Card::K,
                Card::Q,
                Card::T,
                Card::Number(9),
                Card::Number(8),
                Card::Number(7),
                Card::Number(6),
                Card::Number(5),
                Card::Number(4),
                Card::Number(3),
                Card::Number(2),
            ],
    {
        let mut r: Vec<Card> = Vec::new();
        r.push(Card::A);
        r.push(Card::K);
        r.push(Card::Q);
        r.push(Card::T);
        r.push(Card::Number(9));
        r.push(Card::Number(8));
        r.push(Card::Number(7));
        r.push(Card::Number(6));
        r.push(Card::Number(5));
        r.push(Card::Number(4));
        r.push(Card::Number(3));
        r.push(Card::Number(2));
        r
    }
}

/// Hand classifications, strongest first.
#[derive(Clone, Copy, Debug, PartialEq, Eq, PartialOrd, Ord, Structural)]
pub enum HandType {
    /// Five of a kind, where all five cards have the same label: AAAAA
    FiveOfAKind,
    /// Four of a kind, where four cards have the same label: AA8AA
    FourOfAKind,
    /// Full house: three of one label and two of another: 23332
    FullHouse,
    /// Three of a kind, the other two all different: TTT98
    ThreeOfAKind,
    /// Two pairs and a fifth card: 23432
    TwoPair,
    /// One pair and three different cards: A23A4
    OnePair,
    /// All five labels distinct: 23456
    HighCard,
}

/// The classification read off the ascending multiplicity list.
pub open spec fn spec_from_vals(vals: Seq<int>) -> HandType {
    if vals == seq![5int] {
        HandType::FiveOfAKind
    } else if vals == seq![1int, 4int] {
        HandType::FourOfAKind
    } else if vals == seq![2int, 3int] {
        HandType::FullHouse
    } else if vals.contains(3int) {
        HandType::ThreeOfAKind
    } else if vals == seq![1int, 2int, 2int] {
        HandType::TwoPair
    } else if vals.contains(2int) {
        HandType::OnePair
    } else {
        HandType::HighCard
    }
}

impl HandType {
    /// Read the classification off the ascending multiplicity list.
    pub fn from_vals(vals: Vec<usize>) -> (r: HandType)
        ensures
            r == spec_from_vals(vals@.map_values(|v: usize| v as int)),
    {
        let ghost vs = vals@.map_values(|v: usize| v as int);
        proof {
            assert(vs.len() == vals@.len());
            assert(forall|i: int| 0 <= i < vals@.len() ==> vs[i] == #[trigger] vals@[i] as int);
        }
        let is5 = vals.len() == 1 && vals[0] == 5;
        let is14 = vals.len() == 2 && vals[0] == 1 && vals[1] == 4;
        let is23 = vals.len() == 2 && vals[0] == 2 && vals[1] == 3;
        let is122 = vals.len() == 3 && vals[0] == 1 && vals[1] == 2 && vals[2] == 2;
        let mut has3 = false;
        let mut has2 = false;
        let mut i: usize = 0;
        #[verifier::loop_isolation(false)]
        while i < vals.len()
            invariant
                0 <= i <= vals@.len(),
                has3 == exists|t: int| 0 <= t < i && vals@[t] + 0 == 3,
                has2 == exists|t: int| 0 <= t < i && vals@[t] + 0 == 2,
            decreases vals@.len() - i,
        {
            if vals[i] == 3 {
                has3 = true;
            }
            if vals[i] == 2 {
                has2 = true;
            }
            i += 1;
        }
        proof {
            assert(is5 == (vs =~= seq![5int]));
            assert(is14 == (vs =~= seq![1int, 4int]));
            assert(is23 == (vs =~= seq![2int, 3int]));
            assert(is122 == (vs =~= seq![1int, 2int, 2int]));
            assert(has3 == vs.contains(3int)) by {
                if has3 {
                    let t = choose|t: int| 0 <= t < vals@.len() && vals@[t] + 0 == 3;
                    assert(vs[t] == 3);
                }
                if vs.contains(3int) {
                    let t = choose|t: int| 0 <= t < vs.len() && vs[t] == 3int;
                    assert(vals@[t] + 0 == 3);
                }
            }
            assert(has2 == vs.contains(2int)) by {
                if has2 {
                    let t = choose|t: int| 0 <= t < vals@.len() && vals@[t] + 0 == 2;
                    assert(vs[t] == 2);
                }
                if vs.contains(2int) {
                    let t = choose|t: int| 0 <= t < vs.len() && vs[t] == 2int;
                    assert(vals@[t] + 0 == 2);
                }
            }
        }
        if is5 {
            HandType::FiveOfAKind
        } else if is14 {
            HandType::FourOfAKind
        } else if is23 {
            HandType::FullHouse
        } else if has3 {
            HandType::ThreeOfAKind
        } else if is122 {
            HandType::TwoPair
        } else if has2 {
            HandType::OnePair
        } else {
            HandType::HighCard
        }
    }
}

/// A hand of five cards.
#[derive(Clone, Copy, Debug, PartialEq, Eq)]
pub struct Hand(pub [Card; 5]);

/// Every card of the hand is well formed.
pub open spec fn hand_wf(h: Hand) -> bool {
    forall|i: int| 0 <= i < 5 ==> card_wf(#[trigger] h.0[i])
}

/// How many cards of the hand rank `v` under the plain valuation.
pub open spec fn count_q1(cards: Seq<Card>, v: int) -> int
    decreases cards.len(),
{
    if cards.len() == 0 {
        0
    } else {
        count_q1(cards.drop_last(), v) + if spec_eval_q1(cards.last()) == v {
            1int
        } else {
            0int
        }
    }
}

/// How many non-joker cards of the hand rank `v` under the joker
/// valuation.
pub open spec fn count_q2(cards: Seq<Card>, v: int) -> int
    decreases cards.len(),
{
    if cards.len() == 0 {
        0
    } else {
        count_q2(cards.drop_last(), v) + if cards.last() != Card::J && spec_eval_q2(cards.last())
            == v {
            1int
        } else {
            0int
        }
    }
}

/// How many values below `n` occur exactly `f` times.
pub open spec fn count_with(cs: Seq<int>, f: int, n: int) -> int
    decreases n,
{
    if n <= 0 {
        0
    } else {
        count_with(cs, f, n - 1) + if cs[n - 1] == f {
            1int
        } else {
            0int
        }
    }
}

/// The ascending multiplicity list of a 16-entry count table: each
/// multiplicity `f` from one to five, repeated once for every value that
/// occurs exactly `f` times.
pub open spec fn freq_list(cs: Seq<int>, f: int) -> Seq<int>
    decreases 6 - f,
{
    if f > 5 {
        Seq::empty()
    } else {
        Seq::new(count_with(cs, f, 16) as nat, |i: int| f) + freq_list(cs, f + 1)
    }
}

/// The count table of a hand under the plain valuation.
pub open spec fn counts_q1(h: Hand) -> Seq<int> {
    Seq::new(16, |v: int| count_q1(h.0@, v))
}

/// The count table of a hand's non-joker cards under the joker valuation.
pub open spec fn counts_q2(h: Hand) -> Seq<int> {
    Seq::new(16, |v: int| count_q2(h.0@, v))
}

/// The classification of a hand without jokers.
pub open spec fn spec_classify_q1(h: Hand) -> HandType {
    spec_from_vals(freq_list(counts_q1(h), 1))
}

/// The least value whose count is maximal.
pub open spec fn first_max(cs: Seq<int>, n: int) -> int
    decreases n,
{
    if n <= 1 {
        0
    } else {
        let b = first_max(cs, n - 1);
        if cs[n - 1] > cs[b] {
            n - 1
        } else {
            b
        }
    }
}

/// The classification of a hand with jokers: the jokers join the (first)
/// most numerous other card; five jokers are five of a kind.
pub open spec fn spec_classify_q2(h: Hand) -> HandType {
    let cs = counts_q2(h);
    let j = 5 - (cs[1] + cs[2] + cs[3] + cs[4] + cs[5] + cs[6] + cs[7] + cs[8] + cs[9] + cs[10]
        + cs[11] + cs[12] + cs[13] + cs[14] + cs[15]);
    if j == 5 {
        HandType::FiveOfAKind
    } else {
        let b = first_max(cs, 16);
        spec_from_vals(freq_list(cs.update(b, cs[b] + j), 1))
    }
}

impl Hand {
    /// Classify the hand by the multiplicities of its card values.
    pub fn classify_q1(&self) -> (r: HandType)
        requires
            hand_wf(*self),
        ensures
            r == spec_classify_q1(*self),
    {
        let mut counts: Vec<usize> = Vec::new();
        let mut v: usize = 0;
        #[verifier::loop_isolation(false)]
        while v < 16
            invariant
                0 <= v <= 16,
                counts@.len() == v,
                forall|t: int| 0 <= t < v ==> #[trigger] counts@[t] == 0,
            decreases 16 - v,
        {
            counts.push(0);
            v += 1;
        }
        let mut i: usize = 0;
        #[verifier::loop_isolation(false)]
        while i < 5
            invariant
                0 <= i <= 5,
                counts@.len() == 16,
                forall|t: int|
                    0 <= t < 16 ==> #[trigger] counts@[t] as int == count_q1(
                        self.0@.take(i as int),
                        t,
                    ),
                forall|t: int| 0 <= t < 16 ==> #[trigger] counts@[t] <= i,
            decreases 5 - i,
        {
            proof {
                assert(self.0@.take(i + 1).drop_last() =~= self.0@.take(i as int));
                assert(self.0@.take(i + 1).last() == self.0@[i as int]);
            }
            let e = self.0[i].eval_q1() as usize;
            let old_count = counts[e];
            counts[e] = old_count + 1;
            i += 1;
        }
        proof {
            assert(self.0@.take(5) =~= self.0@);
        }
        let vals = build_freq_list(&counts);
        proof {
            assert(counts@.map_values(|c: usize| c as int) =~= counts_q1(*self));
        }
        HandType::from_vals(vals)
    }

    /// Classify the hand when jacks are jokers, joining the most numerous
    /// other card (five jokers stand alone).
    pub fn classify_q2(&self) -> (r: HandType)
        requires
            hand_wf(*self),
        ensures
            r == spec_classify_q2(*self),
    {
        let mut counts: Vec<usize> = Vec::new();
        let mut v: usize = 0;
        #[verifier::loop_isolation(false)]
        while v < 16
            invariant
                0 <= v <= 16,
                counts@.len() == v,
                forall|t: int| 0 <= t < v ==> #[trigger] counts@[t] == 0,
            decreases 16 - v,
        {
            counts.push(0);
            v += 1;
        }
        let mut jokers: usize = 0;
        let mut i: usize = 0;
        #[verifier::loop_isolation(false)]
        while i < 5
            invariant
                0 <= i <= 5,
                counts@.len() == 16,
                forall|t: int|
                    0 <= t < 16 ==> #[trigger] counts@[t] as int == count_q2(
                        self.0@.take(i as int),
                        t,
                    ),
                forall|t: int| 0 <= t < 16 ==> #[trigger] counts@[t] <= i,
                jokers as int == count_jokers(self.0@.take(i as int)),
                jokers <= i,
            decreases 5 - i,
        {
            proof {
                assert(self.0@.take(i + 1).drop_last() =~= self.0@.take(i as int));
                assert(self.0@.take(i + 1).last() == self.0@[i as int]);
            }
            let c = self.0[i];
            let is_j = match c {
                Card::J => true,
                _ => false,
            };
            if is_j {
                jokers += 1;
            } else {
                let e = c.eval_q2() as usize;
                let old_count = counts[e];
                counts[e] = old_count + 1;
            }
            i += 1;
        }
        proof {
            assert(self.0@.take(5) =~= self.0@);
            lemma_counts_sum(self.0@);
            assert(counts@.map_values(|c: usize| c as int) =~= counts_q2(*self));
        }
        if jokers == 5 {
            proof {
                let cs = counts_q2(*self);
                assert(cs[1] == counts@[1] as int);
            }
            return HandType::FiveOfAKind;
        }
        // find the first value with the greatest count
        let mut best: usize = 0;
        let mut w: usize = 1;
        #[verifier::loop_isolation(false)]
        while w < 16
            invariant
                1 <= w <= 16,
                0 <= best < w,
                counts@.len() == 16,
                best as int == first_max(counts@.map_values(|c: usize| c as int), w as int),
            decreases 16 - w,
        {
            if counts[w] > counts[best] {
                best = w;
            }
            w += 1;
        }
        let bumped = counts[best] + jokers;
        counts[best] = bumped;
        proof {
            assert(counts@.map_values(|c: usize| c as int) =~= counts_q2(*self).update(
                first_max(counts_q2(*self), 16),
                counts_q2(*self)[first_max(counts_q2(*self), 16)] + count_jokers(self.0@),
            ));
        }
        let vals = build_freq_list(&counts);
        HandType::from_vals(vals)
    }
}

/// How many jokers the hand holds.
pub open spec fn count_jokers(cards: Seq<Card>) -> int
    decreases cards.len(),
{
    if cards.len() == 0 {
        0
    } else {
        count_jokers(cards.drop_last()) + if cards.last() == Card::J {
            1int
        } else {
            0int
        }
    }
}

/// Every card is a joker or lands in one of the count-table entries, so
/// the non-joker counts and the joker count sum to five.
proof fn lemma_counts_sum(cards: Seq<Card>)
    requires
        cards.len() <= 5,
        forall|i: int| 0 <= i < cards.len() ==> card_wf(#[trigger] cards[i]),
    ensures
        count_jokers(cards) + count_q2(cards, 1) + count_q2(cards, 2) + count_q2(cards, 3)
            + count_q2(cards, 4) + count_q2(cards, 5) + count_q2(cards, 6) + count_q2(cards, 7)
            + count_q2(cards, 8) + count_q2(cards, 9) + count_q2(cards, 10) + count_q2(cards, 11)
            + count_q2(cards, 12) + count_q2(cards, 13) + count_q2(cards, 14) + count_q2(
            cards,
            15,
        ) == cards.len(),
    decreases cards.len(),
{
    if cards.len() > 0 {
        assert(forall|i: int|
            0 <= i < cards.drop_last().len() ==> card_wf(#[trigger] cards.drop_last()[i]));
        lemma_counts_sum(cards.drop_last());
        let c = cards.last();
        assert(card_wf(c));
        if c != Card::J {
            assert(1 <= spec_eval_q2(c) <= 15);
        }
    }
}

/// Build the ascending multiplicity list of a 16-entry count table.
fn build_freq_list(counts: &Vec<usize>) -> (vals: Vec<usize>)
    requires
        counts@.len() == 16,
    ensures
        vals@.map_values(|v: usize| v as int) == freq_list(
            counts@.map_values(|c: usize| c as int),
            1,
        ),
{
    let ghost cs = counts@.map_values(|c: usize| c as int);
    let mut vals: Vec<usize> = Vec::new();
    let mut f: usize = 1;
    proof {
        lemma_freq_list_tail(cs, 6);
    }
    #[verifier::loop_isolation(false)]
    while f <= 5
        invariant
            1 <= f <= 6,
            counts@.len() == 16,
            cs == counts@.map_values(|c: usize| c as int),
            vals@.map_values(|v: usize| v as int) + freq_list(cs, f as int) == freq_list(cs, 1),
        decreases 6 - f,
    {
        let mut v: usize = 0;
        proof {
            lemma_count_with_mono(cs, f as int, 0);
        }
        #[verifier::loop_isolation(false)]
        while v < 16
            invariant
                0 <= v <= 16,
                1 <= f <= 5,
                counts@.len() == 16,
                cs == counts@.map_values(|c: usize| c as int),
                vals@.map_values(|vv: usize| vv as int) + Seq::new(
                    (count_with(cs, f as int, 16) - count_with(cs, f as int, v as int)) as nat,
                    |i: int| f as int,
                ) + freq_list(cs, f as int + 1) == freq_list(cs, 1),
            decreases 16 - v,
        {
            proof {
                lemma_count_with_nonneg(cs, f as int, v as int);
                lemma_count_with_mono(cs, f as int, v as int + 1);
            }
            let ghost before = vals@.map_values(|vv: usize| vv as int);
            let ghost rem = count_with(cs, f as int, 16) - count_with(cs, f as int, v as int);
            if counts[v] == f {
                vals.push(f);
                proof {
                    assert(vals@.map_values(|vv: usize| vv as int) =~= before.push(f as int));
                    assert(before.push(f as int) + Seq::new(
                        (rem - 1) as nat,
                        |i: int| f as int,
                    ) =~= before + Seq::new(rem as nat, |i: int| f as int));
                }
            }
            v += 1;
        }
        proof {
            assert(Seq::new(count_with(cs, f as int, 16) as nat, |i: int| f as int) + freq_list(
                cs,
                f as int + 1,
            ) == freq_list(cs, f as int));
            assert(vals@.map_values(|vv: usize| vv as int) + Seq::new(0nat, |i: int| f as int)
                + freq_list(cs, f as int + 1) == freq_list(cs, 1));
            assert(vals@.map_values(|vv: usize| vv as int) + Seq::new(0nat, |i: int| f as int)
                =~= vals@.map_values(|vv: usize| vv as int));
        }
        f += 1;
    }
    proof {
        assert(freq_list(cs, 6) =~= Seq::empty());
        assert(vals@.map_values(|v: usize| v as int) + Seq::<int>::empty() =~= vals@.map_values(
            |v: usize| v as int,
        ));
    }
    vals
}

proof fn lemma_count_with_mono(cs: Seq<int>, f: int, v: int)
    requires
        0 <= v <= 16,
    ensures
        count_with(cs, f, v) <= count_with(cs, f, 16),
    decreases 16 - v,
{
    if v < 16 {
        lemma_count_with_mono(cs, f, v + 1);
    }
}

proof fn lemma_count_with_nonneg(cs: Seq<int>, f: int, n: int)
    ensures
        count_with(cs, f, n) >= 0,
    decreases n,
{
    if n > 0 {
        lemma_count_with_nonneg(cs, f, n - 1);
    }
}

proof fn lemma_freq_list_tail(cs: Seq<int>, f: int)
    requires
        f > 5,
    ensures
        freq_list(cs, f) == Seq::<int>::empty(),
{
}

} // verus!
