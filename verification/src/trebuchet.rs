//! Calibration values: combine the first and the last digit of each line;
//! in the second reading, spelled-out digit words count too.

use vstd::prelude::*;
use vstd::string::StringSliceAdditionalSpecFns;

verus! {

/// The digits of a line, in order.
pub open spec fn digits_of(bs: Seq<u8>) -> Seq<int>
    decreases bs.len(),
{
    if bs.len() == 0 {
        Seq::empty()
    } else {
        digits_of(bs.drop_last()) + if 48 <= bs.last() <= 57 {
            seq![bs.last() - 48]
        } else {
            Seq::empty()
        }
    }
}

/// First digit times ten plus last digit, of the plain digits of the line.
pub fn parser_1(line: &str) -> (r: Option<u64>)
    ensures
        match r {
            Some(v) => digits_of(line.spec_bytes()).len() >= 1 && v == 10 * digits_of(
                line.spec_bytes(),
            )[0] + digits_of(line.spec_bytes()).last(),
            None => digits_of(line.spec_bytes()).len() == 0,
        },
{
    let bs = line.as_bytes();
    let mut first: u64 = 0;
    let mut last: u64 = 0;
    let mut seen = false;
    let mut i: usize = 0;
    #[verifier::loop_isolation(false)]
    while i < bs.len()
        invariant
            0 <= i <= bs@.len(),
            first <= 9 && last <= 9,
            seen <==> digits_of(bs@.take(i as int)).len() >= 1,
            seen ==> first == digits_of(bs@.take(i as int))[0] && last == digits_of(
                bs@.take(i as int),
            ).last(),
        decreases bs@.len() - i,
    {
        proof {
            assert(bs@.take(i + 1).drop_last() =~= bs@.take(i as int));
            assert(bs@.take(i + 1).last() == bs@[i as int]);
        }
        let b = bs[i];
        if 48 <= b && b <= 57 {
            let d = (b - 48) as u64;
            if !seen {
                first = d;
                seen = true;
            }
            last = d;
        }
        i += 1;
    }
    proof {
        assert(bs@.take(bs@.len() as int) =~= bs@);
    }
    if seen {
        Some(10 * first + last)
    } else {
        None
    }
}

/// Whether the word `w` starts at position `i`.
pub open spec fn word_at(bs: Seq<u8>, i: int, w: Seq<u8>) -> bool {
    i + w.len() <= bs.len() && bs.subrange(i, i + w.len()) == w
}

/// The spelled digit words, in value order.
pub open spec fn word_of(d: int) -> Seq<u8> {
    if d == 0 {
        seq![122u8, 101u8, 114u8, 111u8]  // zero
    } else if d == 1 {
        seq![111u8, 110u8, 101u8]  // one
    } else if d == 2 {
        seq![116u8, 119u8, 111u8]  // two
    } else if d == 3 {
        seq![116u8, 104u8, 114u8, 101u8, 101u8]  // three
    } else if d == 4 {
        seq![102u8, 111u8, 117u8, 114u8]  // four
    } else if d == 5 {
        seq![102u8, 105u8, 118u8, 101u8]  // five
    } else if d == 6 {
        seq![115u8, 105u8, 120u8]  // six
    } else if d == 7 {
        seq![115u8, 101u8, 118u8, 101u8, 110u8]  // seven
    } else if d == 8 {
        seq![101u8, 105u8, 103u8, 104u8, 116u8]  // eight
    } else {
        seq![110u8, 105u8, 110u8, 101u8]  // nine
    }
}

/// The least spelled word starting at `i`, if any.
pub open spec fn spelled_at(bs: Seq<u8>, i: int) -> Option<int> {
    if word_at(bs, i, word_of(0)) {
        Some(0)
    } else if word_at(bs, i, word_of(1)) {
        Some(1)
    } else if word_at(bs, i, word_of(2)) {
        Some(2)
    } else if word_at(bs, i, word_of(3)) {
        Some(3)
    } else if word_at(bs, i, word_of(4)) {
        Some(4)
    } else if word_at(bs, i, word_of(5)) {
        Some(5)
    } else if word_at(bs, i, word_of(6)) {
        Some(6)
    } else if word_at(bs, i, word_of(7)) {
        Some(7)
    } else if word_at(bs, i, word_of(8)) {
        Some(8)
    } else if word_at(bs, i, word_of(9)) {
        Some(9)
    } else {
        None
    }
}

/// The number read at position `i`: a spelled word, else a digit
/// character.
pub open spec fn numeral_at(bs: Seq<u8>, i: int) -> Option<int> {
    match spelled_at(bs, i) {
        Some(v) => Some(v),
        None => if 0 <= i < bs.len() && 48 <= bs[i] <= 57 {
            Some(bs[i] - 48)
        } else {
            None
        },
    }
}

/// All numerals read from position `i` on, advancing one byte at a time
/// (overlapping words both count).
pub open spec fn numerals_from(bs: Seq<u8>, i: int) -> Seq<int>
    decreases bs.len() - i,
{
    if i < 0 || i >= bs.len() {
        Seq::empty()
    } else {
        (match numeral_at(bs, i) {
            Some(v) => seq![v],
            None => Seq::empty(),
        }) + numerals_from(bs, i + 1)
    }
}

/// Whether the word `w` starts at position `i`, executably.
fn word_check(bs: &[u8], i: usize, w: &Vec<u8>) -> (r: bool)
    requires
        i <= bs@.len(),
    ensures
        r == word_at(bs@, i as int, w@),
{
    if bs.len() - i < w.len() {
        return false;
    }
    let mut k: usize = 0;
    #[verifier::loop_isolation(false)]
    while k < w.len()
        invariant
            0 <= k <= w@.len(),
            i + w@.len() <= bs@.len(),
            forall|t: int| 0 <= t < k ==> bs@[i + t] == w@[t],
        decreases w@.len() - k,
    {
        if bs[i + k] != w[k] {
            proof {
                assert(bs@.subrange(i as int, i + w@.len())[k as int] != w@[k as int]);
            }
            return false;
        }
        k += 1;
    }
    proof {
        assert(bs@.subrange(i as int, i + w@.len()) =~= w@);
    }
    true
}

/// First numeral times ten plus last numeral, where spelled digit words
/// count too and each position is inspected in turn.
pub fn parser_2(line: &str) -> (r: Option<u64>)
    ensures
        match r {
            Some(v) => numerals_from(line.spec_bytes(), 0).len() >= 1 && v == 10 * numerals_from(
                line.spec_bytes(),
                0,
            )[0] + numerals_from(line.spec_bytes(), 0).last(),
            None => numerals_from(line.spec_bytes(), 0).len() == 0,
        },
{
    let bs = line.as_bytes();
    let words: Vec<Vec<u8>> = vec![
        vec![122u8, 101, 114, 111],
        vec![111u8, 110, 101],
        vec![116u8, 119, 111],
        vec![116u8, 104, 114, 101, 101],
        vec![102u8, 111, 117, 114],
        vec![102u8, 105, 118, 101],
        vec![115u8, 105, 120],
        vec![115u8, 101, 118, 101, 110],
        vec![101u8, 105, 103, 104, 116],
        vec![110u8, 105, 110, 101],
    ];
    proof {
        assert(forall|d: int| 0 <= d < 10 ==> (#[trigger] words.deep_view()[d]) == word_of(d)) by {
            crate::crucible::lemma_grid_deep_view(&words);
            assert forall|d: int| 0 <= d < 10 implies (#[trigger] words.deep_view()[d]) == word_of(
                d,
            ) by {
                assert(words@[d]@ =~= word_of(d));
            }
        }
    }
    let mut first: u64 = 0;
    let mut last: u64 = 0;
    let mut seen = false;
    let ghost whole = numerals_from(bs@, 0);
    let ghost mut collected: Seq<int> = Seq::empty();
    let mut i: usize = 0;
    #[verifier::loop_isolation(false)]
    while i < bs.len()
        invariant
            0 <= i <= bs@.len(),
            whole =~= collected + numerals_from(bs@, i as int),
            first <= 9 && last <= 9,
            seen <==> collected.len() >= 1,
            seen ==> first == collected[0] && last == collected.last(),
        decreases bs@.len() - i,
    {
        // try the ten words, then a digit character
        let mut found: Option<u64> = None;
        let mut d: usize = 0;
        #[verifier::loop_isolation(false)]
        while d < 10
            invariant
                0 <= d <= 10,
                i < bs@.len(),
                match found {
                    Some(v) => spelled_at(bs@, i as int) == Some(v as int),
                    None => forall|t: int| 0 <= t < d ==> !word_at(bs@, i as int, word_of(t)),
                },
            decreases 10 - d,
        {
            if match found {
                Some(_) => false,
                None => true,
            } {
                if word_check(bs, i, &words[d]) {
                    proof {
                        assert(words@[d as int]@ == word_of(d as int));
                        assert(word_at(bs@, i as int, word_of(d as int)));
                    }
                    found = Some(d as u64);
                }
            }
            d += 1;
        }
        let num: Option<u64> = match found {
            Some(v) => Some(v),
            None => {
                let b = bs[i];
                if 48 <= b && b <= 57 {
                    Some((b - 48) as u64)
                } else {
                    None
                }
            },
        };
        proof {
            match num {
                Some(v) => assert(numeral_at(bs@, i as int) == Some(v as int)),
                None => assert(numeral_at(bs@, i as int) is None),
            }
        }
        if let Some(v) = num {
            if !seen {
                first = v;
                seen = true;
            }
            last = v;
            proof {
                collected = collected.push(v as int);
            }
        }
        i += 1;
    }
    if seen {
        Some(10 * first + last)
    } else {
        None
    }
}

} // verus!
