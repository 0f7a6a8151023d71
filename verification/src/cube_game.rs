//! The cube game: each game reveals handfuls of red, green and blue cubes.
//! One question sums the ids of games whose reveals stay within a fixed
//! limit; the other sums the powers of the minimal cube sets.

use vstd::prelude::*;
use vstd::string::StringSliceAdditionalSpecFns;

use crate::scan::{all_digits, digits_val, parse_u64, spec_trim_space, split_bytes, split_on, suffix_bytes, trim_space};

verus! {

/// A handful of cubes by colour.
#[derive(Clone, Copy, Debug, Default, PartialEq, Eq, Structural)]
pub struct Cubes {
    /// Red
    pub r: u8,
    /// Green
    pub g: u8,
    /// Blue
    pub b: u8,
}

/// One game: its id and the cube totals of each reveal.
#[derive(Clone, Debug)]
pub struct Game {
    pub id: u64,
    pub cubes: Vec<Cubes>,
}

/// The byte spelling of "red".
pub open spec fn red_bytes() -> Seq<u8> {
    seq![114u8, 101u8, 100u8]
}

/// The byte spelling of "green".
pub open spec fn green_bytes() -> Seq<u8> {
    seq![103u8, 114u8, 101u8, 101u8, 110u8]
}

/// The byte spelling of "blue".
pub open spec fn blue_bytes() -> Seq<u8> {
    seq![98u8, 108u8, 117u8, 101u8]
}

/// What a colour word with a count denotes.
pub open spec fn spec_cubes_new(color: Seq<u8>, number: u8) -> Option<Cubes> {
    if color == red_bytes() {
        Some(Cubes { r: number, g: 0, b: 0 })
    } else if color == green_bytes() {
        Some(Cubes { r: 0, g: number, b: 0 })
    } else if color == blue_bytes() {
        Some(Cubes { r: 0, g: 0, b: number })
    } else {
        None
    }
}

impl Cubes {
    /// The power of a set of cubes: the three counts multiplied together.
    pub fn power(self) -> (p: u32)
        ensures
            p == self.r * self.g * self.b,
    {
        proof {
            assert(self.r * self.g <= 255 * 255 && self.r * self.g * self.b <= 255 * 255 * 255)
                by (nonlinear_arith)
                requires
                    self.r <= 255,
                    self.g <= 255,
                    self.b <= 255,
            ;
        }
        (self.r as u32) * (self.g as u32) * (self.b as u32)
    }

    /// A handful of `number` cubes of the named colour; `None` when the
    /// colour word is not one of red, green or blue.
    pub fn new(color: &str, number: u8) -> (c: Option<Cubes>)
        ensures
            c == spec_cubes_new(color.spec_bytes(), number),
    {
        let bs = color.as_bytes();
        let is_red = bs.len() == 3 && bs[0] == 114 && bs[1] == 101 && bs[2] == 100;
        let is_green = bs.len() == 5 && bs[0] == 103 && bs[1] == 114 && bs[2] == 101 && bs[3]
            == 101 && bs[4] == 110;
        let is_blue = bs.len() == 4 && bs[0] == 98 && bs[1] == 108 && bs[2] == 117 && bs[3] == 101;
        proof {
            assert(is_red == (color.spec_bytes() =~= red_bytes()));
            assert(is_green == (color.spec_bytes() =~= green_bytes()));
            assert(is_blue == (color.spec_bytes() =~= blue_bytes()));
        }
        if is_red {
            Some(Cubes { r: number, g: 0, b: 0 })
        } else if is_green {
            Some(Cubes { r: 0, g: number, b: 0 })
        } else if is_blue {
            Some(Cubes { r: 0, g: 0, b: number })
        } else {
            None
        }
    }

    /// Componentwise maximum.
    pub fn max(self, rhs: Self) -> (m: Cubes)
        ensures
            m.r == if self.r >= rhs.r { self.r } else { rhs.r },
            m.g == if self.g >= rhs.g { self.g } else { rhs.g },
            m.b == if self.b >= rhs.b { self.b } else { rhs.b },
    {
        Cubes {
            r: if self.r >= rhs.r { self.r } else { rhs.r },
            g: if self.g >= rhs.g { self.g } else { rhs.g },
            b: if self.b >= rhs.b { self.b } else { rhs.b },
        }
    }
}

/// A handful fits in the bag when each colour's count stays within the
/// bag's count of that colour.
pub open spec fn spec_le_limit(c: Cubes, limit: Cubes) -> bool {
    c.r <= limit.r && c.g <= limit.g && c.b <= limit.b
}

/// A game is possible when every reveal compares at or below the limit.
pub open spec fn spec_possible(g: Game, limit: Cubes) -> bool {
    forall|i: int| 0 <= i < g.cubes@.len() ==> spec_le_limit(#[trigger] g.cubes@[i], limit)
}

/// Sum of ids of the possible games.
pub open spec fn spec_q1(games: Seq<Game>, limit: Cubes) -> int
    decreases games.len(),
{
    if games.len() == 0 {
        0
    } else {
        spec_q1(games.drop_last(), limit) + if spec_possible(games.last(), limit) {
            games.last().id as int
        } else {
            0
        }
    }
}

/// Componentwise maximum of a reveal list (the minimal bag of cubes that
/// makes every reveal possible).
pub open spec fn spec_max_fold(s: Seq<Cubes>) -> Cubes
    decreases s.len(),
{
    if s.len() == 0 {
        Cubes { r: 0, g: 0, b: 0 }
    } else {
        let m = spec_max_fold(s.drop_last());
        let l = s.last();
        Cubes {
            r: if m.r >= l.r {
                m.r
            } else {
                l.r
            },
            g: if m.g >= l.g {
                m.g
            } else {
                l.g
            },
            b: if m.b >= l.b {
                m.b
            } else {
                l.b
            },
        }
    }
}

/// Sum over the games of the power of the minimal cube bag.
pub open spec fn spec_q2(games: Seq<Game>) -> int
    decreases games.len(),
{
    if games.len() == 0 {
        0
    } else {
        let m = spec_max_fold(games.last().cubes@);
        spec_q2(games.drop_last()) + m.r * m.g * m.b
    }
}

/// Sum of the ids of the games whose every reveal stays at or below the
/// limit of twelve red, thirteen green and fourteen blue cubes.
pub fn q1(games: &Vec<Game>) -> (s: u64)
    requires
        spec_q1(games@, Cubes { r: 12, g: 13, b: 14 }) <= u64::MAX,
    ensures
        s == spec_q1(games@, Cubes { r: 12, g: 13, b: 14 }),
{
    let limit = Cubes { r: 12, g: 13, b: 14 };
    let mut s: u64 = 0;
    let mut i: usize = 0;
    #[verifier::loop_isolation(false)]
    while i < games.len()
        invariant
            0 <= i <= games@.len(),
            s == spec_q1(games@.take(i as int), limit),
        decreases games@.len() - i,
    {
        let game = &games[i];
        let mut ok = true;
        let mut j: usize = 0;
        #[verifier::loop_isolation(false)]
        while j < game.cubes.len()
            invariant
                0 <= j <= game.cubes@.len(),
                ok == forall|t: int| 0 <= t < j ==> spec_le_limit(#[trigger] game.cubes@[t], limit),
            decreases game.cubes@.len() - j,
        {
            let c = game.cubes[j];
            let le = c.r <= limit.r && c.g <= limit.g && c.b <= limit.b;
            ok = ok && le;
            j += 1;
        }
        proof {
            assert(games@.take(i + 1).drop_last() =~= games@.take(i as int));
            assert(games@.take(i + 1).last() == games@[i as int]);
            assert(ok == spec_possible(games@[i as int], limit));
            assert(spec_q1(games@.take(i + 1), limit) <= spec_q1(games@, limit)) by {
                lemma_q1_prefix(games@, limit, i + 1);
            }
            lemma_q1_nonneg(games@.take(i + 1), limit);
            lemma_q1_nonneg(games@.take(i as int), limit);
        }
        if ok {
            s = s + game.id;
        }
        i += 1;
    }
    proof {
        assert(games@.take(games@.len() as int) =~= games@);
    }
    s
}

proof fn lemma_q1_nonneg(games: Seq<Game>, limit: Cubes)
    ensures
        spec_q1(games, limit) >= 0,
    decreases games.len(),
{
    if games.len() > 0 {
        lemma_q1_nonneg(games.drop_last(), limit);
    }
}

proof fn lemma_q1_prefix(games: Seq<Game>, limit: Cubes, i: int)
    requires
        0 <= i <= games.len(),
    ensures
        spec_q1(games.take(i), limit) <= spec_q1(games, limit),
    decreases games.len() - i,
{
    if i < games.len() {
        lemma_q1_prefix(games, limit, i + 1);
        assert(games.take(i + 1).drop_last() =~= games.take(i));
        assert(games.take(i + 1).last() == games[i]);
    } else {
        assert(games.take(i) =~= games);
    }
}

/// Sum over the games of the power of the componentwise-maximum reveal.
pub fn q2(games: &Vec<Game>) -> (s: u32)
    requires
        spec_q2(games@) <= u32::MAX,
    ensures
        s == spec_q2(games@),
{
    let mut s: u32 = 0;
    let mut i: usize = 0;
    #[verifier::loop_isolation(false)]
    while i < games.len()
        invariant
            0 <= i <= games@.len(),
            s == spec_q2(games@.take(i as int)),
        decreases games@.len() - i,
    {
        let game = &games[i];
        let mut m = Cubes { r: 0, g: 0, b: 0 };
        let mut j: usize = 0;
        #[verifier::loop_isolation(false)]
        while j < game.cubes.len()
            invariant
                0 <= j <= game.cubes@.len(),
                m == spec_max_fold(game.cubes@.take(j as int)),
            decreases game.cubes@.len() - j,
        {
            proof {
                assert(game.cubes@.take(j + 1).drop_last() =~= game.cubes@.take(j as int));
                assert(game.cubes@.take(j + 1).last() == game.cubes@[j as int]);
            }
            m = m.max(game.cubes[j]);
            j += 1;
        }
        proof {
            assert(game.cubes@.take(game.cubes@.len() as int) =~= game.cubes@);
            assert(games@.take(i + 1).drop_last() =~= games@.take(i as int));
            assert(games@.take(i + 1).last() == games@[i as int]);
            lemma_q2_prefix(games@, i + 1);
            lemma_q2_nonneg(games@.take(i + 1));
            lemma_q2_nonneg(games@.take(i as int));
        }
        let p = m.power();
        s = s + p;
        i += 1;
    }
    proof {
        assert(games@.take(games@.len() as int) =~= games@);
    }
    s
}

proof fn lemma_q2_nonneg(games: Seq<Game>)
    ensures
        spec_q2(games) >= 0,
    decreases games.len(),
{
    if games.len() > 0 {
        lemma_q2_nonneg(games.drop_last());
        let m = spec_max_fold(games.last().cubes@);
        assert(m.r * m.g * m.b >= 0) by (nonlinear_arith);
    }
}

proof fn lemma_q2_prefix(games: Seq<Game>, i: int)
    requires
        0 <= i <= games.len(),
    ensures
        spec_q2(games.take(i)) <= spec_q2(games),
    decreases games.len() - i,
{
    if i < games.len() {
        lemma_q2_prefix(games, i + 1);
        assert(games.take(i + 1).drop_last() =~= games.take(i));
        assert(games.take(i + 1).last() == games[i]);
        let m = spec_max_fold(games[i].cubes@);
        assert(m.r * m.g * m.b >= 0) by (nonlinear_arith);
    } else {
        assert(games.take(i) =~= games);
    }
}

/// What one "count colour" phrase denotes.
pub open spec fn spec_parse_reveal_part(piece: Seq<u8>) -> Option<Cubes> {
    let sp = split_on(spec_trim_space(piece), 32);
    if sp.len() != 2 {
        None
    } else {
        let num = sp[0];
        let color = sp[1];
        if num.len() >= 1 && all_digits(num) && digits_val(num) <= 255 {
            spec_cubes_new(color, digits_val(num) as u8)
        } else {
            None
        }
    }
}

/// Componentwise checked sum of the phrases of one reveal.
pub open spec fn spec_sum_reveal(pieces: Seq<Seq<u8>>) -> Option<Cubes>
    decreases pieces.len(),
{
    if pieces.len() == 0 {
        Some(Cubes { r: 0, g: 0, b: 0 })
    } else {
        match (spec_sum_reveal(pieces.drop_last()), spec_parse_reveal_part(pieces.last())) {
            (Some(acc), Some(c)) => if acc.r + c.r <= 255 && acc.g + c.g <= 255 && acc.b + c.b
                <= 255 {
                Some(
                    Cubes {
                        r: (acc.r + c.r) as u8,
                        g: (acc.g + c.g) as u8,
                        b: (acc.b + c.b) as u8,
                    },
                )
            } else {
                None
            },
            _ => None,
        }
    }
}

/// The reveal list of a game body: semicolon-separated reveals, each a
/// comma-separated list of phrases.
pub open spec fn spec_parse_reveals(reveals: Seq<Seq<u8>>) -> Option<Seq<Cubes>>
    decreases reveals.len(),
{
    if reveals.len() == 0 {
        Some(Seq::empty())
    } else {
        match (
            spec_parse_reveals(reveals.drop_last()),
            spec_sum_reveal(split_on(spec_trim_space(reveals.last()), 44)),
        ) {
            (Some(acc), Some(c)) => Some(acc.push(c)),
            _ => None,
        }
    }
}

/// The specification-level image of a parsed game.
pub struct GameShape {
    pub id: u64,
    pub cubes: Seq<Cubes>,
}

/// What a whole game line denotes: a `Game <id>` header before the colon,
/// then the reveals.
pub open spec fn spec_parse_game(bs: Seq<u8>) -> Option<GameShape> {
    let top = split_on(bs, 58);
    if top.len() != 2 {
        None
    } else {
        let header = top[0];
        let body = top[1];
        if header.len() >= 6 && header.take(5) == seq![71u8, 97u8, 109u8, 101u8, 32u8]
            && all_digits(header.skip(5)) && digits_val(header.skip(5)) <= u64::MAX {
            match spec_parse_reveals(split_on(body, 59)) {
                Some(cubes) => Some(GameShape { id: digits_val(header.skip(5)) as u64, cubes }),
                None => None,
            }
        } else {
            None
        }
    }
}

/// A failed phrase poisons the whole reveal sum.
proof fn lemma_sum_reveal_none(pieces: Seq<Seq<u8>>, j: int)
    requires
        0 <= j <= pieces.len(),
        spec_sum_reveal(pieces.take(j)) is None,
    ensures
        spec_sum_reveal(pieces) is None,
    decreases pieces.len() - j,
{
    if j < pieces.len() {
        assert(pieces.take(j + 1).drop_last() =~= pieces.take(j));
        lemma_sum_reveal_none(pieces, j + 1);
    } else {
        assert(pieces.take(j) =~= pieces);
    }
}

/// A failed reveal poisons the whole game.
proof fn lemma_parse_reveals_none(reveals: Seq<Seq<u8>>, i: int)
    requires
        0 <= i <= reveals.len(),
        spec_parse_reveals(reveals.take(i)) is None,
    ensures
        spec_parse_reveals(reveals) is None,
    decreases reveals.len() - i,
{
    if i < reveals.len() {
        assert(reveals.take(i + 1).drop_last() =~= reveals.take(i));
        lemma_parse_reveals_none(reveals, i + 1);
    } else {
        assert(reveals.take(i) =~= reveals);
    }
}

/// Parse one "count colour" phrase.
fn parse_reveal_part(piece: &Vec<u8>) -> (r: Option<Cubes>)
    ensures
        r == spec_parse_reveal_part(piece@),
{
    let p = trim_space(piece.as_slice());
    let sp = split_bytes(p.as_slice(), 32);
    proof {
        crate::crucible::lemma_grid_deep_view(&sp);
    }
    if sp.len() != 2 {
        return None;
    }
    let num = &sp[0];
    let color = &sp[1];
    let v = match parse_u64(num.as_slice()) {
        Some(v) => v,
        None => {
            proof {
                if num@.len() >= 1 && all_digits(num@) && digits_val(num@) <= 255 {
                    crate::scan::lemma_digits_val_nonneg(num@);
                }
            }
            return None;
        },
    };
    if v > 255 {
        return None;
    }
    let n = v as u8;
    let bs = color.as_slice();
    let is_red = bs.len() == 3 && bs[0] == 114 && bs[1] == 101 && bs[2] == 100;
    let is_green = bs.len() == 5 && bs[0] == 103 && bs[1] == 114 && bs[2] == 101 && bs[3] == 101
        && bs[4] == 110;
    let is_blue = bs.len() == 4 && bs[0] == 98 && bs[1] == 108 && bs[2] == 117 && bs[3] == 101;
    proof {
        assert(is_red == (color@ =~= red_bytes()));
        assert(is_green == (color@ =~= green_bytes()));
        assert(is_blue == (color@ =~= blue_bytes()));
    }
    if is_red {
        Some(Cubes { r: n, g: 0, b: 0 })
    } else if is_green {
        Some(Cubes { r: 0, g: n, b: 0 })
    } else if is_blue {
        Some(Cubes { r: 0, g: 0, b: n })
    } else {
        None
    }
}

/// Parse one game line.  Succeeds exactly on lines of the form
/// `Game <id>: <count> <colour>, ...; ...` with byte-sized counts and a
/// single colon.
pub fn parse_game(line: &str) -> (r: Option<Game>)
    ensures
        match r {
            Some(game) => spec_parse_game(line.spec_bytes()) matches Some(gs) && gs.id == game.id
                && gs.cubes == game.cubes@,
            None => spec_parse_game(line.spec_bytes()) is None,
        },
{
    let bs = line.as_bytes();
    let top = split_bytes(bs, 58);
    proof {
        crate::crucible::lemma_grid_deep_view(&top);
    }
    if top.len() != 2 {
        return None;
    }
    let header = &top[0];
    if header.len() < 6 {
        return None;
    }
    if !(header[0] == 71 && header[1] == 97 && header[2] == 109 && header[3] == 101 && header[4]
        == 32) {
        proof {
            if header@.take(5) =~= seq![71u8, 97u8, 109u8, 101u8, 32u8] {
                assert(header@[0] == 71 && header@[1] == 97 && header@[2] == 109 && header@[3]
                    == 101 && header@[4] == 32);
            }
        }
        return None;
    }
    proof {
        assert(header@.take(5) =~= seq![71u8, 97u8, 109u8, 101u8, 32u8]);
    }
    let id_bytes = suffix_bytes(header.as_slice(), 5);
    let id = match parse_u64(id_bytes.as_slice()) {
        Some(v) => v,
        None => {
            return None;
        },
    };
    let reveals = split_bytes(top[1].as_slice(), 59);
    proof {
        crate::crucible::lemma_grid_deep_view(&reveals);
    }
    let mut cubes: Vec<Cubes> = Vec::new();
    let mut i: usize = 0;
    #[verifier::loop_isolation(false)]
    while i < reveals.len()
        invariant
            0 <= i <= reveals@.len(),
            spec_parse_reveals(reveals.deep_view().take(i as int)) matches Some(acc) && acc
                == cubes@,
        decreases reveals@.len() - i,
    {
        let reveal = trim_space(reveals[i].as_slice());
        let parts = split_bytes(reveal.as_slice(), 44);
        proof {
            crate::crucible::lemma_grid_deep_view(&parts);
        }
        let mut acc = Cubes { r: 0, g: 0, b: 0 };
        let mut j: usize = 0;
        #[verifier::loop_isolation(false)]
        while j < parts.len()
            invariant
                0 <= j <= parts@.len(),
                spec_sum_reveal(parts.deep_view().take(j as int)) matches Some(a) && a == acc,
            decreases parts@.len() - j,
        {
            proof {
                assert(parts.deep_view().take(j + 1).drop_last() =~= parts.deep_view().take(
                    j as int,
                ));
                assert(parts.deep_view().take(j + 1).last() == parts.deep_view()[j as int]);
            }
            let c = match parse_reveal_part(&parts[j]) {
                Some(c) => c,
                None => {
                    proof {
                        lemma_sum_reveal_none(parts.deep_view(), j + 1);
                        assert(reveals.deep_view().take(i + 1).drop_last()
                            =~= reveals.deep_view().take(i as int));
                        assert(reveals.deep_view().take(i + 1).last()
                            == reveals.deep_view()[i as int]);
                        lemma_parse_reveals_none(reveals.deep_view(), i + 1);
                    }
                    return None;
                },
            };
            if acc.r as u32 + c.r as u32 > 255 || acc.g as u32 + c.g as u32 > 255 || acc.b as u32
                + c.b as u32 > 255 {
                proof {
                    lemma_sum_reveal_none(parts.deep_view(), j + 1);
                    assert(reveals.deep_view().take(i + 1).drop_last()
                        =~= reveals.deep_view().take(i as int));
                    assert(reveals.deep_view().take(i + 1).last()
                        == reveals.deep_view()[i as int]);
                    lemma_parse_reveals_none(reveals.deep_view(), i + 1);
                }
                return None;
            }
            acc = Cubes { r: acc.r + c.r, g: acc.g + c.g, b: acc.b + c.b };
            j += 1;
        }
        proof {
            assert(parts.deep_view().take(parts.deep_view().len() as int) =~= parts.deep_view());
            assert(reveals.deep_view().take(i + 1).drop_last() =~= reveals.deep_view().take(
                i as int,
            ));
            assert(reveals.deep_view().take(i + 1).last() == reveals.deep_view()[i as int]);
        }
        cubes.push(acc);
        i += 1;
    }
    proof {
        assert(reveals.deep_view().take(reveals.deep_view().len() as int) =~= reveals.deep_view());
    }
    Some(Game { id, cubes })
}

} // verus!
