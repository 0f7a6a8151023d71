//! Sorting workflows: parts with four rated components flow through named
//! workflows whose rules compare one component against a threshold and
//! forward the part, until it is accepted or rejected.

use vstd::prelude::*;
use vstd::string::StringSliceAdditionalSpecFns;

use crate::scan::{all_digits, digits_val, parse_u64, split_bytes, split_on, suffix_bytes};

verus! {

/// A part with its four component ratings.
#[derive(Clone, Copy, Debug, PartialEq, Eq, Structural)]
pub struct Part {
    pub x: u64,
    pub m: u64,
    pub a: u64,
    pub s: u64,
}

/// A comparison a rule applies.
#[derive(Clone, Copy, Debug, PartialEq, Eq, Structural)]
pub enum CmpType {
    Greater,
    Lesser,
}

/// One rule of a workflow: compare a component against a threshold; on a
/// match the part goes to the named destination.
#[derive(Clone, Debug)]
pub struct Rule {
    pub lhs: u8,
    pub cmp: CmpType,
    pub rhs: u64,
    pub dst: Vec<u8>,
}

/// A named workflow: its rules in order, and the destination taken when no
/// rule matches.
#[derive(Clone, Debug)]
pub struct Workflow {
    pub name: Vec<u8>,
    pub rules: Vec<Rule>,
    pub default: Vec<u8>,
}

/// Whether a destination name ends the sorting: `A` accepts, `R` rejects.
pub open spec fn spec_is_terminal(bs: Seq<u8>) -> Option<bool> {
    if bs == seq![65u8] {
        Some(true)
    } else if bs == seq![82u8] {
        Some(false)
    } else {
        None
    }
}

/// Whether a destination name ends the sorting: `A` accepts, `R` rejects.
pub fn is_terminal(s: &str) -> (r: Option<bool>)
    ensures
        r == spec_is_terminal(s.spec_bytes()),
{
    let bs = s.as_bytes();
    if bs.len() == 1 && bs[0] == 65 {
        proof {
            assert(s.spec_bytes() =~= seq![65u8]);
        }
        Some(true)
    } else if bs.len() == 1 && bs[0] == 82 {
        proof {
            assert(s.spec_bytes() =~= seq![82u8]);
        }
        Some(false)
    } else {
        proof {
            if s.spec_bytes() =~= seq![65u8] {
                assert(bs@.len() == 1 && bs@[0] == 65);
            }
            if s.spec_bytes() =~= seq![82u8] {
                assert(bs@.len() == 1 && bs@[0] == 82);
            }
        }
        None
    }
}

/// A component letter.
pub open spec fn component_ok(b: u8) -> bool {
    b == 120 || b == 109 || b == 97 || b == 115
}

/// The rated value of the component named by `lhs`.
pub open spec fn component_of(p: Part, lhs: u8) -> u64 {
    if lhs == 120 {
        p.x
    } else if lhs == 109 {
        p.m
    } else if lhs == 97 {
        p.a
    } else {
        p.s
    }
}

impl Part {
    /// Sum of the four component ratings.
    pub fn sum(&self) -> (r: u64)
        requires
            self.x + self.m + self.a + self.s <= u64::MAX,
        ensures
            r == self.x + self.m + self.a + self.s,
    {
        self.x + self.m + self.a + self.s
    }

    /// Parse a part: `{x=..,m=..,a=..,s=..}` assignments in any order and
    /// number; an unassigned component is zero, a repeated one keeps its
    /// last value.
    pub fn parse(s: &str) -> (r: Option<Part>)
        ensures
            match r {
                Some(p) => {
                    let bs = s.spec_bytes();
                    bs.len() >= 2 && bs[0] == 123 && bs.last() == 125 && spec_parse_assignments(
                        split_on(bs.subrange(1, bs.len() - 1), 44),
                    ) == Some(p)
                },
                None => true,
            },
    {
        let bs = s.as_bytes();
        if bs.len() < 2 || bs[0] != 123 || bs[bs.len() - 1] != 125 {
            return None;
        }
        let inner = crate::scan::prefix_bytes(bs, bs.len() - 1);
        let inner2 = suffix_bytes(inner.as_slice(), 1);
        proof {
            assert(inner2@ =~= s.spec_bytes().subrange(1, s.spec_bytes().len() - 1));
        }
        let pieces = split_bytes(inner2.as_slice(), 44);
        proof {
            crate::crucible::lemma_grid_deep_view(&pieces);
        }
        let mut part = Part { x: 0, m: 0, a: 0, s: 0 };
        let mut i: usize = 0;
        #[verifier::loop_isolation(false)]
        while i < pieces.len()
            invariant
                0 <= i <= pieces@.len(),
                spec_parse_assignments(pieces.deep_view().take(i as int)) == Some(part),
            decreases pieces@.len() - i,
        {
            proof {
                assert(pieces.deep_view().take(i + 1).drop_last() =~= pieces.deep_view().take(
                    i as int,
                ));
                assert(pieces.deep_view().take(i + 1).last() == pieces.deep_view()[i as int]);
            }
            let eq = split_bytes(pieces[i].as_slice(), 61);
            proof {
                crate::crucible::lemma_grid_deep_view(&eq);
            }
            if eq.len() != 2 {
                proof {
                    lemma_assignments_none(pieces.deep_view(), i + 1);
                }
                return None;
            }
            let name = &eq[0];
            if name.len() != 1 {
                proof {
                    lemma_assignments_none(pieces.deep_view(), i + 1);
                }
                return None;
            }
            let c = name[0];
            if !(c == 120 || c == 109 || c == 97 || c == 115) {
                proof {
                    lemma_assignments_none(pieces.deep_view(), i + 1);
                }
                return None;
            }
            let v = match parse_u64(eq[1].as_slice()) {
                Some(v) => v,
                None => {
                    proof {
                        if eq[1]@.len() >= 1 && all_digits(eq[1]@) && digits_val(eq[1]@)
                            <= u64::MAX {
                            crate::scan::lemma_digits_val_nonneg(eq[1]@);
                        }
                        lemma_assignments_none(pieces.deep_view(), i + 1);
                    }
                    return None;
                },
            };
            if c == 120 {
                part = Part { x: v, ..part };
            } else if c == 109 {
                part = Part { m: v, ..part };
            } else if c == 97 {
                part = Part { a: v, ..part };
            } else {
                part = Part { s: v, ..part };
            }
            i += 1;
        }
        proof {
            assert(pieces.deep_view().take(pieces.deep_view().len() as int)
                =~= pieces.deep_view());
        }
        Some(part)
    }
}

/// What one `component=value` assignment denotes.
pub open spec fn spec_assignment(p: Seq<u8>) -> Option<(u8, u64)> {
    let eq = split_on(p, 61);
    if eq.len() == 2 && eq[0].len() == 1 && component_ok(eq[0][0]) && eq[1].len() >= 1
        && all_digits(eq[1]) && digits_val(eq[1]) <= u64::MAX {
        Some((eq[0][0], digits_val(eq[1]) as u64))
    } else {
        None
    }
}

/// The part a list of assignments builds up from zero.
pub open spec fn spec_parse_assignments(pieces: Seq<Seq<u8>>) -> Option<Part>
    decreases pieces.len(),
{
    if pieces.len() == 0 {
        Some(Part { x: 0, m: 0, a: 0, s: 0 })
    } else {
        match (spec_parse_assignments(pieces.drop_last()), spec_assignment(pieces.last())) {
            (Some(p), Some(cv)) => Some(
                if cv.0 == 120 {
                    Part { x: cv.1, ..p }
                } else if cv.0 == 109 {
                    Part { m: cv.1, ..p }
                } else if cv.0 == 97 {
                    Part { a: cv.1, ..p }
                } else {
                    Part { s: cv.1, ..p }
                },
            ),
            _ => None,
        }
    }
}

proof fn lemma_assignments_none(pieces: Seq<Seq<u8>>, i: int)
    requires
        0 <= i <= pieces.len(),
        spec_parse_assignments(pieces.take(i)) is None,
    ensures
        spec_parse_assignments(pieces) is None,
    decreases pieces.len() - i,
{
    if i < pieces.len() {
        assert(pieces.take(i + 1).drop_last() =~= pieces.take(i));
        lemma_assignments_none(pieces, i + 1);
    } else {
        assert(pieces.take(i) =~= pieces);
    }
}

/// What one rule text denotes: a component letter, a comparison, a decimal
/// threshold and a destination name after the colon.
pub open spec fn spec_parse_rule(p: Seq<u8>) -> Option<(u8, CmpType, u64, Seq<u8>)> {
    if p.len() >= 2 && component_ok(p[0]) && (p[1] == 62 || p[1] == 60) {
        let rest = split_on(p.skip(2), 58);
        if rest.len() == 2 && rest[0].len() >= 1 && all_digits(rest[0]) && digits_val(rest[0])
            <= u64::MAX && rest[1].len() >= 1 {
            Some(
                (
                    p[0],
                    if p[1] == 62 {
                        CmpType::Greater
                    } else {
                        CmpType::Lesser
                    },
                    digits_val(rest[0]) as u64,
                    rest[1],
                ),
            )
        } else {
            None
        }
    } else {
        None
    }
}

impl Rule {
    /// Parse one rule.
    pub fn parse(s: &str) -> (r: Option<Rule>)
        ensures
            match r {
                Some(rule) => spec_parse_rule(s.spec_bytes()) matches Some(shape) && rule.lhs
                    == shape.0 && rule.cmp == shape.1 && rule.rhs == shape.2 && rule.dst@
                    == shape.3,
                None => spec_parse_rule(s.spec_bytes()) is None,
            },
    {
        rule_from_bytes(s.as_bytes())
    }

    /// Whether the part's named component passes the comparison.
    pub fn matches(&self, part: &Part) -> (r: bool)
        requires
            component_ok(self.lhs),
        ensures
            r == match self.cmp {
                CmpType::Greater => component_of(*part, self.lhs) > self.rhs,
                CmpType::Lesser => component_of(*part, self.lhs) < self.rhs,
            },
    {
        let lhs = if self.lhs == 120 {
            part.x
        } else if self.lhs == 109 {
            part.m
        } else if self.lhs == 97 {
            part.a
        } else {
            part.s
        };
        match self.cmp {
            CmpType::Greater => lhs > self.rhs,
            CmpType::Lesser => lhs < self.rhs,
        }
    }
}

/// Parse one rule from raw bytes.
fn rule_from_bytes(bs: &[u8]) -> (r: Option<Rule>)
    ensures
        match r {
            Some(rule) => spec_parse_rule(bs@) matches Some(shape) && rule.lhs == shape.0
                && rule.cmp == shape.1 && rule.rhs == shape.2 && rule.dst@ == shape.3,
            None => spec_parse_rule(bs@) is None,
        },
{
    if bs.len() < 2 {
        return None;
    }
    let c = bs[0];
    if !(c == 120 || c == 109 || c == 97 || c == 115) {
        return None;
    }
    let op = bs[1];
    if op != 62 && op != 60 {
        return None;
    }
    let rest = suffix_bytes(bs, 2);
    proof {
        assert(rest@ =~= bs@.skip(2));
    }
    let colon = split_bytes(rest.as_slice(), 58);
    proof {
        crate::crucible::lemma_grid_deep_view(&colon);
    }
    if colon.len() != 2 {
        return None;
    }
    let num = match parse_u64(colon[0].as_slice()) {
        Some(v) => v,
        None => {
            proof {
                if colon[0]@.len() >= 1 && all_digits(colon[0]@) && digits_val(colon[0]@)
                    <= u64::MAX {
                    crate::scan::lemma_digits_val_nonneg(colon[0]@);
                }
            }
            return None;
        },
    };
    if colon[1].len() == 0 {
        return None;
    }
    let dst = crate::scan::prefix_bytes(colon[1].as_slice(), colon[1].len());
    proof {
        assert(dst@ =~= split_on(bs@.skip(2), 58)[1]);
    }
    Some(
        Rule {
            lhs: c,
            cmp: if op == 62 {
                CmpType::Greater
            } else {
                CmpType::Lesser
            },
            rhs: num,
            dst,
        },
    )
}

/// What a workflow's rule list denotes.
pub open spec fn spec_parse_rules(pieces: Seq<Seq<u8>>) -> Option<Seq<(u8, CmpType, u64, Seq<u8>)>>
    decreases pieces.len(),
{
    if pieces.len() == 0 {
        Some(Seq::empty())
    } else {
        match (spec_parse_rules(pieces.drop_last()), spec_parse_rule(pieces.last())) {
            (Some(acc), Some(rl)) => Some(acc.push(rl)),
            _ => None,
        }
    }
}

proof fn lemma_rules_none(pieces: Seq<Seq<u8>>, i: int)
    requires
        0 <= i <= pieces.len(),
        spec_parse_rules(pieces.take(i)) is None,
    ensures
        spec_parse_rules(pieces) is None,
    decreases pieces.len() - i,
{
    if i < pieces.len() {
        assert(pieces.take(i + 1).drop_last() =~= pieces.take(i));
        lemma_rules_none(pieces, i + 1);
    } else {
        assert(pieces.take(i) =~= pieces);
    }
}

impl Workflow {
    /// Parse a workflow: `name{rule,...,default}`.  The last of the
    /// comma-separated pieces is the fall-through destination.
    pub fn parse(s: &str) -> (r: Option<Workflow>)
        ensures
            match r {
                Some(wf) => {
                    let bs = s.spec_bytes();
                    let top = split_on(bs, 123);
                    top.len() == 2 && top[1].len() >= 1 && top[1].last() == 125 && wf.name@
                        == top[0] && {
                        let pieces = split_on(top[1].take(top[1].len() - 1), 44);
                        &&& pieces.len() >= 1
                        &&& wf.default@ == pieces.last()
                        &&& spec_parse_rules(pieces.drop_last()) matches Some(shapes)
                        &&& wf.rules@.len() == shapes.len()
                        &&& forall|i: int|
                            0 <= i < shapes.len() ==> (#[trigger] wf.rules@[i]).lhs
                                == shapes[i].0 && wf.rules@[i].cmp == shapes[i].1
                                && wf.rules@[i].rhs == shapes[i].2 && wf.rules@[i].dst@
                                == shapes[i].3
                    }
                },
                None => true,
            },
    {
        let bs = s.as_bytes();
        let top = split_bytes(bs, 123);
        proof {
            crate::crucible::lemma_grid_deep_view(&top);
        }
        if top.len() != 2 {
            return None;
        }
        let body = &top[1];
        if body.len() == 0 || body[body.len() - 1] != 125 {
            return None;
        }
        let inner = crate::scan::prefix_bytes(body.as_slice(), body.len() - 1);
        proof {
            assert(inner@ =~= split_on(bs@, 123)[1].take(split_on(bs@, 123)[1].len() - 1));
        }
        let pieces = split_bytes(inner.as_slice(), 44);
        proof {
            crate::crucible::lemma_grid_deep_view(&pieces);
        }
        let default = crate::scan::prefix_bytes(
            pieces[pieces.len() - 1].as_slice(),
            pieces[pieces.len() - 1].len(),
        );
        let mut rules: Vec<Rule> = Vec::new();
        let mut i: usize = 0;
        #[verifier::loop_isolation(false)]
        while i < pieces.len() - 1
            invariant
                0 <= i <= pieces@.len() - 1,
                spec_parse_rules(pieces.deep_view().drop_last().take(i as int)) matches Some(
                    shapes,
                ) && rules@.len() == shapes.len() && (forall|t: int|
                    0 <= t < shapes.len() ==> (#[trigger] rules@[t]).lhs == shapes[t].0
                        && rules@[t].cmp == shapes[t].1 && rules@[t].rhs == shapes[t].2
                        && rules@[t].dst@ == shapes[t].3),
            decreases pieces@.len() - 1 - i,
        {
            proof {
                let dl = pieces.deep_view().drop_last();
                assert(dl.take(i + 1).drop_last() =~= dl.take(i as int));
                assert(dl.take(i + 1).last() == dl[i as int]);
                assert(dl[i as int] == pieces.deep_view()[i as int]);
            }
            match rule_from_bytes(pieces[i].as_slice()) {
                Some(rule) => {
                    rules.push(rule);
                },
                None => {
                    return None;
                },
            }
            i += 1;
        }
        proof {
            let dl = pieces.deep_view().drop_last();
            assert(dl.take(dl.len() as int) =~= dl);
            assert(default@ =~= pieces.deep_view().last());
        }
        let name = crate::scan::prefix_bytes(top[0].as_slice(), top[0].len());
        proof {
            assert(name@ =~= split_on(bs@, 123)[0]);
        }
        Some(Workflow { name, rules, default })
    }
}

} // verus!
