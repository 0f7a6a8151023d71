//! The lens library: a rolling byte hash assigns labels to one of 256
//! boxes; a step list inserts, replaces and removes labelled lenses, and
//! the focusing power scores the final arrangement.

use vstd::prelude::*;
use vstd::string::StringSliceAdditionalSpecFns;

use crate::scan::{
    all_digits, digits_val, find_byte, find_first, parse_u64, prefix_bytes, split_bytes, split_on,
};

verus! {

/// One hash round: line feeds are skipped; any other byte is added and the
/// total is scaled by seventeen, modulo 256.
pub open spec fn spec_hash_step(h: int, b: u8) -> int {
    if b == 10 {
        h
    } else {
        ((h + b) * 17) % 256
    }
}

/// The rolling hash of a byte string.
pub open spec fn spec_hash(bs: Seq<u8>) -> int
    decreases bs.len(),
{
    if bs.len() == 0 {
        0
    } else {
        spec_hash_step(spec_hash(bs.drop_last()), bs.last())
    }
}

/// The rolling hash of a byte string, executably.
pub fn hash_bytes(bs: &[u8]) -> (r: usize)
    ensures
        r as int == spec_hash(bs@),
        r < 256,
{
    let mut curr: usize = 0;
    let mut i: usize = 0;
    #[verifier::loop_isolation(false)]
    while i < bs.len()
        invariant
            0 <= i <= bs@.len(),
            curr as int == spec_hash(bs@.take(i as int)),
            curr < 256,
        decreases bs@.len() - i,
    {
        proof {
            assert(bs@.take(i + 1).drop_last() =~= bs@.take(i as int));
            assert(bs@.take(i + 1).last() == bs@[i as int]);
        }
        let b = bs[i];
        if b != 10 {
            curr = ((curr + (b as usize)) * 17) % 256;
        }
        i += 1;
    }
    proof {
        assert(bs@.take(bs@.len() as int) =~= bs@);
    }
    curr
}

/// The rolling hash of an ASCII string.
pub fn hash(s: &str) -> (r: usize)
    requires
        s.is_ascii(),
    ensures
        r as int == spec_hash(s.spec_bytes()),
        r < 256,
{
    hash_bytes(s.as_bytes())
}

/// What a step does to its box.
#[derive(Clone, Copy, Debug, PartialEq, Eq, Structural)]
pub enum Operation {
    PutLens { focal_length: usize },
    TakeLens,
}

/// One initialization step: its label, operation, whole-step hash and the
/// box its label selects.
#[derive(Clone, Debug)]
pub struct Step {
    pub label: Vec<u8>,
    pub op: Operation,
    pub hash: usize,
    pub box_number: usize,
}

/// A lens sitting in a box.
#[derive(Clone, Debug, PartialEq, Eq)]
pub struct Lens {
    pub label: Vec<u8>,
    pub focal_length: usize,
}

/// The specification-level image of a parsed step.
pub struct StepShape {
    pub label: Seq<u8>,
    pub op: Operation,
    pub hash: int,
    pub box_number: int,
}

/// What one comma-separated piece denotes.  A piece holding a `-` takes its
/// lens out (the label is everything before the final byte); otherwise the
/// piece must read `label=focal`.
pub open spec fn spec_parse_step(p: Seq<u8>) -> Option<StepShape> {
    if 0 <= find_first(p, 45) < p.len() {
        Some(
            StepShape {
                label: p.take(p.len() - 1),
                op: Operation::TakeLens,
                hash: spec_hash(p),
                box_number: spec_hash(p.take(p.len() - 1)),
            },
        )
    } else {
        let sp = split_on(p, 61);
        if sp.len() == 2 && sp[1].len() >= 1 && all_digits(sp[1]) && digits_val(sp[1])
            <= usize::MAX {
            Some(
                StepShape {
                    label: sp[0],
                    op: Operation::PutLens { focal_length: digits_val(sp[1]) as usize },
                    hash: spec_hash(p),
                    box_number: spec_hash(sp[0]),
                },
            )
        } else {
            None
        }
    }
}

/// What a whole step list denotes.
pub open spec fn spec_parse_steps(pieces: Seq<Seq<u8>>) -> Option<Seq<StepShape>>
    decreases pieces.len(),
{
    if pieces.len() == 0 {
        Some(Seq::empty())
    } else {
        match (spec_parse_steps(pieces.drop_last()), spec_parse_step(pieces.last())) {
            (Some(acc), Some(st)) => Some(acc.push(st)),
            _ => None,
        }
    }
}

/// A step and its parsed image agree on every field.
pub open spec fn step_matches(st: Step, shape: StepShape) -> bool {
    &&& st.label@ == shape.label
    &&& st.op == shape.op
    &&& st.hash as int == shape.hash
    &&& st.box_number as int == shape.box_number
}

proof fn lemma_parse_steps_none(pieces: Seq<Seq<u8>>, i: int)
    requires
        0 <= i <= pieces.len(),
        spec_parse_steps(pieces.take(i)) is None,
    ensures
        spec_parse_steps(pieces) is None,
    decreases pieces.len() - i,
{
    if i < pieces.len() {
        assert(pieces.take(i + 1).drop_last() =~= pieces.take(i));
        lemma_parse_steps_none(pieces, i + 1);
    } else {
        assert(pieces.take(i) =~= pieces);
    }
}

/// Parse one piece of the comma-separated step list.
fn parse_step(piece: &Vec<u8>) -> (r: Option<Step>)
    ensures
        match r {
            Some(st) => spec_parse_step(piece@) matches Some(shape) && step_matches(st, shape),
            None => spec_parse_step(piece@) is None,
        },
{
    let h = hash_bytes(piece.as_slice());
    let dash = find_byte(piece.as_slice(), 45);
    if dash < piece.len() {
        let label = prefix_bytes(piece.as_slice(), piece.len() - 1);
        let b = hash_bytes(label.as_slice());
        return Some(Step { label, op: Operation::TakeLens, hash: h, box_number: b });
    }
    let sp = split_bytes(piece.as_slice(), 61);
    proof {
        crate::crucible::lemma_grid_deep_view(&sp);
    }
    if sp.len() != 2 {
        return None;
    }
    let fl = match parse_u64(sp[1].as_slice()) {
        Some(v) => v,
        None => {
            proof {
                if sp[1]@.len() >= 1 && all_digits(sp[1]@) && digits_val(sp[1]@) <= usize::MAX {
                    crate::scan::lemma_digits_val_nonneg(sp[1]@);
                }
            }
            return None;
        },
    };
    if fl > usize::MAX as u64 {
        return None;
    }
    let label = prefix_bytes(sp[0].as_slice(), sp[0].len());
    proof {
        assert(label@ =~= sp.deep_view()[0]);
    }
    let b = hash_bytes(label.as_slice());
    Some(
        Step {
            label,
            op: Operation::PutLens { focal_length: fl as usize },
            hash: h,
            box_number: b,
        },
    )
}

/// Parse the comma-separated step list.  Succeeds exactly when every piece
/// is a well-formed step.
pub fn parse(s: &str) -> (r: Option<Vec<Step>>)
    ensures
        match r {
            Some(steps) => spec_parse_steps(split_on(s.spec_bytes(), 44)) matches Some(shapes)
                && steps@.len() == shapes.len() && (forall|i: int|
                0 <= i < steps@.len() ==> step_matches(#[trigger] steps@[i], shapes[i])),
            None => spec_parse_steps(split_on(s.spec_bytes(), 44)) is None,
        },
{
    let pieces = split_bytes(s.as_bytes(), 44);
    proof {
        crate::crucible::lemma_grid_deep_view(&pieces);
    }
    let mut steps: Vec<Step> = Vec::new();
    let mut i: usize = 0;
    #[verifier::loop_isolation(false)]
    while i < pieces.len()
        invariant
            0 <= i <= pieces@.len(),
            spec_parse_steps(pieces.deep_view().take(i as int)) matches Some(shapes)
                && steps@.len() == shapes.len() && (forall|t: int|
                0 <= t < steps@.len() ==> step_matches(#[trigger] steps@[t], shapes[t])),
        decreases pieces@.len() - i,
    {
        proof {
            assert(pieces.deep_view().take(i + 1).drop_last() =~= pieces.deep_view().take(
                i as int,
            ));
            assert(pieces.deep_view().take(i + 1).last() == pieces.deep_view()[i as int]);
        }
        match parse_step(&pieces[i]) {
            Some(st) => {
                steps.push(st);
            },
            None => {
                proof {
                    lemma_parse_steps_none(pieces.deep_view(), i + 1);
                }
                return None;
            },
        }
        i += 1;
    }
    proof {
        assert(pieces.deep_view().take(pieces.deep_view().len() as int) =~= pieces.deep_view());
    }
    Some(steps)
}

/// A box as plain values: each lens as its label and focal length.
pub open spec fn box_view(b: Seq<Lens>) -> Seq<(Seq<u8>, int)> {
    Seq::new(b.len(), |i: int| (b[i].label@, b[i].focal_length as int))
}

/// An arrangement as plain values.
pub open spec fn boxes_view(boxes: Seq<Vec<Lens>>) -> Seq<Seq<(Seq<u8>, int)>> {
    Seq::new(boxes.len(), |k: int| box_view(boxes[k]@))
}

/// The first slot of the box holding `label`, or the box's length when
/// absent.
pub open spec fn slot_of(b: Seq<(Seq<u8>, int)>, label: Seq<u8>) -> int
    decreases b.len(),
{
    if b.len() == 0 {
        0
    } else if b[0].0 == label {
        0
    } else {
        1 + slot_of(b.drop_first(), label)
    }
}

/// What one step does to the arrangement: putting a lens replaces the lens
/// with the same label in place, else appends at the back; taking a lens
/// removes it and closes the gap; a box number off the shelf does nothing.
pub open spec fn spec_apply_step(
    boxes: Seq<Seq<(Seq<u8>, int)>>,
    label: Seq<u8>,
    op: Operation,
    bn: int,
) -> Seq<Seq<(Seq<u8>, int)>> {
    if !(0 <= bn < boxes.len()) {
        boxes
    } else {
        let b = boxes[bn];
        let i = slot_of(b, label);
        match op {
            Operation::PutLens { focal_length } => if i < b.len() {
                boxes.update(bn, b.update(i, (label, focal_length as int)))
            } else {
                boxes.update(bn, b.push((label, focal_length as int)))
            },
            Operation::TakeLens => if i < b.len() {
                boxes.update(bn, b.remove(i))
            } else {
                boxes
            },
        }
    }
}

/// The arrangement after running the whole step list.
pub open spec fn spec_apply_steps(
    boxes0: Seq<Seq<(Seq<u8>, int)>>,
    steps: Seq<Step>,
) -> Seq<Seq<(Seq<u8>, int)>>
    decreases steps.len(),
{
    if steps.len() == 0 {
        boxes0
    } else {
        spec_apply_step(
            spec_apply_steps(boxes0, steps.drop_last()),
            steps.last().label@,
            steps.last().op,
            steps.last().box_number as int,
        )
    }
}

/// The 256 empty boxes the process starts from.
pub open spec fn empty_boxes() -> Seq<Seq<(Seq<u8>, int)>> {
    Seq::new(256, |k: int| Seq::<(Seq<u8>, int)>::empty())
}

/// `slot_of` returns exactly the first slot with the label.
proof fn lemma_slot_at(b: Seq<(Seq<u8>, int)>, label: Seq<u8>, j: int)
    requires
        0 <= j <= b.len(),
        forall|t: int| 0 <= t < j ==> (#[trigger] b[t]).0 != label,
        j < b.len() ==> b[j].0 == label,
        j == b.len() ==> forall|t: int| 0 <= t < b.len() ==> (#[trigger] b[t]).0 != label,
    ensures
        slot_of(b, label) == j,
    decreases b.len(),
{
    if b.len() == 0 {
    } else if b[0].0 == label {
    } else {
        let d = b.drop_first();
        assert(forall|t: int| 0 <= t < d.len() ==> #[trigger] d[t] == b[t + 1]);
        lemma_slot_at(d, label, j - 1);
    }
}

/// Labels of the lenses of one box.
pub open spec fn box_labels(b: Seq<Lens>) -> Seq<Seq<u8>> {
    Seq::new(b.len(), |i: int| b[i].label@)
}

/// No two lenses of the box share a label.
pub open spec fn labels_unique(b: Seq<Lens>) -> bool {
    forall|i: int, j: int|
        0 <= i < j < b.len() ==> #[trigger] b[i].label@ != #[trigger] b[j].label@
}

/// A well-formed arrangement: 256 boxes, unique labels per box, and every
/// lens hashed into the box that holds it.
pub open spec fn boxes_wf(boxes: Seq<Vec<Lens>>) -> bool {
    &&& boxes.len() == 256
    &&& forall|k: int| 0 <= k < 256 ==> labels_unique(#[trigger] boxes[k]@)
    &&& forall|k: int, i: int|
        0 <= k < 256 && 0 <= i < boxes[k]@.len() ==> spec_hash(
            #[trigger] boxes[k]@[i].label@,
        ) == k
}

/// Run the step list over 256 initially empty boxes.  The result is
/// exactly the fold of [`spec_apply_step`] over the steps: putting a lens
/// replaces the lens with the same label keeping its slot, else appends at
/// the back; taking a lens removes it and closes the gap.  The arrangement
/// also always keeps one box per hash value, at most one lens per label in
/// a box, and every lens in the box its label hashes to.
pub fn q2(steps: Vec<Step>) -> (boxes: Vec<Vec<Lens>>)
    requires
        forall|i: int| 0 <= i < steps@.len() ==> (#[trigger] steps@[i]).box_number as int
            == spec_hash(steps@[i].label@),
    ensures
        boxes_view(boxes@) == spec_apply_steps(empty_boxes(), steps@),
        boxes_wf(boxes@),
{
    let mut boxes: Vec<Vec<Lens>> = Vec::new();
    let mut k: usize = 0;
    #[verifier::loop_isolation(false)]
    while k < 256
        invariant
            0 <= k <= 256,
            boxes@.len() == k,
            forall|t: int| 0 <= t < k ==> (#[trigger] boxes@[t])@.len() == 0,
        decreases 256 - k,
    {
        boxes.push(Vec::new());
        k += 1;
    }
    proof {
        assert(boxes_view(boxes@) =~~= empty_boxes());
        assert(spec_apply_steps(empty_boxes(), steps@.take(0)) == empty_boxes());
    }
    let mut s: usize = 0;
    #[verifier::loop_isolation(false)]
    while s < steps.len()
        invariant
            0 <= s <= steps@.len(),
            boxes@.len() == 256,
            boxes_wf(boxes@),
            boxes_view(boxes@) == spec_apply_steps(empty_boxes(), steps@.take(s as int)),
        decreases steps@.len() - s,
    {
        proof {
            assert(steps@.take(s + 1).drop_last() =~= steps@.take(s as int));
            assert(steps@.take(s + 1).last() == steps@[s as int]);
        }
        let step = &steps[s];
        let ghost before = boxes_view(boxes@);
        if step.box_number < 256 {
            let bn = step.box_number;
            // find the lens with this label, if any
            let mut pos: usize = 0;
            let mut found = false;
            #[verifier::loop_isolation(false)]
            while pos < boxes[bn].len() && !found
                invariant
                    0 <= bn < 256,
                    boxes_wf(boxes@),
                    0 <= pos <= boxes@[bn as int]@.len(),
                    found ==> pos < boxes@[bn as int]@.len() && boxes@[bn as int]@[pos as int].label@
                        == step.label@,
                    !found ==> forall|t: int|
                        0 <= t < pos ==> (#[trigger] boxes@[bn as int]@[t]).label@ != step.label@,
                decreases boxes@[bn as int]@.len() - pos + (if found { 0int } else { 1int }),
            {
                if bytes_eq(&boxes[bn][pos].label, &step.label) {
                    found = true;
                } else {
                    pos += 1;
                }
            }
            proof {
                // the scan found the first matching slot, which is the
                // slot the step specification speaks of
                let bv = before[bn as int];
                assert(bv.len() == boxes@[bn as int]@.len());
                assert(forall|t: int|
                    0 <= t < bv.len() ==> #[trigger] bv[t] == (
                    boxes@[bn as int]@[t].label@,
                    boxes@[bn as int]@[t].focal_length as int,
                ));
                if found {
                    lemma_slot_at(bv, step.label@, pos as int);
                } else {
                    lemma_slot_at(bv, step.label@, bv.len() as int);
                }
            }
            match step.op {
                Operation::PutLens { focal_length } => {
                    let lens = Lens { label: clone_bytes(&step.label), focal_length };
                    let ghost old_boxes = boxes@;
                    if found {
                        let mut b = boxes.remove(bn);
                        b.remove(pos);
                        b.insert(pos, lens);
                        boxes.insert(bn, b);
                        proof {
                            assert(forall|t: int|
                                0 <= t < 256 && t != bn ==> #[trigger] boxes@[t]
                                    == old_boxes[t]);
                            let nb = boxes@[bn as int]@;
                            let ob = old_boxes[bn as int]@;
                            assert(nb.len() == ob.len());
                            assert(forall|t: int|
                                0 <= t < ob.len() && t != pos ==> #[trigger] nb[t] == ob[t]);
                            assert(nb[pos as int].label@ == step.label@);
                            lemma_boxes_update(old_boxes, boxes@, bn as int, step.label@);
                            assert(nb[pos as int].focal_length == focal_length);
                            assert(box_view(nb) =~= before[bn as int].update(
                                pos as int,
                                (step.label@, focal_length as int),
                            ));
                            assert(boxes_view(boxes@) =~~= spec_apply_step(
                                before,
                                step.label@,
                                step.op,
                                bn as int,
                            ));
                        }
                    } else {
                        let mut b = boxes.remove(bn);
                        b.push(lens);
                        boxes.insert(bn, b);
                        proof {
                            assert(forall|t: int|
                                0 <= t < 256 && t != bn ==> #[trigger] boxes@[t]
                                    == old_boxes[t]);
                            let nb = boxes@[bn as int]@;
                            let ob = old_boxes[bn as int]@;
                            assert(nb.len() == ob.len() + 1);
                            assert(forall|t: int|
                                0 <= t < ob.len() ==> #[trigger] nb[t] == ob[t]);
                            assert(nb.last().label@ == step.label@);
                            lemma_boxes_update(old_boxes, boxes@, bn as int, step.label@);
                            assert(nb.last().focal_length == focal_length);
                            assert(box_view(nb) =~= before[bn as int].push(
                                (step.label@, focal_length as int),
                            ));
                            assert(boxes_view(boxes@) =~~= spec_apply_step(
                                before,
                                step.label@,
                                step.op,
                                bn as int,
                            ));
                        }
                    }
                },
                Operation::TakeLens => {
                    if found {
                        let ghost old_boxes = boxes@;
                        let mut b = boxes.remove(bn);
                        b.remove(pos);
                        boxes.insert(bn, b);
                        proof {
                            assert(forall|t: int|
                                0 <= t < 256 && t != bn ==> #[trigger] boxes@[t]
                                    == old_boxes[t]);
                            assert(boxes@[bn as int]@ =~= old_boxes[bn as int]@.remove(
                                pos as int,
                            ));
                            lemma_boxes_take(old_boxes, boxes@, bn as int, pos as int);
                            assert(box_view(boxes@[bn as int]@) =~= before[bn as int].remove(
                                pos as int,
                            ));
                            assert(boxes_view(boxes@) =~~= spec_apply_step(
                                before,
                                step.label@,
                                step.op,
                                bn as int,
                            ));
                        }
                    } else {
                        proof {
                            assert(boxes_view(boxes@) == spec_apply_step(
                                before,
                                step.label@,
                                step.op,
                                bn as int,
                            ));
                        }
                    }
                },
            }
        } else {
            proof {
                assert(boxes_view(boxes@) == spec_apply_step(
                    before,
                    step.label@,
                    step.op,
                    step.box_number as int,
                ));
            }
        }
        proof {
            assert(steps@[s as int].label@ == step.label@ && steps@[s as int].op == step.op
                && steps@[s as int].box_number == step.box_number);
        }
        s += 1;
    }
    proof {
        assert(steps@.take(steps@.len() as int) =~= steps@);
    }
    boxes
}

/// Byte-string equality.
fn bytes_eq(a: &Vec<u8>, b: &Vec<u8>) -> (r: bool)
    ensures
        r == (a@ == b@),
{
    if a.len() != b.len() {
        proof {
            assert(a@.len() != b@.len());
        }
        return false;
    }
    let mut i: usize = 0;
    #[verifier::loop_isolation(false)]
    while i < a.len()
        invariant
            0 <= i <= a@.len(),
            a@.len() == b@.len(),
            forall|t: int| 0 <= t < i ==> a@[t] == b@[t],
        decreases a@.len() - i,
    {
        if a[i] != b[i] {
            return false;
        }
        i += 1;
    }
    proof {
        assert(a@ =~= b@);
    }
    true
}

/// Copy a byte string.
fn clone_bytes(a: &Vec<u8>) -> (r: Vec<u8>)
    ensures
        r@ == a@,
{
    crate::scan::prefix_bytes(a.as_slice(), a.len())
}

proof fn lemma_boxes_update(
    old_boxes: Seq<Vec<Lens>>,
    new_boxes: Seq<Vec<Lens>>,
    bn: int,
    label: Seq<u8>,
)
    requires
        boxes_wf(old_boxes),
        0 <= bn < 256,
        new_boxes.len() == 256,
        forall|t: int| 0 <= t < 256 && t != bn ==> #[trigger] new_boxes[t] == old_boxes[t],
        spec_hash(label) == bn,
        // the changed box either replaces the lens at a position that had
        // this label, or appends a lens with this label
        (exists|pos: int|
            0 <= pos < old_boxes[bn]@.len() && old_boxes[bn]@[pos].label@ == label
                && new_boxes[bn]@.len() == old_boxes[bn]@.len() && (forall|t: int|
                0 <= t < old_boxes[bn]@.len() && t != pos ==> #[trigger] new_boxes[bn]@[t]
                    == old_boxes[bn]@[t]) && new_boxes[bn]@[pos].label@ == label) || (
        new_boxes[bn]@.len() == old_boxes[bn]@.len() + 1 && (forall|t: int|
            0 <= t < old_boxes[bn]@.len() ==> #[trigger] new_boxes[bn]@[t] == old_boxes[bn]@[t])
            && new_boxes[bn]@.last().label@ == label && (forall|t: int|
            0 <= t < old_boxes[bn]@.len() ==> (#[trigger] old_boxes[bn]@[t]).label@ != label)),
    ensures
        boxes_wf(new_boxes),
{
}

proof fn lemma_boxes_take(
    old_boxes: Seq<Vec<Lens>>,
    new_boxes: Seq<Vec<Lens>>,
    bn: int,
    pos: int,
)
    requires
        boxes_wf(old_boxes),
        0 <= bn < 256,
        0 <= pos < old_boxes[bn]@.len(),
        new_boxes.len() == 256,
        forall|t: int| 0 <= t < 256 && t != bn ==> #[trigger] new_boxes[t] == old_boxes[t],
        new_boxes[bn]@ == old_boxes[bn]@.remove(pos),
    ensures
        boxes_wf(new_boxes),
{
    assert forall|i: int, j: int|
        0 <= i < j < new_boxes[bn]@.len() implies #[trigger] new_boxes[bn]@[i].label@
        != #[trigger] new_boxes[bn]@[j].label@ by {
        if j < pos {
        } else if i < pos {
            assert(new_boxes[bn]@[j] == old_boxes[bn]@[j + 1]);
        } else {
            assert(new_boxes[bn]@[i] == old_boxes[bn]@[i + 1]);
            assert(new_boxes[bn]@[j] == old_boxes[bn]@[j + 1]);
        }
    }
    assert forall|i: int| 0 <= i < new_boxes[bn]@.len() implies spec_hash(
        #[trigger] new_boxes[bn]@[i].label@,
    ) == bn by {
        if i >= pos {
            assert(new_boxes[bn]@[i] == old_boxes[bn]@[i + 1]);
        }
    }
}

/// The focusing power of an arrangement: for each lens, one plus its box
/// number, times its one-based slot, times its focal length.
pub open spec fn spec_box_power(b: Seq<Lens>, bn: int) -> int
    decreases b.len(),
{
    if b.len() == 0 {
        0
    } else {
        spec_box_power(b.drop_last(), bn) + (1 + bn) * (b.len() as int) * (
        b.last().focal_length as int)
    }
}

/// Total focusing power over all boxes.
pub open spec fn spec_power(boxes: Seq<Vec<Lens>>) -> int
    decreases boxes.len(),
{
    if boxes.len() == 0 {
        0
    } else {
        spec_power(boxes.drop_last()) + spec_box_power(
            boxes.last()@,
            boxes.len() - 1,
        )
    }
}

proof fn lemma_box_power_nonneg(b: Seq<Lens>, bn: int)
    requires
        bn >= 0,
    ensures
        spec_box_power(b, bn) >= 0,
    decreases b.len(),
{
    if b.len() > 0 {
        lemma_box_power_nonneg(b.drop_last(), bn);
        assert((1 + bn) * (b.len() as int) * (b.last().focal_length as int) >= 0)
            by (nonlinear_arith)
            requires
                bn >= 0,
                b.len() >= 1,
                b.last().focal_length >= 0,
        ;
    }
}

proof fn lemma_box_power_prefix(b: Seq<Lens>, bn: int, i: int)
    requires
        bn >= 0,
        0 <= i <= b.len(),
    ensures
        spec_box_power(b.take(i), bn) <= spec_box_power(b, bn),
    decreases b.len() - i,
{
    if i < b.len() {
        lemma_box_power_prefix(b, bn, i + 1);
        assert(b.take(i + 1).drop_last() =~= b.take(i));
        assert((1 + bn) * (i + 1) * (b[i].focal_length as int) >= 0) by (nonlinear_arith)
            requires
                bn >= 0,
                i >= 0,
                b[i].focal_length >= 0,
        ;
    } else {
        assert(b.take(i) =~= b);
    }
}

proof fn lemma_power_nonneg(boxes: Seq<Vec<Lens>>)
    ensures
        spec_power(boxes) >= 0,
    decreases boxes.len(),
{
    if boxes.len() > 0 {
        lemma_power_nonneg(boxes.drop_last());
        lemma_box_power_nonneg(boxes.last()@, boxes.len() - 1);
    }
}

proof fn lemma_power_prefix(boxes: Seq<Vec<Lens>>, i: int)
    requires
        0 <= i <= boxes.len(),
    ensures
        spec_power(boxes.take(i)) <= spec_power(boxes),
    decreases boxes.len() - i,
{
    if i < boxes.len() {
        lemma_power_prefix(boxes, i + 1);
        assert(boxes.take(i + 1).drop_last() =~= boxes.take(i));
        lemma_box_power_nonneg(boxes.take(i + 1).last()@, i);
    } else {
        assert(boxes.take(i) =~= boxes);
    }
}

/// Total focusing power of an arrangement.
pub fn focusing_power(boxes: &Vec<Vec<Lens>>) -> (p: usize)
    requires
        spec_power(boxes@) <= usize::MAX,
    ensures
        p == spec_power(boxes@),
{
    let mut p: usize = 0;
    let mut k: usize = 0;
    #[verifier::loop_isolation(false)]
    while k < boxes.len()
        invariant
            0 <= k <= boxes@.len(),
            p == spec_power(boxes@.take(k as int)),
        decreases boxes@.len() - k,
    {
        let b = &boxes[k];
        proof {
            lemma_box_power_nonneg(b@, k as int);
        }
        let mut q: usize = 0;
        let mut j: usize = 0;
        #[verifier::loop_isolation(false)]
        while j < b.len()
            invariant
                0 <= j <= b@.len(),
                q == spec_box_power(b@.take(j as int), k as int),
                q <= spec_box_power(b@, k as int),
            decreases b@.len() - j,
        {
            proof {
                assert(b@.take(j + 1).drop_last() =~= b@.take(j as int));
                assert(b@.take(j + 1).last() == b@[j as int]);
                lemma_box_power_prefix(b@, k as int, j + 1);
                lemma_box_power_nonneg(b@.take(j as int), k as int);
                assert(spec_box_power(b@, k as int) <= spec_power(boxes@)) by {
                    lemma_power_prefix(boxes@, k + 1);
                    lemma_power_nonneg(boxes@.take(k as int));
                    assert(boxes@.take(k + 1).drop_last() =~= boxes@.take(k as int));
                    assert(boxes@.take(k + 1).last() == boxes@[k as int]);
                }
                assert((1 + k as int) * ((j + 1) as int) * (b@[j as int].focal_length as int)
                    == spec_box_power(b@.take(j + 1), k as int) - spec_box_power(
                    b@.take(j as int),
                    k as int,
                ));
            }
            let f = b[j].focal_length;
            let term: usize = if f == 0 {
                proof {
                    assert((1 + k as int) * ((j + 1) as int) * 0 == 0) by (nonlinear_arith);
                }
                0
            } else {
                proof {
                    assert((1 + k as int) * ((j + 1) as int) <= (1 + k as int) * ((j + 1) as int)
                        * (f as int)) by (nonlinear_arith)
                        requires
                            f >= 1,
                            k >= 0,
                            j >= 0,
                    ;
                }
                (1 + k) * (j + 1) * f
            };
            q = q + term;
            j += 1;
        }
        proof {
            assert(b@.take(b@.len() as int) =~= b@);
            assert(boxes@.take(k + 1).drop_last() =~= boxes@.take(k as int));
            assert(boxes@.take(k + 1).last() == boxes@[k as int]);
            lemma_power_prefix(boxes@, k + 1);
            lemma_power_nonneg(boxes@.take(k as int));
        }
        p = p + q;
        k += 1;
    }
    proof {
        assert(boxes@.take(boxes@.len() as int) =~= boxes@);
    }
    p
}

} // verus!
