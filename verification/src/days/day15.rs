//! A running hash over the steps of an initialisation sequence.

use linked_hash_map::LinkedHashMap;
use vstd::prelude::*;
use vstd::string::{StrSliceExecFns, StringSliceAdditionalSpecFns};
use vstd::utf8::encode_utf8;
use crate::text::{is_digit, digit_value, split, split_bounds, to_chars};

verus! {

/// The hash of a run of bytes: start at 0 and for each byte add it, multiply
/// by 17 and keep the remainder on division by 256.
pub open spec fn hash_of(bytes: Seq<u8>) -> int
    decreases bytes.len(),
{
    if bytes.len() == 0 {
        0
    } else {
        (hash_of(bytes.drop_last()) + bytes.last()) * 17 % 256
    }
}

/// The steps of a sequence: the runs of bytes between its commas, of which
/// there is one more than commas.
pub open spec fn steps(bytes: Seq<u8>) -> Seq<Seq<u8>>
    decreases bytes.len(),
{
    if bytes.len() == 0 {
        seq![Seq::empty()]
    } else {
        let before = steps(bytes.drop_last());
        if bytes.last() == 44u8 {
            before.push(Seq::empty())
        } else {
            before.drop_last().push(before.last().push(bytes.last()))
        }
    }
}

/// The sum of the hashes of the given steps.
pub open spec fn hash_sum(steps: Seq<Seq<u8>>) -> int
    decreases steps.len(),
{
    if steps.len() == 0 {
        0
    } else {
        hash_sum(steps.drop_last()) + hash_of(steps.last())
    }
}

pub proof fn lemma_hash_range(bytes: Seq<u8>)
    ensures
        0 <= hash_of(bytes) < 256,
    decreases bytes.len(),
{
    if bytes.len() > 0 {
        lemma_hash_range(bytes.drop_last());
    }
}

/// Each step adds less than 256 to the sum.
pub proof fn lemma_hash_sum_range(steps: Seq<Seq<u8>>)
    ensures
        0 <= hash_sum(steps) <= 255 * steps.len(),
    decreases steps.len(),
{
    if steps.len() > 0 {
        lemma_hash_sum_range(steps.drop_last());
        lemma_hash_range(steps.last());
    }
}

/// A sequence has at least one step and at most one more than it has bytes.
pub proof fn lemma_steps(bytes: Seq<u8>)
    ensures
        1 <= steps(bytes).len() <= bytes.len() + 1,
    decreases bytes.len(),
{
    if bytes.len() > 0 {
        lemma_steps(bytes.drop_last());
    }
}

/// The hash of a string's bytes.
pub fn hash(input: &str) -> (h: i32)
    ensures
        h == hash_of(input.spec_bytes()),
        0 <= h < 256,
{
    let bytes = input.as_bytes();
    let mut h: i32 = 0;
    let mut i: usize = 0;
    while i < bytes.len()
        invariant
            i <= bytes@.len(),
            bytes@ == input.spec_bytes(),
            h == hash_of(bytes@.take(i as int)),
            0 <= h < 256,
        decreases bytes@.len() - i,
    {
        assert(bytes@.take(i + 1).drop_last() =~= bytes@.take(i as int));
        h = (h + bytes[i] as i32) * 17 % 256;
        i += 1;
    }
    assert(bytes@.take(i as int) =~= bytes@);
    h
}

/// The sum of the hashes of the steps of the sequence.
pub fn solve_pt1(input: &str) -> (sum: u128)
    ensures
        sum == hash_sum(steps(input.spec_bytes())),
{
    let bytes = input.as_bytes();
    let mut done: u128 = 0;
    let mut h: u128 = 0;
    let mut i: usize = 0;
    assert(steps(bytes@.take(0)).drop_last() =~= Seq::empty());
    while i < bytes.len()
        invariant
            i <= bytes@.len(),
            bytes@ == input.spec_bytes(),
            done == hash_sum(steps(bytes@.take(i as int)).drop_last()),
            h == hash_of(steps(bytes@.take(i as int)).last()),
            done + h == hash_sum(steps(bytes@.take(i as int))),
            done + h <= 255 * (i + 1),
        decreases bytes@.len() - i,
    {
        proof {
            let front = bytes@.take(i as int);
            assert(bytes@.take(i + 1).drop_last() =~= front);
            lemma_steps(front);
            lemma_steps(bytes@.take(i + 1));
            lemma_hash_sum_range(steps(bytes@.take(i + 1)));
            let before = steps(front);
            lemma_hash_range(before.last());
            if bytes@[i as int] == 44u8 {
                assert(before.push(Seq::empty()).drop_last() =~= before);
            } else {
                let grown = before.last().push(bytes@[i as int]);
                assert(grown.drop_last() =~= before.last());
                lemma_hash_range(grown);
                assert(before.drop_last().push(grown).drop_last() =~= before.drop_last());
            }
        }
        if bytes[i] == 44u8 {
            done = done + h;
            h = 0;
        } else {
            h = (h + bytes[i] as u128) * 17 % 256;
        }
        i += 1;
    }
    assert(bytes@.take(i as int) =~= bytes@);
    done + h
}

/// The ordered map of the crate `linked_hash_map`, which keeps its entries in
/// the order in which their keys were first inserted.
#[verifier::external_type_specification]
#[verifier::external_body]
#[verifier::reject_recursive_types(K)]
#[verifier::reject_recursive_types(V)]
#[verifier::reject_recursive_types(S)]
pub struct ExLinkedHashMap<K, V, S>(LinkedHashMap<K, V, S>);

/// The lenses of a box: the entries of the map, label and focal length, in
/// the order in which the map hands them out.
pub uninterp spec fn lenses(m: LinkedHashMap<String, u32>) -> Seq<(Seq<char>, u32)>;

/// The place of the first lens with the given label, and the number of
/// lenses where there is none.
pub open spec fn slot_of(entries: Seq<(Seq<char>, u32)>, label: Seq<char>) -> int
    decreases entries.len(),
{
    if entries.len() == 0 {
        0
    } else if entries[0].0 == label {
        0
    } else {
        1 + slot_of(entries.skip(1), label)
    }
}

/// The lenses without those of the given label, the others in their order.
pub open spec fn without(entries: Seq<(Seq<char>, u32)>, label: Seq<char>) -> Seq<
    (Seq<char>, u32),
> {
    entries.filter(|e: (Seq<char>, u32)| e.0 != label)
}

/// The lenses with the given lens put in: in the place of the lens of its
/// label, if there is one, and behind all others if not.
pub open spec fn with_lens(entries: Seq<(Seq<char>, u32)>, label: Seq<char>, focal: u32) -> Seq<
    (Seq<char>, u32),
> {
    let at = slot_of(entries, label);
    if at < entries.len() {
        entries.update(at, (label, focal))
    } else {
        entries.push((label, focal))
    }
}

/// `LinkedHashMap::new` of the crate `linked_hash_map`: a map without
/// entries.
#[verifier::external_body]
fn new_box() -> (m: LinkedHashMap<String, u32>)
    ensures
        lenses(m) == Seq::<(Seq<char>, u32)>::empty(),
{
    LinkedHashMap::new()
}

/// `LinkedHashMap::remove`: the entry of the key leaves the map, and the
/// other entries keep their order. A key that the map does not hold changes
/// nothing.
#[verifier::external_body]
fn remove_lens(m: &mut LinkedHashMap<String, u32>, label: &str)
    ensures
        lenses(*final(m)) == without(lenses(*old(m)), label@),
{
    m.remove(label);
}

/// `LinkedHashMap::entry` followed by `Entry::or_insert`, and an assignment
/// to the value that the two hand out: the value of a key that the map holds
/// is replaced where it stands; a key that it does not hold becomes the last
/// entry.
#[verifier::external_body]
fn set_lens(m: &mut LinkedHashMap<String, u32>, label: String, focal: u32)
    ensures
        lenses(*final(m)) == with_lens(lenses(*old(m)), label@, focal),
{
    *m.entry(label).or_insert(0) = focal;
}

/// `LinkedHashMap::iter`: the values of the entries in the order of the map.
#[verifier::external_body]
fn focal_lengths(m: &LinkedHashMap<String, u32>) -> (values: Vec<u32>)
    ensures
        values@ == lenses(*m).map_values(|e: (Seq<char>, u32)| e.1),
{
    m.iter().map(|(_, v)| *v).collect()
}

/// The lenses of each box of a row of boxes.
pub open spec fn shelves(boxes: Seq<LinkedHashMap<String, u32>>) -> Seq<Seq<(Seq<char>, u32)>> {
    boxes.map_values(|m: LinkedHashMap<String, u32>| lenses(m))
}

/// What a step says: the label of a lens, and the focal length to give it or
/// nothing where the lens is to be taken out. A step that ends in `-` takes
/// the lens out whose label stands before the `-`. A step of two characters
/// or more that ends in a digit puts a lens in: the digit is the focal
/// length, and the label is the step without its last two characters. Any
/// other step says nothing.
pub open spec fn step_of(step: Seq<char>) -> Option<(Seq<char>, Option<u32>)> {
    if step.len() == 0 {
        None
    } else if step.last() == '-' {
        Some((step.drop_last(), None))
    } else if is_digit(step.last()) && step.len() >= 2 {
        Some((step.take(step.len() - 2), Some(digit_value(step.last()) as u32)))
    } else {
        None
    }
}

/// The boxes after a step: the lens goes into, or comes out of, the box whose
/// number is the hash of its label.
pub open spec fn after_step(boxes: Seq<Seq<(Seq<char>, u32)>>, step: Seq<char>) -> Option<
    Seq<Seq<(Seq<char>, u32)>>,
> {
    match step_of(step) {
        None => None,
        Some((label, focal)) => {
            let h = hash_of(encode_utf8(label));
            match focal {
                None => Some(boxes.update(h, without(boxes[h], label))),
                Some(f) => Some(boxes.update(h, with_lens(boxes[h], label, f))),
            }
        },
    }
}

/// The boxes after the steps, one after the other, where every step says
/// something.
pub open spec fn after_steps(boxes: Seq<Seq<(Seq<char>, u32)>>, steps: Seq<Seq<char>>) -> Option<
    Seq<Seq<(Seq<char>, u32)>>,
>
    decreases steps.len(),
{
    if steps.len() == 0 {
        Some(boxes)
    } else {
        match after_steps(boxes, steps.drop_last()) {
            None => None,
            Some(b) => after_step(b, steps.last()),
        }
    }
}

/// The focusing power of the first `upto` lenses of box number `number`: for
/// each lens the number of the box plus one, times the place of the lens in
/// the box, counted from one, times its focal length.
pub open spec fn box_power(number: int, focals: Seq<u32>, upto: int) -> int
    decreases upto,
{
    if upto <= 0 || upto > focals.len() {
        0
    } else {
        box_power(number, focals, upto - 1) + (number + 1) * upto * focals[upto - 1]
    }
}

/// The focusing power of the first `upto` boxes.
pub open spec fn power(boxes: Seq<Seq<(Seq<char>, u32)>>, upto: int) -> int
    decreases upto,
{
    if upto <= 0 || upto > boxes.len() {
        0
    } else {
        let focals = boxes[upto - 1].map_values(|e: (Seq<char>, u32)| e.1);
        power(boxes, upto - 1) + box_power(upto - 1, focals, focals.len() as int)
    }
}

/// 256 boxes without lenses.
pub open spec fn empty_boxes() -> Seq<Seq<(Seq<char>, u32)>> {
    Seq::new(256, |i: int| Seq::empty())
}

/// Steps of which a part leaves no boxes leave none.
pub proof fn lemma_no_boxes(boxes: Seq<Seq<(Seq<char>, u32)>>, steps: Seq<Seq<char>>, k: int)
    requires
        0 <= k <= steps.len(),
        after_steps(boxes, steps.take(k)) is None,
    ensures
        after_steps(boxes, steps) is None,
    decreases steps.len() - k,
{
    if k < steps.len() {
        assert(steps.take(k + 1).drop_last() =~= steps.take(k));
        lemma_no_boxes(boxes, steps, k + 1);
    } else {
        assert(steps.take(k) =~= steps);
    }
}

/// The focusing power of one box, or `None` where it does not fit in 128
/// bits.
pub fn power_of_box(number: usize, focals: &Vec<u32>) -> (p: Option<u128>)
    requires
        number < 256,
    ensures
        match p {
            Some(p) => p == box_power(number as int, focals@, focals@.len() as int),
            None => box_power(number as int, focals@, focals@.len() as int) > u128::MAX,
        },
{
    let mut p: u128 = 0;
    let mut i: usize = 0;
    while i < focals.len()
        invariant
            i <= focals@.len(),
            number < 256,
            p == box_power(number as int, focals@, i as int),
        decreases focals@.len() - i,
    {
        proof {
            assert(0 <= (number + 1) * (i + 1) <= 256 * 0x1_0000_0000_0000_0000)
                by (nonlinear_arith)
                requires
                    0 <= number < 256,
                    0 <= i < 0x1_0000_0000_0000_0000,
            ;
            assert(0 <= ((number + 1) * (i + 1)) * focals@[i as int] <= (256
                * 0x1_0000_0000_0000_0000) * 0x1_0000_0000) by (nonlinear_arith)
                requires
                    0 <= (number + 1) * (i + 1) <= 256 * 0x1_0000_0000_0000_0000,
                    0 <= focals@[i as int] < 0x1_0000_0000,
            ;
            lemma_box_power_grows(number as int, focals@, i + 1, focals@.len() as int);
        }
        let term = (number as u128 + 1) * (i as u128 + 1) * focals[i] as u128;
        p = match p.checked_add(term) {
            Some(p) => p,
            None => {
                return None;
            },
        };
        i += 1;
    }
    Some(p)
}

/// More lenses have no less power.
pub proof fn lemma_box_power_grows(number: int, focals: Seq<u32>, k: int, n: int)
    requires
        0 <= number,
        0 <= k <= n <= focals.len(),
    ensures
        box_power(number, focals, k) <= box_power(number, focals, n),
    decreases n - k,
{
    if k < n {
        lemma_box_power_grows(number, focals, k + 1, n);
        assert(0 <= (number + 1) * (k + 1) * focals[k]) by (nonlinear_arith)
            requires
                0 <= number,
                0 <= k,
                0 <= focals[k],
        ;
    }
}

/// Carries out the steps of the sequence on 256 boxes and returns the
/// focusing power of the lenses in them; `None` where a step says nothing or
/// the power does not fit in 128 bits.
pub fn solve_pt2(line: &str) -> (total: Option<u128>)
    ensures
        match total {
            Some(t) => after_steps(empty_boxes(), split(line@, seq![','])) matches Some(b) && t
                == power(b, 256),
            None => after_steps(empty_boxes(), split(line@, seq![','])) matches Some(b) ==> power(
                b,
                256,
            ) > u128::MAX,
        },
{
    let mut boxes: Vec<LinkedHashMap<String, u32>> = Vec::new();
    let mut n: usize = 0;
    while n < 256
        invariant
            n <= 256,
            boxes@.len() == n,
            forall|i: int| 0 <= i < n ==> lenses(#[trigger] boxes@[i]) == Seq::<(Seq<char>, u32)>::empty(),
        decreases 256 - n,
    {
        boxes.push(new_box());
        n += 1;
    }
    assert(shelves(boxes@) =~= empty_boxes());
    let chars = to_chars(line);
    let comma: Vec<char> = vec![','];
    assert(comma@ =~= seq![',']);
    let bounds = split_bounds(&chars, &comma);
    let ghost steps = split(line@, seq![',']);
    let mut k: usize = 0;
    assert(steps.take(0) =~= Seq::empty());
    while k < bounds.len()
        invariant
            k <= bounds@.len(),
            chars@ == line@,
            steps == split(line@, seq![',']),
            bounds@.len() == steps.len(),
            forall|i: int|
                0 <= i < bounds@.len() ==> {
                    &&& (#[trigger] bounds@[i]).0 <= bounds@[i].1 <= chars@.len()
                    &&& chars@.subrange(bounds@[i].0 as int, bounds@[i].1 as int) == steps[i]
                },
            boxes@.len() == 256,
            after_steps(empty_boxes(), steps.take(k as int)) == Some(shelves(boxes@)),
        decreases bounds@.len() - k,
    {
        let (a, b) = bounds[k];
        let ghost step = steps[k as int];
        let ghost before = shelves(boxes@);
        proof {
            assert(steps.take(k + 1).drop_last() =~= steps.take(k as int));
            assert(steps.take(k + 1).last() == step);
        }
        if a == b {
            proof {
                lemma_no_boxes(empty_boxes(), steps, k + 1);
            }
            return None;
        }
        let last = chars[b - 1];
        assert(step.last() == last);
        if last == '-' {
            let label = line.substring_char(a, b - 1);
            assert(label@ =~= step.drop_last());
            let h = hash(label) as usize;
            remove_lens(&mut boxes[h], label);
            assert(shelves(boxes@) =~= before.update(h as int, without(before[h as int], label@)));
        } else {
            let n = last as u32;
            if n < 48 || n > 57 || b - a < 2 {
                proof {
                    lemma_no_boxes(empty_boxes(), steps, k + 1);
                }
                return None;
            }
            let label = line.substring_char(a, b - 2);
            assert(label@ =~= step.take(step.len() - 2));
            let h = hash(label) as usize;
            set_lens(&mut boxes[h], label.to_owned(), n - 48);
            assert(shelves(boxes@) =~= before.update(
                h as int,
                with_lens(before[h as int], label@, (n - 48) as u32),
            ));
        }
        k += 1;
    }
    assert(steps.take(k as int) =~= steps);
    let ghost end = shelves(boxes@);
    let mut total: u128 = 0;
    let mut i: usize = 0;
    while i < 256
        invariant
            i <= 256,
            boxes@.len() == 256,
            end == shelves(boxes@),
            after_steps(empty_boxes(), split(line@, seq![','])) == Some(end),
            total == power(end, i as int),
        decreases 256 - i,
    {
        let focals = focal_lengths(&boxes[i]);
        proof {
            lemma_power_grows(end, i + 1, 256);
            lemma_power_nonnegative(end, i as int);
        }
        let p = match power_of_box(i, &focals) {
            Some(p) => p,
            None => {
                return None;
            },
        };
        total = match total.checked_add(p) {
            Some(t) => t,
            None => {
                return None;
            },
        };
        i += 1;
    }
    Some(total)
}

/// More boxes have no less power.
pub proof fn lemma_power_grows(boxes: Seq<Seq<(Seq<char>, u32)>>, k: int, n: int)
    requires
        0 <= k <= n <= boxes.len(),
    ensures
        0 <= power(boxes, k) <= power(boxes, n),
    decreases n - k,
{
    lemma_power_nonnegative(boxes, k);
    if k < n {
        lemma_power_grows(boxes, k + 1, n);
        let focals = boxes[k].map_values(|e: (Seq<char>, u32)| e.1);
        lemma_box_power_nonnegative(k, focals, focals.len() as int);
    }
}

pub proof fn lemma_power_nonnegative(boxes: Seq<Seq<(Seq<char>, u32)>>, k: int)
    ensures
        0 <= power(boxes, k),
    decreases k,
{
    if 0 < k <= boxes.len() {
        lemma_power_nonnegative(boxes, k - 1);
        let focals = boxes[k - 1].map_values(|e: (Seq<char>, u32)| e.1);
        lemma_box_power_nonnegative(k - 1, focals, focals.len() as int);
    }
}

pub proof fn lemma_box_power_nonnegative(number: int, focals: Seq<u32>, upto: int)
    requires
        0 <= number,
    ensures
        0 <= box_power(number, focals, upto),
    decreases upto,
{
    if 0 < upto <= focals.len() {
        lemma_box_power_nonnegative(number, focals, upto - 1);
        assert(0 <= (number + 1) * upto * focals[upto - 1]) by (nonlinear_arith)
            requires
                0 <= number,
                0 < upto,
                0 <= focals[upto - 1],
        ;
    }
}

/// Both answers for the sequence on the first line: the sum of the hashes of
/// its steps, and the focusing power that the steps leave, which is `None`
/// where a step says nothing or the power does not fit in 128 bits. There is
/// no answer without a line.
pub fn solve(lines: &Vec<String>) -> (answers: Option<(u128, Option<u128>)>)
    ensures
        match answers {
            Some((sum, total)) => {
                &&& lines@.len() > 0
                &&& sum == hash_sum(steps(encode_utf8(lines@[0]@)))
                &&& match total {
                    Some(t) => after_steps(empty_boxes(), split(lines@[0]@, seq![',']))
                        matches Some(b) && t == power(b, 256),
                    None => after_steps(empty_boxes(), split(lines@[0]@, seq![','])) matches Some(
                        b,
                    ) ==> power(b, 256) > u128::MAX,
                }
            },
            None => lines@.len() == 0,
        },
{
    if lines.len() == 0 {
        return None;
    }
    let line = lines[0].as_str();
    Some((solve_pt1(line), solve_pt2(line)))
}

} // verus!
