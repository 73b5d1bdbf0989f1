//! The validator: advisory checks of the attribute bits against the
//! structure that the deltas give.
use vstd::prelude::*;
use crate::record::{recs_view, Rec, RecModel, A_CURSOR, A_HASKIDS, A_SIBFOLLOWS};
use crate::text::{bool_text, dec, dec0, hex, push_bool, push_dec, push_dec0, push_hex, push_text};
use crate::tree::level_after;

verus! {

/// The attribute bits that the validator knows.
pub const KNOWN_BITS: u8 = 0xac;

/// The level of every record.
pub open spec fn levels(recs: Seq<RecModel>) -> Seq<int> {
    Seq::new(recs.len(), |i: int| level_after(recs, (i + 1) as nat))
}

/// Whether a later record stands at the level of record `i` before the
/// level drops below it.
pub open spec fn has_later_sibling(lv: Seq<int>, i: int) -> bool {
    exists|j: int|
        i < j < lv.len() && lv[j] == lv[i] && forall|k: int| i < k < j ==> #[trigger] lv[k]
            >= lv[i]
}

/// Whether the record after `i` stands exactly one level deeper.
pub open spec fn has_child_struct(lv: Seq<int>, i: int) -> bool {
    i + 1 < lv.len() && lv[i + 1] == lv[i] + 1
}

/// One finding of the validator.
#[derive(Debug)]
pub enum Warning {
    /// The sibling bit disagrees with the structure.
    SiblingMismatch { index: usize, bit: bool, expected: bool, off_attr: usize },
    /// The bit under study disagrees with "the next record is one level
    /// deeper".
    ChildBitMismatch { index: usize, bit: bool, expected: bool, off_attr: usize },
    /// Attribute bits outside the known ones are set.
    UnknownBits { index: usize, bits: u8, off_attr: usize },
    /// More than one record carries the selection bit.
    MultipleSelected { indices: Vec<usize> },
}

/// The value of a finding.
pub ghost enum WarningModel {
    SiblingMismatch { index: nat, bit: bool, expected: bool, off_attr: nat },
    ChildBitMismatch { index: nat, bit: bool, expected: bool, off_attr: nat },
    UnknownBits { index: nat, bits: u8, off_attr: nat },
    MultipleSelected { indices: Seq<usize> },
}

impl View for Warning {
    type V = WarningModel;

    open spec fn view(&self) -> WarningModel {
        match self {
            Warning::SiblingMismatch { index, bit, expected, off_attr } => {
                WarningModel::SiblingMismatch {
                    index: *index as nat,
                    bit: *bit,
                    expected: *expected,
                    off_attr: *off_attr as nat,
                }
            },
            Warning::ChildBitMismatch { index, bit, expected, off_attr } => {
                WarningModel::ChildBitMismatch {
                    index: *index as nat,
                    bit: *bit,
                    expected: *expected,
                    off_attr: *off_attr as nat,
                }
            },
            Warning::UnknownBits { index, bits, off_attr } => WarningModel::UnknownBits {
                index: *index as nat,
                bits: *bits,
                off_attr: *off_attr as nat,
            },
            Warning::MultipleSelected { indices } => WarningModel::MultipleSelected {
                indices: indices@,
            },
        }
    }
}

/// The values of a sequence of findings.
pub open spec fn warnings_view(ws: Seq<Warning>) -> Seq<WarningModel> {
    ws.map_values(|w: Warning| w@)
}

/// The findings on record `i`: a sibling-bit mismatch; with
/// `assume_child_bit`, a mismatch of the bit under study; set unknown bits.
pub open spec fn rec_warnings(recs: Seq<RecModel>, i: int, assume_child_bit: bool) -> Seq<
    WarningModel,
> {
    let lv = levels(recs);
    let r = recs[i];
    let sib = r.attr & A_SIBFOLLOWS != 0;
    let kid = r.attr & A_HASKIDS != 0;
    let unknown = r.attr & !KNOWN_BITS;
    (if sib != has_later_sibling(lv, i) {
        seq![
            WarningModel::SiblingMismatch {
                index: i as nat,
                bit: sib,
                expected: has_later_sibling(lv, i),
                off_attr: r.off_attr,
            },
        ]
    } else {
        Seq::empty()
    }) + (if assume_child_bit && kid != has_child_struct(lv, i) {
        seq![
            WarningModel::ChildBitMismatch {
                index: i as nat,
                bit: kid,
                expected: has_child_struct(lv, i),
                off_attr: r.off_attr,
            },
        ]
    } else {
        Seq::empty()
    }) + (if unknown != 0 {
        seq![WarningModel::UnknownBits { index: i as nat, bits: unknown, off_attr: r.off_attr }]
    } else {
        Seq::empty()
    })
}

/// The findings on the first `n` records.
pub open spec fn warnings_upto(recs: Seq<RecModel>, n: nat, assume_child_bit: bool) -> Seq<
    WarningModel,
>
    decreases n,
{
    if n == 0 || n > recs.len() {
        Seq::empty()
    } else {
        warnings_upto(recs, (n - 1) as nat, assume_child_bit) + rec_warnings(
            recs,
            n - 1,
            assume_child_bit,
        )
    }
}

/// The indices among the first `n` records whose selection bit is set.
pub open spec fn selected_upto(recs: Seq<RecModel>, n: nat) -> Seq<usize>
    decreases n,
{
    if n == 0 || n > recs.len() {
        Seq::empty()
    } else if recs[n - 1].attr & A_CURSOR != 0 {
        selected_upto(recs, (n - 1) as nat).push((n - 1) as usize)
    } else {
        selected_upto(recs, (n - 1) as nat)
    }
}

/// All findings on a record sequence: those of each record in order, then
/// one listing the selected records where more than one is selected.
pub open spec fn validation(recs: Seq<RecModel>, assume_child_bit: bool) -> Seq<WarningModel> {
    let sel = selected_upto(recs, recs.len());
    warnings_upto(recs, recs.len(), assume_child_bit) + if sel.len() > 1 {
        seq![WarningModel::MultipleSelected { indices: sel }]
    } else {
        Seq::empty()
    }
}

fn compute_levels(recs: &[Rec]) -> (lv: Vec<i128>)
    ensures
        lv@.len() == recs@.len(),
        forall|i: int| 0 <= i < lv@.len() ==> lv@[i] == #[trigger] levels(recs_view(recs@))[i],
        forall|i: int| 0 <= i < lv@.len() ==> 0 <= #[trigger] lv@[i] <= 32768 * (i + 1),
{
    let ghost rv = recs_view(recs@);
    let mut lv: Vec<i128> = Vec::new();
    let mut level: i128 = 0;
    let mut i: usize = 0;
    while i < recs.len()
        invariant
            i <= recs@.len(),
            rv == recs_view(recs@),
            lv@.len() == i,
            0 <= level <= 32768 * i,
            level == level_after(rv, i as nat),
            forall|j: int| 0 <= j < i ==> lv@[j] == #[trigger] levels(rv)[j],
            forall|j: int| 0 <= j < i ==> 0 <= #[trigger] lv@[j] <= 32768 * (j + 1),
        decreases recs@.len() - i,
    {
        assert(rv[i as int] == recs@[i as int]@);
        level = level + recs[i].delta as i128;
        if level < 0 {
            level = 0;
        }
        lv.push(level);
        i = i + 1;
    }
    lv
}

fn later_sibling(lv: &Vec<i128>, i: usize) -> (r: bool)
    requires
        i < lv@.len(),
    ensures
        r == has_later_sibling(lv@.map_values(|x: i128| x as int), i as int),
{
    let ghost l = lv@.map_values(|x: i128| x as int);
    let n = lv.len();
    let my = lv[i];
    let mut j: usize = i + 1;
    while j < lv.len()
        invariant
            i < j <= lv@.len(),
            l == lv@.map_values(|x: i128| x as int),
            my == lv@[i as int],
            forall|k: int| i < k < j ==> #[trigger] l[k] > l[i as int],
        decreases lv@.len() - j,
    {
        if lv[j] < my {
            assert forall|t: int|
                i < t < l.len() && l[t] == l[i as int] implies !(forall|k: int|
                i < k < t ==> #[trigger] l[k] >= l[i as int]) by {
                assert(t > j);
                assert(l[j as int] < l[i as int]);
            }
            return false;
        }
        if lv[j] == my {
            assert(forall|k: int| i < k < j ==> #[trigger] l[k] >= l[i as int]);
            assert(l[j as int] == l[i as int]);
            assert(has_later_sibling(l, i as int));
            return true;
        }
        j = j + 1;
    }
    assert forall|t: int|
        i < t < l.len() && l[t] == l[i as int] implies !(forall|k: int|
        i < k < t ==> #[trigger] l[k] >= l[i as int]) by {
        assert(l[t] > l[i as int]);
    }
    false
}

/// Checks the attribute bits against the structure: the sibling bit
/// against a later record at the same level before the level drops; with
/// `assume_child_bit`, the bit under study against "the next record is one
/// level deeper"; bits outside the known ones; and more than one selected record.
pub fn validate(recs: &[Rec], assume_child_bit: bool) -> (ws: Vec<Warning>)
    ensures
        warnings_view(ws@) == validation(recs_view(recs@), assume_child_bit),
{
    let ghost rv = recs_view(recs@);
    let lv = compute_levels(recs);
    assert(lv@.map_values(|x: i128| x as int) =~= levels(rv));
    let mut out: Vec<Warning> = Vec::new();
    let mut sel: Vec<usize> = Vec::new();
    let mut i: usize = 0;
    while i < recs.len()
        invariant
            i <= recs@.len(),
            rv == recs_view(recs@),
            lv@.len() == recs@.len(),
            lv@.map_values(|x: i128| x as int) == levels(rv),
            forall|j: int| 0 <= j < lv@.len() ==> 0 <= #[trigger] lv@[j] <= 32768 * (j + 1),
            warnings_view(out@) == warnings_upto(rv, i as nat, assume_child_bit),
            sel@ == selected_upto(rv, i as nat),
        decreases recs@.len() - i,
    {
        let r = &recs[i];
        assert(rv[i as int] == r@);
        let ghost before = warnings_view(out@);
        let sib = r.attr & A_SIBFOLLOWS != 0;
        let expected = later_sibling(&lv, i);
        if sib != expected {
            out.push(
                Warning::SiblingMismatch { index: i, bit: sib, expected, off_attr: r.off_attr },
            );
        }
        if assume_child_bit {
            let kid = r.attr & A_HASKIDS != 0;
            assert(lv@[i as int] <= 32768 * (i + 1));
            let deeper = i + 1 < lv.len() && lv[i + 1] == lv[i] + 1;
            if kid != deeper {
                out.push(
                    Warning::ChildBitMismatch {
                        index: i,
                        bit: kid,
                        expected: deeper,
                        off_attr: r.off_attr,
                    },
                );
            }
        }
        let unknown = r.attr & !KNOWN_BITS;
        if unknown != 0 {
            out.push(Warning::UnknownBits { index: i, bits: unknown, off_attr: r.off_attr });
        }
        if r.attr & A_CURSOR != 0 {
            sel.push(i);
        }
        assert(warnings_view(out@) =~= before + rec_warnings(rv, i as int, assume_child_bit));
        i = i + 1;
    }
    if sel.len() > 1 {
        let ghost before = warnings_view(out@);
        out.push(Warning::MultipleSelected { indices: sel });
        assert(warnings_view(out@) =~= before.push(
            WarningModel::MultipleSelected { indices: selected_upto(rv, rv.len()) },
        ));
    }
    assert(warnings_view(out@) =~= validation(rv, assume_child_bit));
    out
}

proof fn lemma_upto_has(recs: Seq<RecModel>, n: nat, i: int, assume_child_bit: bool, k: int)
    requires
        0 <= i < n <= recs.len(),
        0 <= k < rec_warnings(recs, i, assume_child_bit).len(),
    ensures
        warnings_upto(recs, n, assume_child_bit).contains(
            rec_warnings(recs, i, assume_child_bit)[k],
        ),
    decreases n,
{
    let w = rec_warnings(recs, i, assume_child_bit);
    let prev = warnings_upto(recs, (n - 1) as nat, assume_child_bit);
    if i == n - 1 {
        assert(warnings_upto(recs, n, assume_child_bit)[prev.len() + k] == w[k]);
    } else {
        lemma_upto_has(recs, (n - 1) as nat, i, assume_child_bit, k);
        let j = choose|j: int| 0 <= j < prev.len() && prev[j] == w[k];
        assert(warnings_upto(recs, n, assume_child_bit)[j] == w[k]);
    }
}

/// Where the validator reports no sibling mismatch, every record's sibling
/// bit says exactly whether a later record stands at its level before the
/// level drops below it.
pub proof fn lemma_sibling_bit(recs: Seq<RecModel>, assume_child_bit: bool)
    requires
        forall|k: int|
            0 <= k < validation(recs, assume_child_bit).len() ==> !(#[trigger] validation(
                recs,
                assume_child_bit,
            )[k] is SiblingMismatch),
    ensures
        forall|i: int|
            0 <= i < recs.len() ==> (#[trigger] recs[i].attr & A_SIBFOLLOWS != 0)
                == has_later_sibling(levels(recs), i),
{
    assert forall|i: int| 0 <= i < recs.len() implies (#[trigger] recs[i].attr & A_SIBFOLLOWS
        != 0) == has_later_sibling(levels(recs), i) by {
        let w = rec_warnings(recs, i, assume_child_bit);
        if (recs[i].attr & A_SIBFOLLOWS != 0) != has_later_sibling(levels(recs), i) {
            assert(w[0] is SiblingMismatch);
            lemma_upto_has(recs, recs.len(), i, assume_child_bit, 0);
            let all = warnings_upto(recs, recs.len(), assume_child_bit);
            let j = choose|j: int| 0 <= j < all.len() && all[j] == w[0];
            assert(validation(recs, assume_child_bit)[j] == all[j]);
        }
    }
}

/// The start of a message about record `i`.
pub open spec fn rec_label(i: nat) -> Seq<char> {
    "WARN: rec #"@ + dec0(i, 3)
}

/// The end of a message: where the attribute byte lies.
pub open spec fn at_attr(o: nat) -> Seq<char> {
    " at attr[0x"@ + hex(o, 4) + "]"@
}

/// A bit and what the structure expects of it.
pub open spec fn bit_pair(bit: bool, expected: bool) -> Seq<char> {
    " (attr="@ + bool_text(bit) + ", expected="@ + bool_text(expected) + ")"@
}

/// Record indices, each as `#` and three digits, separated by commas.
pub open spec fn index_list(ix: Seq<usize>) -> Seq<char>
    decreases ix.len(),
{
    if ix.len() == 0 {
        Seq::empty()
    } else {
        index_list(ix.drop_last()) + (if ix.len() > 1 { ", "@ } else { Seq::empty() }) + "#"@
            + dec0(ix.last() as nat, 3)
    }
}

/// The message that reports a finding.
pub open spec fn message_text(w: WarningModel) -> Seq<char> {
    match w {
        WarningModel::SiblingMismatch { index, bit, expected, off_attr } => rec_label(index)
            + " sibling bit mismatch"@ + bit_pair(bit, expected) + at_attr(off_attr),
        WarningModel::ChildBitMismatch { index, bit, expected, off_attr } => rec_label(index)
            + " 0x04!=has_child"@ + bit_pair(bit, expected) + at_attr(off_attr),
        WarningModel::UnknownBits { index, bits, off_attr } => rec_label(index)
            + " unknown attr bits set: 0x"@ + hex(bits as nat, 2) + at_attr(off_attr),
        WarningModel::MultipleSelected { indices } => "WARN: "@ + dec(indices.len())
            + " records have the selection bit set: "@ + index_list(indices),
    }
}

fn push_rec_label(out: &mut String, i: usize)
    ensures
        final(out)@ == old(out)@ + rec_label(i as nat),
{
    push_text(out, "WARN: rec #");
    push_dec0(out, i as u128, 3);
}

fn push_at_attr(out: &mut String, o: usize)
    ensures
        final(out)@ == old(out)@ + at_attr(o as nat),
{
    push_text(out, " at attr[0x");
    push_hex(out, o as u128, 4);
    push_text(out, "]");
    assert(out@ =~= old(out)@ + at_attr(o as nat));
}

fn push_bit_pair(out: &mut String, bit: bool, expected: bool)
    ensures
        final(out)@ == old(out)@ + bit_pair(bit, expected),
{
    push_text(out, " (attr=");
    push_bool(out, bit);
    push_text(out, ", expected=");
    push_bool(out, expected);
    push_text(out, ")");
    assert(out@ =~= old(out)@ + bit_pair(bit, expected));
}

impl Warning {
    /// The message that reports this finding.
    pub fn message(&self) -> (s: String)
        ensures
            s@ == message_text(self@),
    {
        let mut s = String::new();
        match self {
            Warning::SiblingMismatch { index, bit, expected, off_attr } => {
                push_rec_label(&mut s, *index);
                push_text(&mut s, " sibling bit mismatch");
                push_bit_pair(&mut s, *bit, *expected);
                push_at_attr(&mut s, *off_attr);
            },
            Warning::ChildBitMismatch { index, bit, expected, off_attr } => {
                push_rec_label(&mut s, *index);
                push_text(&mut s, " 0x04!=has_child");
                push_bit_pair(&mut s, *bit, *expected);
                push_at_attr(&mut s, *off_attr);
            },
            Warning::UnknownBits { index, bits, off_attr } => {
                push_rec_label(&mut s, *index);
                push_text(&mut s, " unknown attr bits set: 0x");
                push_hex(&mut s, *bits as u128, 2);
                push_at_attr(&mut s, *off_attr);
            },
            Warning::MultipleSelected { indices } => {
                push_text(&mut s, "WARN: ");
                push_dec(&mut s, indices.len() as u128);
                push_text(&mut s, " records have the selection bit set: ");
                let ghost head = s@;
                let mut k: usize = 0;
                assert(indices@.take(0) =~= Seq::<usize>::empty());
                while k < indices.len()
                    invariant
                        k <= indices@.len(),
                        s@ == head + index_list(indices@.take(k as int)),
                    decreases indices@.len() - k,
                {
                    assert(indices@.take(k + 1).drop_last() =~= indices@.take(k as int));
                    if k > 0 {
                        push_text(&mut s, ", ");
                    }
                    push_text(&mut s, "#");
                    push_dec0(&mut s, indices[k] as u128, 3);
                    k = k + 1;
                    assert(s@ =~= head + index_list(indices@.take(k as int)));
                }
                assert(indices@.take(k as int) =~= indices@);
            },
        }
        assert(s@ =~= message_text(self@));
        s
    }
}

} // verus!
