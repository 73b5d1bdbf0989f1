//! The diff engine: a greedy, first-match comparison of two record
//! sequences by heading text.
use vstd::prelude::*;
use crate::canon::{attr_bits_text, delta_field, delta_text, fmt_attr_bits, mark_field, mark_text};
use crate::record::{opt_text, recs_view, Rec, RecModel};
use crate::text::{hex, push_hex, push_text};

verus! {

/// A marker word as the diff report shows it.
pub fn render_mark_for_diff(u: u16) -> (s: String)
    ensures
        s@ == mark_text(u),
{
    mark_field(u)
}

/// A delta as the diff report shows it.
pub fn render_delta_for_diff(d: i16) -> (s: String)
    ensures
        s@ == delta_text(d),
{
    delta_field(d)
}

/// A note's text, or nothing where there is no note.
pub open spec fn note_or_empty(n: Option<Seq<char>>) -> Seq<char> {
    match n {
        Some(t) => t,
        None => Seq::empty(),
    }
}

/// `a` and `b` joined by an arrow after a field label.
pub open spec fn change(label: Seq<char>, a: Seq<char>, b: Seq<char>) -> Seq<char> {
    "  "@ + label + ": "@ + a + " -> "@ + b
}

/// One line if `differs`, else none.
pub open spec fn line_if(differs: bool, l: Seq<char>) -> Seq<Seq<char>> {
    if differs {
        seq![l]
    } else {
        Seq::empty()
    }
}

/// The lines that describe how a matched record changed: attribute,
/// marker, delta, heading length, note length, and whether the note text
/// changed with or without its length.
pub open spec fn change_lines(p: RecModel, c: RecModel, show_cursor: bool) -> Seq<Seq<char>> {
    line_if(
        p.attr != c.attr,
        change(
            "attr"@,
            attr_bits_text(p.attr, show_cursor, 8),
            attr_bits_text(c.attr, show_cursor, 8),
        ),
    ) + line_if(p.marker != c.marker, change("mark"@, mark_text(p.marker), mark_text(c.marker)))
        + line_if(p.delta != c.delta, change("delta"@, delta_text(p.delta), delta_text(c.delta)))
        + line_if(
        p.len_text != c.len_text,
        change(
            "textLen"@,
            hex((p.len_text as u16) as nat, 4),
            hex((c.len_text as u16) as nat, 4),
        ),
    ) + line_if(
        p.note_len != c.note_len,
        change(
            "noteLen"@,
            hex((p.note_len as u16) as nat, 4),
            hex((c.note_len as u16) as nat, 4),
        ),
    ) + line_if(
        note_or_empty(p.note) != note_or_empty(c.note),
        if p.note_len == c.note_len {
            "  note: (text changed)"@
        } else {
            "  note: (length and text changed)"@
        },
    )
}

/// The texts of a sequence of strings.
pub open spec fn texts(v: Seq<String>) -> Seq<Seq<char>> {
    v.map_values(|s: String| s@)
}

fn push_line(out: &mut Vec<String>, label: &str, a: &str, b: &str)
    ensures
        texts(final(out)@) == texts(old(out)@).push(change(label@, a@, b@)),
{
    let mut s = String::new();
    push_text(&mut s, "  ");
    push_text(&mut s, label);
    push_text(&mut s, ": ");
    push_text(&mut s, a);
    push_text(&mut s, " -> ");
    push_text(&mut s, b);
    assert(s@ =~= change(label@, a@, b@));
    let ghost before = texts(out@);
    out.push(s);
    assert(texts(out@) =~= before.push(change(label@, a@, b@)));
}

fn note_text_of(n: &Option<String>) -> (s: String)
    ensures
        s@ == note_or_empty(opt_text(*n)),
{
    match n {
        Some(t) => t.clone(),
        None => String::new(),
    }
}

/// Lists how a matched record changed, one line per differing field.
pub fn diff_two_recs(prev: &Rec, curr: &Rec, show_cursor: bool) -> (changes: Vec<String>)
    ensures
        texts(changes@) == change_lines(prev@, curr@, show_cursor),
{
    let mut changes: Vec<String> = Vec::new();
    let ghost p = prev@;
    let ghost c = curr@;
    let ghost l0 = texts(changes@);
    if prev.attr != curr.attr {
        let a = fmt_attr_bits(prev.attr, show_cursor);
        let b = fmt_attr_bits(curr.attr, show_cursor);
        push_line(&mut changes, "attr", a.as_str(), b.as_str());
    }
    let ghost l1 = texts(changes@);
    assert(l1 =~= l0 + line_if(
        p.attr != c.attr,
        change("attr"@, attr_bits_text(p.attr, show_cursor, 8), attr_bits_text(c.attr, show_cursor, 8)),
    ));
    if prev.marker_u16 != curr.marker_u16 {
        let a = render_mark_for_diff(prev.marker_u16);
        let b = render_mark_for_diff(curr.marker_u16);
        push_line(&mut changes, "mark", a.as_str(), b.as_str());
    }
    let ghost l2 = texts(changes@);
    assert(l2 =~= l1 + line_if(p.marker != c.marker, change("mark"@, mark_text(p.marker), mark_text(c.marker))));
    if prev.delta != curr.delta {
        let a = render_delta_for_diff(prev.delta);
        let b = render_delta_for_diff(curr.delta);
        push_line(&mut changes, "delta", a.as_str(), b.as_str());
    }
    let ghost l3 = texts(changes@);
    assert(l3 =~= l2 + line_if(p.delta != c.delta, change("delta"@, delta_text(p.delta), delta_text(c.delta))));
    if prev.len_text != curr.len_text {
        let mut a = String::new();
        push_hex(&mut a, (prev.len_text as u16) as u128, 4);
        let mut b = String::new();
        push_hex(&mut b, (curr.len_text as u16) as u128, 4);
        push_line(&mut changes, "textLen", a.as_str(), b.as_str());
    }
    let ghost l4 = texts(changes@);
    assert(l4 =~= l3 + line_if(
        p.len_text != c.len_text,
        change("textLen"@, hex((p.len_text as u16) as nat, 4), hex((c.len_text as u16) as nat, 4)),
    ));
    if prev.note_len != curr.note_len {
        let mut a = String::new();
        push_hex(&mut a, (prev.note_len as u16) as u128, 4);
        let mut b = String::new();
        push_hex(&mut b, (curr.note_len as u16) as u128, 4);
        push_line(&mut changes, "noteLen", a.as_str(), b.as_str());
    }
    let ghost l5 = texts(changes@);
    assert(l5 =~= l4 + line_if(
        p.note_len != c.note_len,
        change("noteLen"@, hex((p.note_len as u16) as nat, 4), hex((c.note_len as u16) as nat, 4)),
    ));
    let pn = note_text_of(&prev.note);
    let cn = note_text_of(&curr.note);
    if pn != cn {
        let mut s = String::new();
        if prev.note_len == curr.note_len {
            push_text(&mut s, "  note: (text changed)");
        } else {
            push_text(&mut s, "  note: (length and text changed)");
        }
        changes.push(s);
    }
    assert(texts(changes@) =~= l5 + line_if(
        note_or_empty(p.note) != note_or_empty(c.note),
        if p.note_len == c.note_len {
            "  note: (text changed)"@
        } else {
            "  note: (length and text changed)"@
        },
    ));
    assert(texts(changes@) =~= change_lines(p, c, show_cursor));
    changes
}

/// The first record of `prev` at or after `j` that is not yet matched and
/// has heading `t`.
pub open spec fn first_unused(prev: Seq<RecModel>, used: Seq<bool>, t: Seq<char>, j: int) -> Option<
    int,
>
    decreases prev.len() - j,
{
    if j < 0 || j >= prev.len() {
        None
    } else if !used[j] && prev[j].text == t {
        Some(j)
    } else {
        first_unused(prev, used, t, j + 1)
    }
}

/// Where the diff stands: which previous records are matched, and the
/// report so far.
pub ghost struct DiffState {
    pub used: Seq<bool>,
    pub out: Seq<char>,
}

/// The lines, each followed by LF.
pub open spec fn joined(ls: Seq<Seq<char>>) -> Seq<char>
    decreases ls.len(),
{
    if ls.len() == 0 {
        Seq::empty()
    } else {
        joined(ls.drop_last()) + ls.last() + seq!['\n']
    }
}

/// The report for one current record: matched to the first unmatched
/// previous record with the same heading, with a `~` block where fields
/// differ; or reported as added.
pub open spec fn diff_step(prev: Seq<RecModel>, s: DiffState, c: RecModel, show_cursor: bool) -> DiffState {
    match first_unused(prev, s.used, c.text, 0) {
        Some(j) => {
            let ch = change_lines(prev[j], c, show_cursor);
            DiffState {
                used: s.used.update(j, true),
                out: s.out + if ch.len() > 0 {
                    seq!['~', ' ', '"'] + c.text + seq!['"', '\n'] + joined(ch)
                } else {
                    Seq::empty()
                },
            }
        },
        None => DiffState { used: s.used, out: s.out + seq!['+', ' ', '"'] + c.text + seq!['"', '\n'] },
    }
}

/// The state after the first `n` current records.
pub open spec fn diff_upto(prev: Seq<RecModel>, curr: Seq<RecModel>, n: nat, show_cursor: bool) -> DiffState
    decreases n,
{
    if n == 0 || n > curr.len() {
        DiffState { used: Seq::new(prev.len(), |i: int| false), out: Seq::empty() }
    } else {
        diff_step(prev, diff_upto(prev, curr, (n - 1) as nat, show_cursor), curr[n - 1], show_cursor)
    }
}

/// The removal lines for the unmatched records among the first `n`.
pub open spec fn removed(prev: Seq<RecModel>, used: Seq<bool>, n: nat) -> Seq<char>
    decreases n,
{
    if n == 0 || n > prev.len() {
        Seq::empty()
    } else {
        removed(prev, used, (n - 1) as nat) + if used[n - 1] {
            Seq::empty()
        } else {
            seq!['-', ' ', '"'] + prev[n - 1].text + seq!['"', '\n']
        }
    }
}

/// The change report between two record sequences.
pub open spec fn diff_report(prev: Seq<RecModel>, curr: Seq<RecModel>, show_cursor: bool) -> Seq<char> {
    let s = diff_upto(prev, curr, curr.len(), show_cursor);
    s.out + removed(prev, s.used, prev.len())
}

proof fn lemma_first_unused(prev: Seq<RecModel>, used: Seq<bool>, t: Seq<char>, a: int, b: int)
    requires
        0 <= a <= b <= prev.len(),
        forall|k: int| a <= k < b ==> !(!used[k] && #[trigger] prev[k].text == t),
    ensures
        first_unused(prev, used, t, a) == first_unused(prev, used, t, b),
    decreases b - a,
{
    if a < b {
        lemma_first_unused(prev, used, t, a + 1, b);
    }
}

fn find_match(prev: &[Rec], used: &Vec<bool>, c: &Rec) -> (r: Option<usize>)
    requires
        used@.len() == prev@.len(),
    ensures
        r matches Some(j) ==> j < prev@.len() && first_unused(recs_view(prev@), used@, c@.text, 0)
            == Some(j as int),
        r is None ==> first_unused(recs_view(prev@), used@, c@.text, 0) is None,
{
    let ghost pv = recs_view(prev@);
    let mut j: usize = 0;
    while j < prev.len()
        invariant
            j <= prev@.len(),
            used@.len() == prev@.len(),
            pv == recs_view(prev@),
            first_unused(pv, used@, c@.text, 0) == first_unused(pv, used@, c@.text, j as int),
        decreases prev@.len() - j,
    {
        assert(pv[j as int] == prev@[j as int]@);
        if !used[j] && prev[j].text == c.text {
            assert(first_unused(pv, used@, c@.text, j as int) == Some(j as int));
            return Some(j);
        }
        proof {
            lemma_first_unused(pv, used@, c@.text, j as int, j + 1);
        }
        j = j + 1;
    }
    assert(first_unused(pv, used@, c@.text, j as int) is None);
    None
}

fn push_quoted(out: &mut String, lead: char, t: &String)
    ensures
        final(out)@ == old(out)@ + seq![lead, ' ', '"'] + t@ + seq!['"', '\n'],
{
    out.push(lead);
    out.push(' ');
    out.push('"');
    push_text(out, t.as_str());
    out.push('"');
    out.push('\n');
    assert(out@ =~= old(out)@ + seq![lead, ' ', '"'] + t@ + seq!['"', '\n']);
}

/// Compares two record sequences: each current record is matched to the
/// first unmatched previous record with the same heading and its changed
/// fields are listed, or it is reported as added; unmatched previous
/// records are reported as removed.
pub fn diff_mode(prev: &[Rec], curr: &[Rec], show_cursor: bool) -> (report: String)
    ensures
        report@ == diff_report(recs_view(prev@), recs_view(curr@), show_cursor),
{
    let ghost pv = recs_view(prev@);
    let ghost cv = recs_view(curr@);
    let mut out = String::new();
    let mut used: Vec<bool> = vec![false; prev.len()];
    assert(used@ =~= Seq::new(pv.len(), |i: int| false));
    let mut i: usize = 0;
    while i < curr.len()
        invariant
            i <= curr@.len(),
            pv == recs_view(prev@),
            cv == recs_view(curr@),
            used@.len() == prev@.len(),
            used@ == diff_upto(pv, cv, i as nat, show_cursor).used,
            out@ == diff_upto(pv, cv, i as nat, show_cursor).out,
        decreases curr@.len() - i,
    {
        let c = &curr[i];
        assert(cv[i as int] == c@);
        let ghost before = out@;
        let ghost old_used = used@;
        let ghost st = diff_upto(pv, cv, i as nat, show_cursor);
        assert(diff_upto(pv, cv, (i + 1) as nat, show_cursor) == diff_step(pv, st, c@, show_cursor));
        match find_match(prev, &used, c) {
            Some(j) => {
                used.set(j, true);
                assert(used@ =~= old_used.update(j as int, true));
                assert(pv[j as int] == prev@[j as int]@);
                let changes = diff_two_recs(&prev[j], c, show_cursor);
                assert(changes@.len() == texts(changes@).len());
                if changes.len() > 0 {
                    push_quoted(&mut out, '~', &c.text);
                    let mut k: usize = 0;
                    let ghost head = out@;
                    assert(texts(changes@).take(0) =~= Seq::<Seq<char>>::empty());
                    while k < changes.len()
                        invariant
                            k <= changes@.len(),
                            out@ == head + joined(texts(changes@).take(k as int)),
                        decreases changes@.len() - k,
                    {
                        push_text(&mut out, changes[k].as_str());
                        out.push('\n');
                        assert(texts(changes@).take(k + 1).drop_last() =~= texts(changes@).take(
                            k as int,
                        ));
                        k = k + 1;
                        assert(out@ =~= head + joined(texts(changes@).take(k as int)));
                    }
                    assert(texts(changes@).take(k as int) =~= texts(changes@));
                }
                assert(out@ =~= diff_upto(pv, cv, (i + 1) as nat, show_cursor).out);
            },
            None => {
                push_quoted(&mut out, '+', &c.text);
                assert(out@ =~= diff_upto(pv, cv, (i + 1) as nat, show_cursor).out);
            },
        }
        i = i + 1;
    }
    let ghost fin = diff_upto(pv, cv, cv.len(), show_cursor);
    let ghost head = out@;
    let mut j: usize = 0;
    while j < prev.len()
        invariant
            j <= prev@.len(),
            pv == recs_view(prev@),
            used@ == fin.used,
            used@.len() == prev@.len(),
            out@ == head + removed(pv, fin.used, j as nat),
        decreases prev@.len() - j,
    {
        assert(pv[j as int] == prev@[j as int]@);
        if !used[j] {
            push_quoted(&mut out, '-', &prev[j].text);
        }
        j = j + 1;
        assert(out@ =~= head + removed(pv, fin.used, j as nat));
    }
    out
}

} // verus!
