//! Diagnostic dumps of flat records: levels and flags, and byte offsets.
use vstd::prelude::*;
use crate::record::{recs_view, Rec, RecModel};
use crate::text::{
    dec, dec0, hex, pad_left, push_dec, push_dec0, push_hex, push_padded, push_text,
    signed_dec, signed_string,
};

verus! {

/// The running sum of the first `n` deltas, without any floor.
pub open spec fn raw_level(recs: Seq<RecModel>, n: nat) -> int
    decreases n,
{
    if n == 0 || n > recs.len() {
        0
    } else {
        raw_level(recs, (n - 1) as nat) + recs[n - 1].delta
    }
}

/// One line of the level dump: index, running level, delta, attribute
/// byte, `C`/`E` for collapsed or expanded, `S` when selected, `S` when a
/// sibling follows, note length and heading.
pub open spec fn dump_line(r: RecModel, idx: nat, level: int) -> Seq<char> {
    dump_head(r, idx, level) + dump_tail(r)
}

/// Index, level and delta of a level-dump line.
pub open spec fn dump_head(r: RecModel, idx: nat, level: int) -> Seq<char> {
    pad_left(dec(idx), 4) + "  L="@ + pad_left(signed_dec(level), 3) + "  d="@ + pad_left(
        signed_dec(r.delta as int),
        3,
    )
}

/// Attribute, state letters, note length and heading of a level-dump line.
pub open spec fn dump_tail(r: RecModel) -> Seq<char> {
    "  attr=0x"@ + hex(r.attr as nat, 2) + seq![
        ' ',
        ' ',
        if r.collapsed { 'C' } else { 'E' },
        ' ',
        if r.flags.selected { 'S' } else { ' ' },
        ' ',
        if r.flags.has_next_sibling { 'S' } else { ' ' },
    ] + "  note="@ + pad_left(dec(r.note_len), 5) + seq![' ', ' '] + r.text + seq!['\n']
}

/// The level dump of the first `n` records.
pub open spec fn dump_text(recs: Seq<RecModel>, n: nat) -> Seq<char>
    decreases n,
{
    if n == 0 || n > recs.len() {
        Seq::empty()
    } else {
        dump_text(recs, (n - 1) as nat) + dump_line(recs[n - 1], (n - 1) as nat, raw_level(recs, n))
    }
}

fn push_dump_line(out: &mut String, r: &Rec, idx: usize, level: i128)
    requires
        level > i128::MIN,
    ensures
        final(out)@ == old(out)@ + dump_line(r@, idx as nat, level as int),
{
    push_dump_head(out, r, idx, level);
    push_dump_tail(out, r);
    assert(out@ =~= old(out)@ + dump_line(r@, idx as nat, level as int));
}

fn push_dump_head(out: &mut String, r: &Rec, idx: usize, level: i128)
    requires
        level > i128::MIN,
    ensures
        final(out)@ == old(out)@ + dump_head(r@, idx as nat, level as int),
{
    let mut t = String::new();
    push_dec(&mut t, idx as u128);
    push_padded(out, t.as_str(), 4);
    push_text(out, "  L=");
    let l = signed_string(level);
    push_padded(out, l.as_str(), 3);
    push_text(out, "  d=");
    let d = signed_string(r.delta as i128);
    push_padded(out, d.as_str(), 3);
    assert(out@ =~= old(out)@ + dump_head(r@, idx as nat, level as int));
}

fn push_dump_tail(out: &mut String, r: &Rec)
    ensures
        final(out)@ == old(out)@ + dump_tail(r@),
{
    push_text(out, "  attr=0x");
    push_hex(out, r.attr as u128, 2);
    out.push(' ');
    out.push(' ');
    out.push(if r.collapsed { 'C' } else { 'E' });
    out.push(' ');
    out.push(if r.flags.selected { 'S' } else { ' ' });
    out.push(' ');
    out.push(if r.flags.has_next_sibling { 'S' } else { ' ' });
    push_text(out, "  note=");
    let mut n = String::new();
    push_dec(&mut n, r.note_len as u128);
    push_padded(out, n.as_str(), 5);
    out.push(' ');
    out.push(' ');
    push_text(out, r.text.as_str());
    out.push('\n');
    assert(out@ =~= old(out)@ + dump_tail(r@));
}

/// Dumps each record with its index, running level, delta, attribute byte,
/// state letters, note length and heading.
pub fn dump_recs(recs: &[Rec]) -> (s: String)
    ensures
        s@ == dump_text(recs_view(recs@), recs@.len()),
{
    let ghost rv = recs_view(recs@);
    let mut lvl: i128 = 0;
    let mut s = String::new();
    let mut i: usize = 0;
    while i < recs.len()
        invariant
            i <= recs@.len(),
            rv == recs_view(recs@),
            lvl == raw_level(rv, i as nat),
            -32768 * i <= lvl <= 32767 * i,
            s@ == dump_text(rv, i as nat),
        decreases recs@.len() - i,
    {
        let r = &recs[i];
        assert(rv[i as int] == r@);
        lvl = lvl + r.delta as i128;
        push_dump_line(&mut s, r, i, lvl);
        i = i + 1;
    }
    s
}

/// `0x` and a 16-bit-wide hex offset.
pub open spec fn off_text(o: nat) -> Seq<char> {
    "0x"@ + hex(o, 4)
}

/// One line of the offset dump: where the heading, terminator, attribute,
/// marker, delta, note length and note of a record lie.
pub open spec fn offsets_line(r: RecModel, idx: nat) -> Seq<char> {
    offsets_head(r, idx) + offsets_mid(r) + offsets_tail(r)
}

/// Index, heading and terminator of an offset-dump line.
pub open spec fn offsets_head(r: RecModel, idx: nat) -> Seq<char> {
    "#"@ + dec0(idx, 3) + " text["@ + off_text(r.off_text) + "+"@ + pad_left(dec(r.len_text), 4)
        + "] 0xFF["@ + off_text(r.off_terminator)
}

/// Attribute, marker and delta of an offset-dump line.
pub open spec fn offsets_mid(r: RecModel) -> Seq<char> {
    "] attr["@ + off_text(r.off_attr) + "=0x"@
        + hex(r.attr as nat, 2) + "] mark["@ + off_text(r.off_marker) + "="@ + (if r.collapsed {
        "FE FF"@
    } else {
        "FF FF"@
    }) + "] delta["@ + off_text(r.off_delta) + "]"@
}

/// Note offsets and heading of an offset-dump line.
pub open spec fn offsets_tail(r: RecModel) -> Seq<char> {
    opt_off(" nlen["@, r.off_note_len) + opt_off(" note["@, r.off_note) + "  "@ + r.text + seq!['\n']
}

/// A labelled offset in brackets, where there is one.
pub open spec fn opt_off(label: Seq<char>, o: Option<nat>) -> Seq<char> {
    match o {
        Some(x) => label + off_text(x) + "]"@,
        None => Seq::empty(),
    }
}

/// The offset dump of the first `n` records.
pub open spec fn offsets_text(recs: Seq<RecModel>, n: nat) -> Seq<char>
    decreases n,
{
    if n == 0 || n > recs.len() {
        Seq::empty()
    } else {
        offsets_text(recs, (n - 1) as nat) + offsets_line(recs[n - 1], (n - 1) as nat)
    }
}

fn push_off(out: &mut String, o: usize)
    ensures
        final(out)@ == old(out)@ + off_text(o as nat),
{
    push_text(out, "0x");
    push_hex(out, o as u128, 4);
    assert(out@ =~= old(out)@ + off_text(o as nat));
}

fn push_offsets_tail(out: &mut String, r: &Rec)
    ensures
        final(out)@ == old(out)@ + offsets_tail(r@),
{
    match r.off_note_len {
        Some(o) => {
            push_text(out, " nlen[");
            push_off(out, o);
            push_text(out, "]");
        },
        None => {},
    }
    let ghost mid = out@;
    match r.off_note {
        Some(o) => {
            push_text(out, " note[");
            push_off(out, o);
            push_text(out, "]");
        },
        None => {},
    }
    let ghost mid2 = out@;
    push_text(out, "  ");
    push_text(out, r.text.as_str());
    out.push('\n');
    assert(out@ =~= old(out)@ + offsets_tail(r@));
}

fn push_offsets_line(out: &mut String, r: &Rec, idx: usize)
    ensures
        final(out)@ == old(out)@ + offsets_line(r@, idx as nat),
{
    push_text(out, "#");
    push_dec0(out, idx as u128, 3);
    push_text(out, " text[");
    push_off(out, r.off_text);
    push_text(out, "+");
    let mut t = String::new();
    push_dec(&mut t, r.len_text as u128);
    push_padded(out, t.as_str(), 4);
    push_text(out, "] 0xFF[");
    push_off(out, r.off_terminator);
    assert(out@ =~= old(out)@ + offsets_head(r@, idx as nat));
    let ghost h = out@;
    push_text(out, "] attr[");
    push_off(out, r.off_attr);
    push_text(out, "=0x");
    push_hex(out, r.attr as u128, 2);
    push_text(out, "] mark[");
    push_off(out, r.off_marker);
    push_text(out, "=");
    if r.collapsed {
        push_text(out, "FE FF");
    } else {
        push_text(out, "FF FF");
    }
    push_text(out, "] delta[");
    push_off(out, r.off_delta);
    push_text(out, "]");
    assert(out@ =~= h + offsets_mid(r@));
    push_offsets_tail(out, r);
    assert(out@ =~= old(out)@ + offsets_line(r@, idx as nat));
}

/// Dumps the byte offsets of every field of each record.
pub fn dump_offsets(recs: &[Rec]) -> (s: String)
    ensures
        s@ == offsets_text(recs_view(recs@), recs@.len()),
{
    let ghost rv = recs_view(recs@);
    let mut s = String::new();
    let mut i: usize = 0;
    while i < recs.len()
        invariant
            i <= recs@.len(),
            rv == recs_view(recs@),
            s@ == offsets_text(rv, i as nat),
        decreases recs@.len() - i,
    {
        let r = &recs[i];
        assert(rv[i as int] == r@);
        push_offsets_line(&mut s, r, i);
        i = i + 1;
    }
    s
}

} // verus!
