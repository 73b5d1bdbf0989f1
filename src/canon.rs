//! The canonical rendering: one offset-free, bit-complete line per record.
use vstd::prelude::*;
use crate::record::{recs_view, Rec, RecModel, MARK_COLLAPSED, MARK_EXPANDED};
use crate::text::{
    chars_of, crlf_to_lf, digit_char, hex, normalize_crlf, push_chars, push_hex, push_text,
};

verus! {

/// Whether bit `i` of `attr` is set.
pub open spec fn bit_set(attr: u8, i: u8) -> bool {
    (attr >> i) & 1 == 1
}

/// The mnemonic of bit `i`: `N`/`n` for a note, `C`/`c` for the caret (only
/// when `show_cursor`), `S`/`s` for a following sibling, `K`/`k` for the
/// bit under study (upper case when set), `1` for any other set bit.
pub open spec fn bit_letter(i: u8, set: bool, show_cursor: bool) -> Seq<char> {
    if i == 7 {
        if set { seq!['N'] } else { seq!['n'] }
    } else if i == 5 {
        if !show_cursor {
            Seq::empty()
        } else if set {
            seq!['C']
        } else {
            seq!['c']
        }
    } else if i == 3 {
        if set { seq!['S'] } else { seq!['s'] }
    } else if i == 2 {
        if set { seq!['K'] } else { seq!['k'] }
    } else if set {
        seq!['1']
    } else {
        Seq::empty()
    }
}

/// The mnemonics of the `n` highest bits of `attr`, highest first.
pub open spec fn attr_bits_text(attr: u8, show_cursor: bool, n: nat) -> Seq<char>
    decreases n,
{
    if n == 0 || n > 8 {
        Seq::empty()
    } else {
        let i = (8 - n) as u8;
        attr_bits_text(attr, show_cursor, (n - 1) as nat) + bit_letter(
            i,
            bit_set(attr, i),
            show_cursor,
        )
    }
}

/// Renders the bits of an attribute byte as mnemonics, highest bit first.
pub fn fmt_attr_bits(attr: u8, show_cursor: bool) -> (s: String)
    ensures
        s@ == attr_bits_text(attr, show_cursor, 8),
{
    let mut s = String::new();
    let mut n: u8 = 0;
    while n < 8
        invariant
            n <= 8,
            s@ == attr_bits_text(attr, show_cursor, n as nat),
        decreases 8 - n,
    {
        let i: u8 = 7 - n;
        let set = (attr >> i) & 1 == 1;
        if i == 7 {
            s.push(if set { 'N' } else { 'n' });
        } else if i == 5 {
            if show_cursor {
                s.push(if set { 'C' } else { 'c' });
            }
        } else if i == 3 {
            s.push(if set { 'S' } else { 's' });
        } else if i == 2 {
            s.push(if set { 'K' } else { 'k' });
        } else if set {
            s.push('1');
        }
        n = n + 1;
        assert(s@ =~= attr_bits_text(attr, show_cursor, n as nat));
    }
    s
}

/// The marker word as a token: `-1:+` expanded, `-2:-` collapsed, else hex.
pub open spec fn mark_text(u: u16) -> Seq<char> {
    if u == MARK_EXPANDED {
        seq!['-', '1', ':', '+']
    } else if u == MARK_COLLAPSED {
        seq!['-', '2', ':', '-']
    } else {
        seq!['0', 'x'] + hex(u as nat, 4)
    }
}

/// Renders a marker word.
pub fn mark_field(u: u16) -> (s: String)
    ensures
        s@ == mark_text(u),
{
    let mut s = String::new();
    if u == MARK_EXPANDED {
        s.push('-');
        s.push('1');
        s.push(':');
        s.push('+');
    } else if u == MARK_COLLAPSED {
        s.push('-');
        s.push('2');
        s.push(':');
        s.push('-');
    } else {
        s.push('0');
        s.push('x');
        push_hex(&mut s, u as u128, 4);
    }
    assert(s@ =~= mark_text(u));
    s
}

/// A delta as a signed digit when within -9..9, else the hex of its bits.
pub open spec fn delta_text(d: i16) -> Seq<char> {
    if -9 <= d <= 9 {
        if d < 0 {
            seq!['-', digit_char((-d) as nat)]
        } else {
            seq!['+', digit_char(d as nat)]
        }
    } else {
        seq!['0', 'x'] + hex((d as u16) as nat, 4)
    }
}

/// Renders a delta.
pub fn delta_field(d: i16) -> (s: String)
    ensures
        s@ == delta_text(d),
{
    let mut s = String::new();
    if -9 <= d && d <= 9 {
        if d < 0 {
            s.push('-');
            s.push(((0 - d) as u8 + 48) as char);
        } else {
            s.push('+');
            s.push((d as u8 + 48) as char);
        }
    } else {
        s.push('0');
        s.push('x');
        push_hex(&mut s, (d as u16) as u128, 4);
    }
    assert(s@ =~= delta_text(d));
    s
}

/// One character with backslash and quote escaped.
pub open spec fn escape_char(c: char) -> Seq<char> {
    if c == '\\' {
        seq!['\\', '\\']
    } else if c == '"' {
        seq!['\\', '"']
    } else {
        seq![c]
    }
}

/// `s` with backslash and quote escaped.
pub open spec fn escape_text(s: Seq<char>) -> Seq<char>
    decreases s.len(),
{
    if s.len() == 0 {
        Seq::empty()
    } else {
        escape_text(s.drop_last()) + escape_char(s.last())
    }
}

/// Escapes backslash and quote, for a one-line quoted heading.
pub fn escape_headline(s: &str) -> (r: String)
    ensures
        r@ == escape_text(s@),
{
    let cs = chars_of(s);
    let mut out = String::new();
    let mut i: usize = 0;
    while i < cs.len()
        invariant
            i <= cs@.len(),
            cs@ == s@,
            out@ == escape_text(s@.take(i as int)),
        decreases cs@.len() - i,
    {
        let c = cs[i];
        assert(s@.take(i + 1).drop_last() =~= s@.take(i as int));
        if c == '\\' {
            out.push('\\');
            out.push('\\');
        } else if c == '"' {
            out.push('\\');
            out.push('"');
        } else {
            out.push(c);
        }
        i = i + 1;
        assert(out@ =~= escape_text(s@.take(i as int)));
    }
    assert(s@.take(i as int) =~= s@);
    out
}

/// The note body of the canonical form: line endings normalised, and a
/// final LF where the text lacks one.
pub open spec fn note_body(note: Seq<char>) -> Seq<char> {
    let n = crlf_to_lf(note);
    if n.len() > 0 && n.last() == '\n' {
        n
    } else {
        n.push('\n')
    }
}

/// The canonical header line of a record: attribute mnemonics, marker,
/// delta, raw heading length and quoted heading.
pub open spec fn canon_header(r: RecModel, show_cursor: bool) -> Seq<char> {
    attr_bits_text(r.attr, show_cursor, 8) + " mark="@ + mark_text(r.marker) + " delta="@
        + delta_text(r.delta) + " textLen="@ + hex((r.len_text as u16) as nat, 4) + " \""@
        + escape_text(r.text) + "\"\n"@
}

/// The canonical note block of a record whose note bit is set: the note
/// length, then the note between `note` and `/note` lines.
pub open spec fn canon_note(r: RecModel) -> Seq<char> {
    if r.flags.has_note {
        "noteLen="@ + hex((r.note_len as u16) as nat, 4) + "\nnote\n"@ + note_body(
            match r.note {
                Some(t) => t,
                None => Seq::empty(),
            },
        ) + "/note\n"@
    } else {
        Seq::empty()
    }
}

/// The canonical lines of one record.
pub open spec fn canon_rec(r: RecModel, show_cursor: bool) -> Seq<char> {
    canon_header(r, show_cursor) + canon_note(r)
}

/// The canonical rendering of the first `n` records.
pub open spec fn canon_text(recs: Seq<RecModel>, show_cursor: bool, n: nat) -> Seq<char>
    decreases n,
{
    if n == 0 || n > recs.len() {
        Seq::empty()
    } else {
        canon_text(recs, show_cursor, (n - 1) as nat) + canon_rec(recs[n - 1], show_cursor)
    }
}

/// The canonical rendering of a record sequence.
pub open spec fn canon(recs: Seq<RecModel>, show_cursor: bool) -> Seq<char> {
    canon_text(recs, show_cursor, recs.len())
}

fn push_canon_header(out: &mut String, r: &Rec, show_cursor: bool)
    ensures
        final(out)@ == old(out)@ + canon_header(r@, show_cursor),
{
    let a = fmt_attr_bits(r.attr, show_cursor);
    push_text(out, a.as_str());
    push_text(out, " mark=");
    let m = mark_field(r.marker_u16);
    push_text(out, m.as_str());
    push_text(out, " delta=");
    let d = delta_field(r.delta);
    push_text(out, d.as_str());
    push_text(out, " textLen=");
    push_hex(out, (r.len_text as u16) as u128, 4);
    push_text(out, " \"");
    let e = escape_headline(r.text.as_str());
    push_text(out, e.as_str());
    push_text(out, "\"\n");
    assert(out@ =~= old(out)@ + canon_header(r@, show_cursor));
}

fn push_canon_note(out: &mut String, r: &Rec)
    ensures
        final(out)@ == old(out)@ + canon_note(r@),
{
    if r.flags.has_note {
        push_text(out, "noteLen=");
        push_hex(out, (r.note_len as u16) as u128, 4);
        push_text(out, "\nnote\n");
        let n = match &r.note {
            Some(t) => normalize_crlf(t.as_str()),
            None => Vec::new(),
        };
        let ghost body = match r@.note {
            Some(t) => t,
            None => Seq::empty(),
        };
        assert(n@ == crlf_to_lf(body)) by {
            if r.note is None {
                assert(crlf_to_lf(Seq::<char>::empty()) =~= Seq::<char>::empty());
            }
        }
        let ghost mid = out@;
        push_chars(out, &n, 0, n.len());
        assert(n@.subrange(0, n@.len() as int) =~= n@);
        if n.len() == 0 || n[n.len() - 1] != '\n' {
            out.push('\n');
        }
        assert(out@ =~= mid + note_body(body));
        push_text(out, "/note\n");
    }
    assert(out@ =~= old(out)@ + canon_note(r@));
}

fn push_canon_rec(out: &mut String, r: &Rec, show_cursor: bool)
    ensures
        final(out)@ == old(out)@ + canon_rec(r@, show_cursor),
{
    push_canon_header(out, r, show_cursor);
    push_canon_note(out, r);
    assert(out@ =~= old(out)@ + canon_rec(r@, show_cursor));
}

/// Renders records in the canonical form, one line per record and a note
/// block for each record with a note.
pub fn render_canon(recs: &[Rec], show_cursor: bool) -> (s: String)
    ensures
        s@ == canon(recs_view(recs@), show_cursor),
{
    let ghost rv = recs_view(recs@);
    let mut out = String::new();
    let mut i: usize = 0;
    while i < recs.len()
        invariant
            i <= recs@.len(),
            rv == recs_view(recs@),
            out@ == canon_text(rv, show_cursor, i as nat),
        decreases recs@.len() - i,
    {
        push_canon_rec(&mut out, &recs[i], show_cursor);
        i = i + 1;
    }
    out
}

/// Canonical rendering is a function of the records alone: the same
/// records render to the same text every time.
pub proof fn lemma_canon_deterministic(a: Seq<RecModel>, b: Seq<RecModel>, show_cursor: bool)
    requires
        a == b,
    ensures
        canon(a, show_cursor) == canon(b, show_cursor),
{
}

} // verus!
