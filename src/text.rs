//! Character-level helpers: building strings, hexadecimal and decimal
//! rendering, line-ending normalisation and line splitting.
use vstd::prelude::*;
use vstd::string::{StrSliceExecFns, StringExecFns};

verus! {

/// Relies on `String::push`: the character is appended at the end.
pub assume_specification[ String::push ](s: &mut String, ch: char)
    ensures
        final(s)@ == old(s)@.push(ch),
;

/// Appends `t` to `s`.
pub fn push_text(s: &mut String, t: &str)
    ensures
        final(s)@ == old(s)@ + t@,
{
    s.append(t);
}

/// The characters of `s`, one per element.
pub fn chars_of(s: &str) -> (r: Vec<char>)
    ensures
        r@ == s@,
{
    let mut v: Vec<char> = Vec::new();
    for c in it: s.chars()
        invariant
            v@ == it.seq().take(it.index() as int),
    {
        v.push(c);
    }
    v
}

/// The lower-case hexadecimal digit for `d` (below 16), or the decimal
/// digit for `d` below 10.
pub open spec fn digit_char(d: nat) -> char {
    if d < 10 {
        ((d + 48) as u8) as char
    } else {
        ((d + 87) as u8) as char
    }
}

/// `n` in lower-case hexadecimal, zero-filled on the left to at least `w`
/// digits.
pub open spec fn hex(n: nat, w: nat) -> Seq<char>
    decreases n, w,
{
    if n < 16 && w <= 1 {
        seq![digit_char(n)]
    } else {
        hex(n / 16, if w == 0 { 0 } else { (w - 1) as nat }).push(digit_char(n % 16))
    }
}

/// `n` in decimal, zero-filled on the left to at least `w` digits.
pub open spec fn dec0(n: nat, w: nat) -> Seq<char>
    decreases n, w,
{
    if n < 10 && w <= 1 {
        seq![digit_char(n)]
    } else {
        dec0(n / 10, if w == 0 { 0 } else { (w - 1) as nat }).push(digit_char(n % 10))
    }
}

/// `n` in decimal.
pub open spec fn dec(n: nat) -> Seq<char>
    decreases n,
{
    if n < 10 {
        seq![digit_char(n)]
    } else {
        dec(n / 10).push(digit_char(n % 10))
    }
}

/// `k` copies of `c`.
pub open spec fn repeat(c: char, k: nat) -> Seq<char> {
    Seq::new(k, |_i: int| c)
}

/// `s` right-aligned in a field of `w` characters.
pub open spec fn pad_left(s: Seq<char>, w: nat) -> Seq<char> {
    if s.len() < w {
        repeat(' ', (w - s.len()) as nat) + s
    } else {
        s
    }
}

/// `i` in decimal with a leading minus sign when negative.
pub open spec fn signed_dec(i: int) -> Seq<char> {
    if i < 0 {
        seq!['-'] + dec((-i) as nat)
    } else {
        dec(i as nat)
    }
}

fn digit_of(d: u128) -> (c: char)
    requires
        d < 16,
    ensures
        c == digit_char(d as nat),
{
    if d < 10 {
        ((d as u8) + 48) as char
    } else {
        ((d as u8) + 87) as char
    }
}

/// Appends `n` in lower-case hexadecimal, at least `w` digits.
pub fn push_hex(s: &mut String, n: u128, w: usize)
    ensures
        final(s)@ == old(s)@ + hex(n as nat, w as nat),
    decreases n, w,
{
    if n < 16 && w <= 1 {
        s.push(digit_of(n));
    } else {
        let w2: usize = if w == 0 { 0 } else { w - 1 };
        push_hex(s, n / 16, w2);
        s.push(digit_of(n % 16));
    }
    assert(final(s)@ =~= old(s)@ + hex(n as nat, w as nat));
}

/// Appends `n` in decimal, zero-filled on the left to at least `w` digits.
pub fn push_dec0(s: &mut String, n: u128, w: usize)
    ensures
        final(s)@ == old(s)@ + dec0(n as nat, w as nat),
    decreases n, w,
{
    if n < 10 && w <= 1 {
        s.push(digit_of(n));
    } else {
        let w2: usize = if w == 0 { 0 } else { w - 1 };
        push_dec0(s, n / 10, w2);
        s.push(digit_of(n % 10));
    }
    assert(final(s)@ =~= old(s)@ + dec0(n as nat, w as nat));
}

/// `b` as `true` or `false`.
pub open spec fn bool_text(b: bool) -> Seq<char> {
    if b {
        seq!['t', 'r', 'u', 'e']
    } else {
        seq!['f', 'a', 'l', 's', 'e']
    }
}

/// Appends `true` or `false`.
pub fn push_bool(s: &mut String, b: bool)
    ensures
        final(s)@ == old(s)@ + bool_text(b),
{
    if b {
        s.push('t');
        s.push('r');
        s.push('u');
        s.push('e');
    } else {
        s.push('f');
        s.push('a');
        s.push('l');
        s.push('s');
        s.push('e');
    }
    assert(s@ =~= old(s)@ + bool_text(b));
}

/// Appends `s` right-aligned in a field of `w` characters.
pub fn push_padded(out: &mut String, t: &str, w: usize)
    ensures
        final(out)@ == old(out)@ + pad_left(t@, w as nat),
{
    let n = t.unicode_len();
    if n < w {
        push_repeat(out, ' ', w - n);
    }
    push_text(out, t);
    assert(out@ =~= old(out)@ + pad_left(t@, w as nat));
}

/// `x` in decimal, with a leading minus sign when negative.
pub fn signed_string(x: i128) -> (s: String)
    requires
        x > i128::MIN,
    ensures
        s@ == signed_dec(x as int),
{
    let mut s = String::new();
    if x < 0 {
        s.push('-');
        push_dec(&mut s, (0 - x) as u128);
    } else {
        push_dec(&mut s, x as u128);
    }
    assert(s@ =~= signed_dec(x as int));
    s
}

/// Appends `n` in decimal.
pub fn push_dec(s: &mut String, n: u128)
    ensures
        final(s)@ == old(s)@ + dec(n as nat),
    decreases n,
{
    if n < 10 {
        s.push(digit_of(n));
    } else {
        push_dec(s, n / 10);
        s.push(digit_of(n % 10));
    }
    assert(final(s)@ =~= old(s)@ + dec(n as nat));
}

/// Appends `k` copies of `c`.
pub fn push_repeat(s: &mut String, c: char, k: usize)
    ensures
        final(s)@ == old(s)@ + repeat(c, k as nat),
{
    let mut i: usize = 0;
    while i < k
        invariant
            i <= k,
            s@ == old(s)@ + repeat(c, i as nat),
        decreases k - i,
    {
        s.push(c);
        i = i + 1;
        assert(s@ =~= old(s)@ + repeat(c, i as nat));
    }
}

/// `s` with every CR LF pair, scanned from the left, replaced by LF.
pub open spec fn crlf_to_lf(s: Seq<char>) -> Seq<char>
    decreases s.len(),
{
    if s.len() == 0 {
        Seq::empty()
    } else if s.len() >= 2 && s[0] == '\r' && s[1] == '\n' {
        seq!['\n'] + crlf_to_lf(s.skip(2))
    } else {
        seq![s[0]] + crlf_to_lf(s.skip(1))
    }
}

/// `s` without one trailing CR.
pub open spec fn strip_cr(s: Seq<char>) -> Seq<char> {
    if s.len() > 0 && s.last() == '\r' {
        s.drop_last()
    } else {
        s
    }
}

/// The lines of `s`, read from the left with `cur` already read into the
/// current line: LF (or CR LF) ends a line, the last line needs no ending,
/// and an empty remainder makes no line.
pub open spec fn lines_from(s: Seq<char>, cur: Seq<char>) -> Seq<Seq<char>>
    decreases s.len(),
{
    if s.len() == 0 {
        if cur.len() == 0 {
            Seq::empty()
        } else {
            seq![cur]
        }
    } else if s[0] == '\n' {
        seq![strip_cr(cur)] + lines_from(s.skip(1), Seq::empty())
    } else {
        lines_from(s.skip(1), cur.push(s[0]))
    }
}

/// The lines of `s`.
pub open spec fn lines(s: Seq<char>) -> Seq<Seq<char>> {
    lines_from(s, Seq::empty())
}

/// Each line preceded by `p` and followed by LF.
pub open spec fn prefixed_lines(ls: Seq<Seq<char>>, p: Seq<char>) -> Seq<char>
    decreases ls.len(),
{
    if ls.len() == 0 {
        Seq::empty()
    } else {
        p + ls[0] + seq!['\n'] + prefixed_lines(ls.skip(1), p)
    }
}

/// The lines of a note as rendered under a heading: line endings
/// normalised, then each line preceded by `p`.
pub open spec fn note_lines(note: Seq<char>, p: Seq<char>) -> Seq<char> {
    prefixed_lines(lines(crlf_to_lf(note)), p)
}

/// `s` with CR LF pairs replaced by LF.
pub fn normalize_crlf(s: &str) -> (r: Vec<char>)
    ensures
        r@ == crlf_to_lf(s@),
{
    let cs = chars_of(s);
    let mut out: Vec<char> = Vec::new();
    let mut i: usize = 0;
    assert(s@.skip(0) =~= s@);
    assert(out@ + crlf_to_lf(s@) =~= crlf_to_lf(s@));
    while i < cs.len()
        invariant
            i <= cs@.len(),
            cs@ == s@,
            crlf_to_lf(s@) == out@ + crlf_to_lf(s@.skip(i as int)),
        decreases cs@.len() - i,
    {
        let ghost rest = s@.skip(i as int);
        if i + 1 < cs.len() && cs[i] == '\r' && cs[i + 1] == '\n' {
            assert(rest.skip(2) =~= s@.skip(i + 2));
            out.push('\n');
            i = i + 2;
        } else {
            assert(rest.skip(1) =~= s@.skip(i + 1));
            out.push(cs[i]);
            i = i + 1;
        }
        assert(crlf_to_lf(s@) =~= out@ + crlf_to_lf(s@.skip(i as int)));
    }
    assert(s@.skip(i as int) =~= Seq::<char>::empty());
    out
}

/// Appends the characters `v[from..to]`.
pub fn push_chars(s: &mut String, v: &Vec<char>, from: usize, to: usize)
    requires
        from <= to <= v@.len(),
    ensures
        final(s)@ == old(s)@ + v@.subrange(from as int, to as int),
{
    let mut i: usize = from;
    while i < to
        invariant
            from <= i <= to <= v@.len(),
            s@ == old(s)@ + v@.subrange(from as int, i as int),
        decreases to - i,
    {
        s.push(v[i]);
        i = i + 1;
        assert(s@ =~= old(s)@ + v@.subrange(from as int, i as int));
    }
}

/// Appends each line of `note` (line endings normalised) preceded by `p`
/// and followed by LF.
pub fn push_note_lines(out: &mut String, note: &str, p: &str)
    ensures
        final(out)@ == old(out)@ + note_lines(note@, p@),
{
    let cs = normalize_crlf(note);
    let ghost n = cs@;
    let mut start: usize = 0;
    let mut i: usize = 0;
    assert(n.skip(0) =~= n);
    assert(n.subrange(0, 0) =~= Seq::<char>::empty());
    assert(old(out)@ + note_lines(note@, p@) =~= out@ + note_lines(note@, p@));
    while i < cs.len()
        invariant
            start <= i <= cs@.len(),
            cs@ == n,
            n == crlf_to_lf(note@),
            old(out)@ + note_lines(note@, p@) == out@ + prefixed_lines(
                lines_from(n.skip(i as int), n.subrange(start as int, i as int)),
                p@,
            ),
        decreases cs@.len() - i,
    {
        let ghost cur = n.subrange(start as int, i as int);
        assert(n.skip(i as int).skip(1) =~= n.skip(i + 1));
        if cs[i] == '\n' {
            let ghost ls = lines_from(n.skip(i + 1), Seq::empty());
            assert((seq![strip_cr(cur)] + ls).skip(1) =~= ls);
            push_text(out, p);
            let end: usize = if i > start && cs[i - 1] == '\r' { i - 1 } else { i };
            assert(n.subrange(start as int, end as int) =~= strip_cr(cur));
            push_chars(out, &cs, start, end);
            out.push('\n');
            start = i + 1;
            i = i + 1;
            assert(n.subrange(start as int, i as int) =~= Seq::<char>::empty());
        } else {
            i = i + 1;
            assert(n.subrange(start as int, i as int) =~= cur.push(n[i - 1]));
        }
    }
    let ghost cur = n.subrange(start as int, i as int);
    assert(n.skip(i as int) =~= Seq::<char>::empty());
    if start < i {
        assert(seq![cur].skip(1) =~= Seq::<Seq<char>>::empty());
        assert(lines_from(n.skip(i as int), cur) == seq![cur]);
        assert(prefixed_lines(Seq::<Seq<char>>::empty(), p@) == Seq::<char>::empty());
        push_text(out, p);
        push_chars(out, &cs, start, i);
        out.push('\n');
        assert(out@ =~= old(out)@ + note_lines(note@, p@));
    } else {
        assert(out@ =~= old(out)@ + note_lines(note@, p@));
    }
}

} // verus!
