//! The decoder: raw document bytes to flat records.
use vstd::prelude::*;
use vstd::slice::slice_subrange;
use vstd::string::StrSliceExecFns;
use crate::record::{
    flags_of, recs_view, Flags, Rec, RecModel, A_NOTE, EOF_BYTE, MARK_COLLAPSED, M_COLLAPSED,
    M_EXPANDED, TERMINATOR,
};

verus! {

/// Longest heading, in bytes, that the decoder accepts.
pub const MAX_TEXTLEN: usize = 1048576;

/// How note bytes are turned into text.
#[derive(Clone, Copy, Debug, PartialEq, Eq, Structural)]
pub enum NoteEncoding {
    /// Lossy UTF-8: invalid sequences become replacement characters.
    Utf8,
    /// One character per byte, of the byte's value.
    Latin1,
    /// One character per byte, of the byte's low seven bits.
    Ascii,
}

/// Why a document could not be decoded.
#[derive(Clone, Copy, Debug, PartialEq, Eq, Structural)]
pub enum DecodeError {
    /// No heading terminator before the end of the input.
    UnterminatedHeading,
    /// The terminator is not followed by attribute, marker and delta bytes.
    TruncatedHeader,
    /// A note is announced but its length field is cut off.
    TruncatedNoteLength,
    /// The note is shorter than its length field says.
    TruncatedNoteBytes,
    /// The heading is longer than `MAX_TEXTLEN` bytes.
    HeadingTooLarge,
}

/// The encoding that a selector names: `utf8`, `latin1` or `ascii`; any
/// other name selects lossy UTF-8.
pub open spec fn encoding_of(name: Seq<char>) -> NoteEncoding {
    if name == seq!['l', 'a', 't', 'i', 'n', '1'] {
        NoteEncoding::Latin1
    } else if name == seq!['a', 's', 'c', 'i', 'i'] {
        NoteEncoding::Ascii
    } else {
        NoteEncoding::Utf8
    }
}

impl NoteEncoding {
    /// The encoding that a selector names.
    pub fn from_name(name: &str) -> (r: NoteEncoding)
        ensures
            r == encoding_of(name@),
    {
        let n = name.unicode_len();
        if n == 6 && name.get_char(0) == 'l' && name.get_char(1) == 'a' && name.get_char(2) == 't'
            && name.get_char(3) == 'i' && name.get_char(4) == 'n' && name.get_char(5) == '1' {
            assert(name@ =~= seq!['l', 'a', 't', 'i', 'n', '1']);
            NoteEncoding::Latin1
        } else if n == 5 && name.get_char(0) == 'a' && name.get_char(1) == 's' && name.get_char(2)
            == 'c' && name.get_char(3) == 'i' && name.get_char(4) == 'i' {
            assert(name@ =~= seq!['a', 's', 'c', 'i', 'i']);
            NoteEncoding::Ascii
        } else {
            proof {
                if name@ == seq!['l', 'a', 't', 'i', 'n', '1'] {
                    assert(name@[5] == '1');
                }
                if name@ == seq!['a', 's', 'c', 'i', 'i'] {
                    assert(name@[4] == 'i');
                }
            }
            NoteEncoding::Utf8
        }
    }
}

/// The text that `String::from_utf8_lossy` makes of some bytes.
pub uninterp spec fn utf8_lossy(b: Seq<u8>) -> Seq<char>;

/// Relies on `String::from_utf8_lossy`, whose text depends on the bytes
/// alone.
#[verifier::external_body]
fn lossy_utf8(b: &[u8]) -> (r: String)
    ensures
        r@ == utf8_lossy(b@),
{
    String::from_utf8_lossy(b).into_owned()
}

/// The text of note bytes under an encoding.
pub open spec fn note_text(b: Seq<u8>, enc: NoteEncoding) -> Seq<char> {
    match enc {
        NoteEncoding::Utf8 => utf8_lossy(b),
        NoteEncoding::Latin1 => b.map_values(|x: u8| x as char),
        NoteEncoding::Ascii => b.map_values(|x: u8| (x & 0x7f) as char),
    }
}

/// The characters of one heading byte: its low seven bits, then a space
/// when the high bit is set.
pub open spec fn heading_byte_text(b: u8) -> Seq<char> {
    if b & 0x80 != 0 {
        seq![(b & 0x7f) as char, ' ']
    } else {
        seq![(b & 0x7f) as char]
    }
}

/// The text of heading bytes.
pub open spec fn heading_text(b: Seq<u8>) -> Seq<char>
    decreases b.len(),
{
    if b.len() == 0 {
        Seq::empty()
    } else {
        heading_text(b.drop_last()) + heading_byte_text(b.last())
    }
}

/// Decodes heading bytes: each byte gives its low seven bits as a character,
/// followed by a space when its high bit is set.
pub fn decode_heading(bytes: &[u8]) -> (s: String)
    ensures
        s@ == heading_text(bytes@),
{
    let mut s = String::new();
    let mut j: usize = 0;
    while j < bytes.len()
        invariant
            j <= bytes@.len(),
            s@ == heading_text(bytes@.take(j as int)),
        decreases bytes@.len() - j,
    {
        let b = bytes[j];
        assert(bytes@.take(j + 1).drop_last() =~= bytes@.take(j as int));
        s.push((b & 0x7f) as char);
        if (b & 0x80) != 0 {
            s.push(' ');
        }
        j = j + 1;
        assert(s@ =~= heading_text(bytes@.take(j as int)));
    }
    assert(bytes@.take(j as int) =~= bytes@);
    s
}

fn decode_note_with(bytes: &[u8], enc: NoteEncoding) -> (s: String)
    ensures
        s@ == note_text(bytes@, enc),
{
    match enc {
        NoteEncoding::Utf8 => lossy_utf8(bytes),
        _ => {
            let mut s = String::new();
            let mut j: usize = 0;
            while j < bytes.len()
                invariant
                    j <= bytes@.len(),
                    enc != NoteEncoding::Utf8,
                    s@ =~= note_text(bytes@.take(j as int), enc),
                decreases bytes@.len() - j,
            {
                let b = bytes[j];
                if enc == NoteEncoding::Latin1 {
                    s.push(b as char);
                } else {
                    s.push((b & 0x7f) as char);
                }
                j = j + 1;
            }
            assert(bytes@.take(j as int) =~= bytes@);
            s
        }
    }
}

/// Decodes note bytes under the encoding that `enc` names.
pub fn decode_note(bytes: &[u8], enc: &str) -> (s: String)
    ensures
        s@ == note_text(bytes@, encoding_of(enc@)),
{
    decode_note_with(bytes, NoteEncoding::from_name(enc))
}

/// The little-endian 16-bit word of two bytes.
pub open spec fn le16(lo: u8, hi: u8) -> u16 {
    (lo as int + 256 * hi as int) as u16
}

fn read_le16(lo: u8, hi: u8) -> (r: u16)
    ensures
        r == le16(lo, hi),
{
    (lo as u16) + (hi as u16) * 256
}

/// Whether the document starts with the magic prefix.
pub open spec fn has_magic(buf: Seq<u8>) -> bool {
    buf.len() >= 3 && buf[0] == 0x1a && buf[1] == 0x93 && buf[2] == 0x1a
}

/// Whether the preamble stands at `i`.
pub open spec fn has_preamble(buf: Seq<u8>, i: int) -> bool {
    buf.len() >= i + 6 && buf[i] == 0xff && buf[i + 1] == 0x00 && buf[i + 2] == 0xff && buf[i
        + 3] == 0xff && buf[i + 4] == 0xff && buf[i + 5] == 0xff
}

/// Where the records begin: after the magic prefix and the preamble, where
/// they are present.
pub open spec fn body_start(buf: Seq<u8>) -> int {
    let i = if has_magic(buf) { 3int } else { 0int };
    if has_preamble(buf, i) { i + 6 } else { i }
}

/// Whether the input ends at `i`: a last control byte, or terminator,
/// terminator, control byte.
pub open spec fn at_end_sentinel(buf: Seq<u8>, i: int) -> bool {
    (i == buf.len() - 1 && buf[i] == EOF_BYTE) || (i + 2 < buf.len() && buf[i] == TERMINATOR
        && buf[i + 1] == TERMINATOR && buf[i + 2] == EOF_BYTE)
}

/// The first terminator at or after `k`, or the input's length.
pub open spec fn find_terminator(buf: Seq<u8>, k: int) -> int
    decreases buf.len() - k,
{
    if k >= buf.len() {
        buf.len() as int
    } else if buf[k] == TERMINATOR {
        k
    } else {
        find_terminator(buf, k + 1)
    }
}

/// Whether a terminator at `k` is followed by a valid marker.
pub open spec fn marker_ok(buf: Seq<u8>, k: int) -> bool {
    buf[k + 3] == TERMINATOR && (buf[k + 2] == M_EXPANDED || buf[k + 2] == M_COLLAPSED)
}

/// What the decoder does at position `i`.
pub ghost enum Step {
    /// The input ends here.
    Stop,
    /// Decoding fails.
    Fail(DecodeError),
    /// A stray terminator: scanning goes on from the position given.
    Skip(int),
    /// A record, and the position after it.
    Emit(RecModel, int),
}

/// The record whose heading spans `i..k` and whose header starts at the
/// terminator `k`, with its note where `note` gives the note's offset and
/// length.
pub open spec fn record_at(
    buf: Seq<u8>,
    i: int,
    k: int,
    note: Option<(int, int)>,
    enc: NoteEncoding,
) -> RecModel {
    let attr = buf[k + 1];
    let marker = le16(buf[k + 2], buf[k + 3]);
    RecModel {
        text: heading_text(buf.subrange(i, k)),
        delta: le16(buf[k + 4], buf[k + 5]) as i16,
        attr,
        marker,
        collapsed: marker == MARK_COLLAPSED,
        note: match note {
            Some((o, n)) => Some(note_text(buf.subrange(o, o + n), enc)),
            None => None,
        },
        flags: flags_of(attr),
        off_text: i as nat,
        len_text: (k - i) as nat,
        off_terminator: k as nat,
        off_attr: (k + 1) as nat,
        off_marker: (k + 2) as nat,
        off_delta: (k + 4) as nat,
        off_note_len: match note {
            Some((o, n)) => Some((o - 2) as nat),
            None => None,
        },
        off_note: match note {
            Some((o, n)) => Some(o as nat),
            None => None,
        },
        note_len: match note {
            Some((o, n)) => n as nat,
            None => 0,
        },
    }
}

/// One decoding step at position `i`.
#[verifier::opaque]
pub open spec fn decode_step(buf: Seq<u8>, i: int, enc: NoteEncoding) -> Step {
    let k = find_terminator(buf, i);
    if at_end_sentinel(buf, i) {
        Step::Stop
    } else if k >= buf.len() {
        Step::Fail(DecodeError::UnterminatedHeading)
    } else if k + 4 > buf.len() {
        Step::Fail(DecodeError::TruncatedHeader)
    } else if !marker_ok(buf, k) {
        Step::Skip(k + 1)
    } else if k - i > MAX_TEXTLEN {
        Step::Fail(DecodeError::HeadingTooLarge)
    } else if k + 6 > buf.len() {
        Step::Fail(DecodeError::TruncatedHeader)
    } else if buf[k + 1] & A_NOTE == 0 {
        Step::Emit(record_at(buf, i, k, None, enc), k + 6)
    } else if k + 8 > buf.len() {
        Step::Fail(DecodeError::TruncatedNoteLength)
    } else if k + 8 + le16(buf[k + 6], buf[k + 7]) > buf.len() {
        Step::Fail(DecodeError::TruncatedNoteBytes)
    } else {
        let n = le16(buf[k + 6], buf[k + 7]) as int;
        Step::Emit(record_at(buf, i, k, Some((k + 8, n)), enc), k + 8 + n)
    }
}

/// `r` with `pre` put in front of its records.
pub open spec fn prepend(pre: Seq<RecModel>, r: Result<Seq<RecModel>, DecodeError>) -> Result<
    Seq<RecModel>,
    DecodeError,
> {
    match r {
        Ok(rest) => Ok(pre + rest),
        Err(e) => Err(e),
    }
}

/// The records from position `i` to the end, or the failure met on the way.
pub open spec fn decode_from(buf: Seq<u8>, i: int, enc: NoteEncoding) -> Result<
    Seq<RecModel>,
    DecodeError,
>
    decreases buf.len() - i,
{
    if i < 0 || i >= buf.len() {
        Ok(Seq::empty())
    } else {
        match decode_step(buf, i, enc) {
            Step::Stop => Ok(Seq::empty()),
            Step::Fail(e) => Err(e),
            Step::Skip(j) => if i < j <= buf.len() {
                decode_from(buf, j, enc)
            } else {
                Ok(Seq::empty())
            },
            Step::Emit(r, j) => if i < j <= buf.len() {
                prepend(seq![r], decode_from(buf, j, enc))
            } else {
                Ok(Seq::empty())
            },
        }
    }
}

/// The records of a document, or why it cannot be decoded.
pub open spec fn decode(buf: Seq<u8>, enc: NoteEncoding) -> Result<Seq<RecModel>, DecodeError> {
    decode_from(buf, body_start(buf), enc)
}

/// The value of a decoding result.
pub open spec fn result_view(r: Result<Vec<Rec>, DecodeError>) -> Result<
    Seq<RecModel>,
    DecodeError,
> {
    match r {
        Ok(v) => Ok(recs_view(v@)),
        Err(e) => Err(e),
    }
}

proof fn lemma_find_terminator(buf: Seq<u8>, i: int, k: int)
    requires
        0 <= i <= k <= buf.len(),
        forall|j: int| i <= j < k ==> buf[j] != TERMINATOR,
    ensures
        find_terminator(buf, i) == find_terminator(buf, k),
    decreases k - i,
{
    if i < k {
        lemma_find_terminator(buf, i + 1, k);
    }
}

pub proof fn lemma_find_terminator_range(buf: Seq<u8>, k: int)
    requires
        0 <= k <= buf.len(),
    ensures
        k <= find_terminator(buf, k) <= buf.len(),
        find_terminator(buf, k) < buf.len() ==> buf[find_terminator(buf, k)] == TERMINATOR,
    decreases buf.len() - k,
{
    if k < buf.len() {
        lemma_find_terminator_range(buf, k + 1);
    }
}

pub proof fn lemma_find_terminator_pub(buf: Seq<u8>, i: int, k: int)
    requires
        0 <= i <= k <= buf.len(),
        forall|j: int| i <= j < k ==> buf[j] != TERMINATOR,
    ensures
        find_terminator(buf, i) == find_terminator(buf, k),
{
    lemma_find_terminator(buf, i, k);
}

fn skip_header(buf: &[u8]) -> (i: usize)
    ensures
        i as int == body_start(buf@),
{
    let mut i: usize = 0;
    if buf.len() >= 3 && buf[0] == 0x1a && buf[1] == 0x93 && buf[2] == 0x1a {
        i = 3;
    }
    if buf.len() >= i + 6 && buf[i] == 0xff && buf[i + 1] == 0x00 && buf[i + 2] == 0xff && buf[i
        + 3] == 0xff && buf[i + 4] == 0xff && buf[i + 5] == 0xff {
        i = i + 6;
    }
    i
}

enum Scan {
    Stop,
    Fail(DecodeError),
    Skip(usize),
    Emit(Rec, usize),
}

spec fn scan_matches(r: Scan, s: Step) -> bool {
    match (r, s) {
        (Scan::Stop, Step::Stop) => true,
        (Scan::Fail(e), Step::Fail(f)) => e == f,
        (Scan::Skip(j), Step::Skip(t)) => j as int == t,
        (Scan::Emit(rec, j), Step::Emit(m, t)) => rec@ == m && j as int == t,
        _ => false,
    }
}

fn decode_step_at(buf: &[u8], i: usize, enc: NoteEncoding) -> (r: Scan)
    requires
        i < buf@.len(),
    ensures
        scan_matches(r, decode_step(buf@, i as int, enc)),
        r matches Scan::Skip(j) ==> i < j <= buf@.len(),
        r matches Scan::Emit(_, j) ==> i < j <= buf@.len(),
{
    let ghost b = buf@;
    let len = buf.len();
    reveal(decode_step);
    if (i == len - 1 && buf[i] == EOF_BYTE) || (len - i > 2 && buf[i] == TERMINATOR && buf[i
        + 1] == TERMINATOR && buf[i + 2] == EOF_BYTE) {
        return Scan::Stop;
    }
    let mut k: usize = i;
    while k < len && buf[k] != TERMINATOR
        invariant
            i <= k <= len,
            len == b.len(),
            b == buf@,
            forall|j: int| i <= j < k ==> b[j] != TERMINATOR,
        decreases len - k,
    {
        k = k + 1;
    }
    proof {
        lemma_find_terminator(b, i as int, k as int);
    }
    if k >= len {
        return Scan::Fail(DecodeError::UnterminatedHeading);
    }
    if len - k < 4 {
        return Scan::Fail(DecodeError::TruncatedHeader);
    }
    let attr = buf[k + 1];
    let mark1 = buf[k + 2];
    let mark2 = buf[k + 3];
    if mark2 != TERMINATOR || (mark1 != M_EXPANDED && mark1 != M_COLLAPSED) {
        return Scan::Skip(k + 1);
    }
    if k - i > MAX_TEXTLEN {
        return Scan::Fail(DecodeError::HeadingTooLarge);
    }
    if len - k < 6 {
        return Scan::Fail(DecodeError::TruncatedHeader);
    }
    let text = decode_heading(slice_subrange(buf, i, k));
    let marker_u16 = read_le16(mark1, mark2);
    let delta = read_le16(buf[k + 4], buf[k + 5]) as i16;
    let mut note: Option<String> = None;
    let mut off_note_len: Option<usize> = None;
    let mut off_note: Option<usize> = None;
    let mut note_len: usize = 0;
    let mut next: usize = k + 6;
    let ghost note_span: Option<(int, int)> = None;
    if attr & A_NOTE != 0 {
        if len - next < 2 {
            return Scan::Fail(DecodeError::TruncatedNoteLength);
        }
        let nlen = read_le16(buf[next], buf[next + 1]) as usize;
        if len - (next + 2) < nlen {
            return Scan::Fail(DecodeError::TruncatedNoteBytes);
        }
        off_note_len = Some(next);
        off_note = Some(next + 2);
        note_len = nlen;
        note = Some(decode_note_with(slice_subrange(buf, next + 2, next + 2 + nlen), enc));
        proof {
            note_span = Some(((next + 2) as int, nlen as int));
        }
        next = next + 2 + nlen;
    }
    let rec = Rec {
        text,
        delta,
        attr,
        marker_u16,
        collapsed: marker_u16 == MARK_COLLAPSED,
        note,
        flags: Flags::from_attr(attr),
        off_text: i,
        len_text: k - i,
        off_terminator: k,
        off_attr: k + 1,
        off_marker: k + 2,
        off_delta: k + 4,
        off_note_len,
        off_note,
        note_len,
    };
    assert(rec@ == record_at(b, i as int, k as int, note_span, enc));
    Scan::Emit(rec, next)
}

/// Decodes a document into its records; `note_enc` names the encoding of
/// the notes.
pub fn parse_otl(buf: &[u8], note_enc: &str) -> (r: Result<Vec<Rec>, DecodeError>)
    ensures
        result_view(r) == decode(buf@, encoding_of(note_enc@)),
{
    let enc = NoteEncoding::from_name(note_enc);
    let ghost b = buf@;
    let len = buf.len();
    let mut i: usize = skip_header(buf);
    let mut out: Vec<Rec> = Vec::new();
    assert(recs_view(out@) =~= Seq::<RecModel>::empty());
    assert(prepend(Seq::empty(), decode(b, enc)) =~= decode(b, enc)) by {
        match decode(b, enc) {
            Ok(s) => assert(Seq::<RecModel>::empty() + s =~= s),
            Err(e) => {},
        }
    }
    while i < len
        invariant
            len == b.len(),
            b == buf@,
            enc == encoding_of(note_enc@),
            i <= len,
            decode(b, enc) == prepend(recs_view(out@), decode_from(b, i as int, enc)),
        decreases len - i,
    {
        let step = decode_step_at(buf, i, enc);
        let ghost rest = decode_from(b, i as int, enc);
        assert(rest == match decode_step(b, i as int, enc) {
            Step::Stop => Ok(Seq::empty()),
            Step::Fail(e) => Err(e),
            Step::Skip(j) => if i < j <= b.len() {
                decode_from(b, j, enc)
            } else {
                Ok(Seq::empty())
            },
            Step::Emit(r, j) => if i < j <= b.len() {
                prepend(seq![r], decode_from(b, j, enc))
            } else {
                Ok(Seq::empty())
            },
        });
        match step {
            Scan::Stop => {
                assert(recs_view(out@) + Seq::empty() =~= recs_view(out@));
                return Ok(out);
            },
            Scan::Fail(e) => {
                return Err(e);
            },
            Scan::Skip(j) => {
                i = j;
            },
            Scan::Emit(rec, j) => {
                let ghost old_out = recs_view(out@);
                let ghost m = rec@;
                out.push(rec);
                assert(recs_view(out@) =~= old_out + seq![m]);
                i = j;
                assert(decode(b, enc) =~= prepend(recs_view(out@), decode_from(b, i as int, enc)))
                    by {
                    match decode_from(b, i as int, enc) {
                        Ok(s) => assert(old_out + (seq![m] + s) =~= recs_view(out@) + s),
                        Err(e) => {},
                    }
                }
            },
        }
    }
    assert(recs_view(out@) + Seq::empty() =~= recs_view(out@));
    Ok(out)
}

} // verus!
