//! The encoder: an outline forest back to document bytes.
use vstd::prelude::*;
use vstd::slice::slice_to_vec;
use crate::decode::{encoding_of, NoteEncoding};
use crate::record::{A_CURSOR, A_NOTE, A_SIBFOLLOWS, EOF_BYTE, M_COLLAPSED, M_EXPANDED, TERMINATOR};
use crate::render::{forest_height, lemma_height_bound, node_height};
use crate::text::chars_of;
use crate::tree::{forest_view, lemma_forest_view, node_view, Node, Outline};
use vstd::utf8::encode_utf8;

verus! {

/// The byte that a heading character is written as: its code point below
/// 0x80, else `?`.
pub open spec fn heading_byte(c: char) -> u8 {
    if (c as u32) < 0x80 {
        (c as u32) as u8
    } else {
        0x3f
    }
}

/// The bytes of a heading.
pub open spec fn heading_bytes(t: Seq<char>) -> Seq<u8> {
    t.map_values(|c: char| heading_byte(c))
}

/// Encodes a heading, one byte per character; characters outside 7-bit
/// range become `?`.
pub fn encode_heading_from_text(text: &str) -> (v: Vec<u8>)
    ensures
        v@ == heading_bytes(text@),
{
    let cs = chars_of(text);
    let mut v: Vec<u8> = Vec::new();
    let mut i: usize = 0;
    while i < cs.len()
        invariant
            i <= cs@.len(),
            cs@ == text@,
            v@ == heading_bytes(text@.take(i as int)),
        decreases cs@.len() - i,
    {
        let c = cs[i];
        let b: u8 = if (c as u32) < 0x80 { (c as u32) as u8 } else { 0x3f };
        v.push(b);
        i = i + 1;
        assert(v@ =~= heading_bytes(text@.take(i as int)));
    }
    assert(text@.take(i as int) =~= text@);
    v
}

/// The byte that a note character is written as in Latin-1: its code point
/// up to 0xFF, else `?`.
pub open spec fn latin1_byte(c: char) -> u8 {
    if (c as u32) <= 0xff {
        (c as u32) as u8
    } else {
        0x3f
    }
}

/// The bytes of a note under an encoding.
pub open spec fn note_bytes(t: Seq<char>, enc: NoteEncoding) -> Seq<u8> {
    match enc {
        NoteEncoding::Utf8 => encode_utf8(t),
        NoteEncoding::Latin1 => t.map_values(|c: char| latin1_byte(c)),
        NoteEncoding::Ascii => encode_utf8(t).map_values(|b: u8| b & 0x7f),
    }
}

fn encode_note_with(note: &str, enc: NoteEncoding) -> (v: Vec<u8>)
    ensures
        v@ == note_bytes(note@, enc),
{
    match enc {
        NoteEncoding::Utf8 => slice_to_vec(note.as_bytes()),
        NoteEncoding::Latin1 => {
            let cs = chars_of(note);
            let mut v: Vec<u8> = Vec::new();
            let mut i: usize = 0;
            while i < cs.len()
                invariant
                    i <= cs@.len(),
                    cs@ == note@,
                    v@ =~= note@.take(i as int).map_values(|c: char| latin1_byte(c)),
                decreases cs@.len() - i,
            {
                let c = cs[i];
                v.push(if (c as u32) <= 0xff { (c as u32) as u8 } else { 0x3f });
                i = i + 1;
            }
            assert(note@.take(i as int) =~= note@);
            v
        },
        NoteEncoding::Ascii => {
            let bs = note.as_bytes();
            let mut v: Vec<u8> = Vec::new();
            let mut i: usize = 0;
            while i < bs.len()
                invariant
                    i <= bs@.len(),
                    bs@ == encode_utf8(note@),
                    v@ =~= bs@.take(i as int).map_values(|b: u8| b & 0x7f),
                decreases bs@.len() - i,
            {
                v.push(bs[i] & 0x7f);
                i = i + 1;
            }
            assert(bs@.take(i as int) =~= bs@);
            v
        },
    }
}

/// Encodes a note under the encoding that `enc` names.
pub fn encode_note_bytes(note: &str, enc: &str) -> (v: Vec<u8>)
    ensures
        v@ == note_bytes(note@, encoding_of(enc@)),
{
    encode_note_with(note, NoteEncoding::from_name(enc))
}

/// Whether a forest holds a real node once synthetic nodes are spliced out.
pub open spec fn has_real(ns: Seq<Outline>) -> bool
    decreases ns,
{
    if ns.len() == 0 {
        false
    } else {
        node_has_real(ns[0]) || has_real(ns.drop_first())
    }
}

/// Whether a node is real or holds a real node below synthetic ones.
pub open spec fn node_has_real(n: Outline) -> bool
    decreases n,
{
    !n.synthetic || has_real(n.children)
}

/// One real node as the encoder lays it out: its level, attribute byte,
/// first marker byte, heading bytes and note bytes.
pub ghost struct FlatEntry {
    pub level: nat,
    pub attr: u8,
    pub marker_first: u8,
    pub text: Seq<u8>,
    pub note: Option<Seq<u8>>,
}

/// The attribute byte of a real node: the note bit for a note, the caret
/// bit when selected, the sibling bit when a real peer follows.
pub open spec fn entry_attr(n: Outline, later: bool) -> u8 {
    (if n.note is Some { A_NOTE } else { 0u8 }) | (if n.flags.selected { A_CURSOR } else { 0u8 })
        | (if later { A_SIBFOLLOWS } else { 0u8 })
}

/// The entry of a real node at `level`.
pub open spec fn flat_entry(n: Outline, level: nat, later: bool, enc: NoteEncoding) -> FlatEntry {
    FlatEntry {
        level,
        attr: entry_attr(n, later),
        marker_first: if n.collapsed { M_COLLAPSED } else { M_EXPANDED },
        text: heading_bytes(n.text),
        note: match n.note {
            Some(t) => Some(note_bytes(t, enc)),
            None => None,
        },
    }
}

/// The entries of a forest in depth-first order, synthetic nodes spliced
/// into their parent's level; `later` says whether a real peer follows the
/// forest at its level.
pub open spec fn flat_forest(ns: Seq<Outline>, level: nat, later: bool, enc: NoteEncoding) -> Seq<
    FlatEntry,
>
    decreases ns,
{
    if ns.len() == 0 {
        Seq::empty()
    } else {
        flat_node(ns[0], level, later || has_real(ns.drop_first()), enc) + flat_forest(
            ns.drop_first(),
            level,
            later,
            enc,
        )
    }
}

/// The entries of one node and its descendants.
pub open spec fn flat_node(n: Outline, level: nat, later: bool, enc: NoteEncoding) -> Seq<
    FlatEntry,
>
    decreases n,
{
    if n.synthetic {
        flat_forest(n.children, level, later, enc)
    } else {
        seq![flat_entry(n, level, later, enc)] + flat_forest(n.children, level + 1, false, enc)
    }
}

/// The two little-endian bytes of a 16-bit word.
pub open spec fn le_bytes(u: u16) -> Seq<u8> {
    seq![(u % 256) as u8, (u / 256) as u8]
}

/// The note part of an entry: the length (at most 0xFFFF) and that many
/// note bytes.
pub open spec fn note_part(note: Option<Seq<u8>>) -> Seq<u8> {
    match note {
        Some(b) => {
            let n = if b.len() > 0xffff { 0xffffnat } else { b.len() };
            le_bytes(n as u16) + b.take(n as int)
        },
        None => Seq::empty(),
    }
}

/// The bytes of one entry after an entry at level `prev`.
pub open spec fn entry_bytes(e: FlatEntry, prev: nat) -> Seq<u8> {
    e.text + seq![TERMINATOR, e.attr, e.marker_first, TERMINATOR] + le_bytes(
        (e.level - prev) as i16 as u16,
    ) + note_part(e.note)
}

/// The bytes of the first `n` entries, the first after level zero.
pub open spec fn entries_bytes(es: Seq<FlatEntry>, n: nat) -> Seq<u8>
    decreases n,
{
    if n == 0 || n > es.len() {
        Seq::empty()
    } else {
        entries_bytes(es, (n - 1) as nat) + entry_bytes(
            es[n - 1],
            if n == 1 { 0 } else { es[n - 2].level },
        )
    }
}

/// The magic prefix and the preamble.
pub open spec fn file_head() -> Seq<u8> {
    seq![0x1au8, 0x93, 0x1a, 0xff, 0x00, 0xff, 0xff, 0xff, 0xff]
}

/// The document that encodes a forest.
pub open spec fn serialize(ns: Seq<Outline>, enc: NoteEncoding) -> Seq<u8> {
    let es = flat_forest(ns, 0, false, enc);
    file_head() + entries_bytes(es, es.len()) + seq![EOF_BYTE]
}

struct Flat {
    level: usize,
    attr: u8,
    marker_first: u8,
    text: Vec<u8>,
    note: Option<Vec<u8>>,
}

spec fn flat_view(f: Flat) -> FlatEntry {
    FlatEntry {
        level: f.level as nat,
        attr: f.attr,
        marker_first: f.marker_first,
        text: f.text@,
        note: match f.note {
            Some(b) => Some(b@),
            None => None,
        },
    }
}

spec fn flats_view(fs: Seq<Flat>) -> Seq<FlatEntry> {
    fs.map_values(|f: Flat| flat_view(f))
}

fn forest_has_real(nodes: &[Node]) -> (r: bool)
    ensures
        r == has_real(forest_view(nodes@)),
    decreases nodes@,
{
    let ghost fv = forest_view(nodes@);
    proof {
        lemma_forest_view(nodes@);
    }
    let mut i: usize = nodes.len();
    while i > 0
        invariant
            i <= nodes@.len(),
            fv == forest_view(nodes@),
            fv.len() == nodes@.len(),
            forall|j: int| 0 <= j < nodes@.len() ==> #[trigger] fv[j] == node_view(nodes@[j]),
            !has_real(fv.skip(i as int)),
        decreases i,
    {
        let n = &nodes[i - 1];
        proof {
            assert(decreases_to!(nodes@ => nodes@[i - 1]));
        }
        assert(fv.skip(i - 1).drop_first() =~= fv.skip(i as int));
        if !n.synthetic || forest_has_real(n.children.as_slice()) {
            assert(node_has_real(fv[i - 1]));
            proof {
                lemma_has_real_suffix(fv, i - 1);
            }
            return true;
        }
        assert(!node_has_real(fv[i - 1]));
        assert(fv.skip(i - 1)[0] == fv[i - 1]);
        assert(!has_real(fv.skip(i - 1)));
        i = i - 1;
    }
    assert(fv.skip(0) =~= fv);
    false
}

proof fn lemma_has_real_suffix(ns: Seq<Outline>, i: int)
    requires
        0 <= i < ns.len(),
        node_has_real(ns[i]),
    ensures
        has_real(ns),
    decreases i,
{
    if i > 0 {
        lemma_has_real_suffix(ns.drop_first(), i - 1);
    }
}

fn flat_of(n: &Node, level: usize, later: bool, enc: NoteEncoding) -> (f: Flat)
    ensures
        flat_view(f) == flat_entry(node_view(*n), level as nat, later, enc),
{
    let attr: u8 = (if n.note.is_some() { A_NOTE } else { 0u8 }) | (if n.flags.selected {
        A_CURSOR
    } else {
        0u8
    }) | (if later { A_SIBFOLLOWS } else { 0u8 });
    let note = match &n.note {
        Some(t) => Some(encode_note_with(t.as_str(), enc)),
        None => None,
    };
    Flat {
        level,
        attr,
        marker_first: if n.collapsed { M_COLLAPSED } else { M_EXPANDED },
        text: encode_heading_from_text(n.text.as_str()),
        note,
    }
}

proof fn lemma_forest_view_skip(ns: Seq<Node>, i: int)
    requires
        0 <= i <= ns.len(),
    ensures
        forest_view(ns.skip(i)) == forest_view(ns).skip(i),
{
    lemma_forest_view(ns);
    lemma_forest_view(ns.skip(i));
    assert(forest_view(ns.skip(i)) =~= forest_view(ns).skip(i));
}

fn walk_node(n: &Node, level: usize, later: bool, enc: NoteEncoding, out: &mut Vec<Flat>)
    requires
        level + node_height(node_view(*n)) <= usize::MAX,
    ensures
        flats_view(final(out)@) == flats_view(old(out)@) + flat_node(
            node_view(*n),
            level as nat,
            later,
            enc,
        ),
    decreases *n,
{
    if n.synthetic {
        walk(n.children.as_slice(), level, later, enc, out);
    } else {
        let f = flat_of(n, level, later, enc);
        let ghost fv = flat_view(f);
        let ghost o = flats_view(out@);
        out.push(f);
        assert(flats_view(out@) =~= o.push(fv));
        walk(n.children.as_slice(), level + 1, false, enc, out);
        assert(flats_view(out@) =~= flats_view(old(out)@) + flat_node(
            node_view(*n),
            level as nat,
            later,
            enc,
        ));
    }
}

fn walk(nodes: &[Node], level: usize, later: bool, enc: NoteEncoding, out: &mut Vec<Flat>)
    requires
        level + forest_height(forest_view(nodes@)) <= usize::MAX,
    ensures
        flats_view(final(out)@) == flats_view(old(out)@) + flat_forest(
            forest_view(nodes@),
            level as nat,
            later,
            enc,
        ),
    decreases nodes@,
{
    let ghost fv = forest_view(nodes@);
    let ghost target = flats_view(out@) + flat_forest(fv, level as nat, later, enc);
    proof {
        lemma_forest_view(nodes@);
    }
    let mut i: usize = 0;
    assert(fv.skip(0) =~= fv);
    while i < nodes.len()
        invariant
            i <= nodes@.len(),
            fv == forest_view(nodes@),
            fv.len() == nodes@.len(),
            forall|j: int| 0 <= j < nodes@.len() ==> #[trigger] fv[j] == node_view(nodes@[j]),
            level + forest_height(fv) <= usize::MAX,
            target == flats_view(out@) + flat_forest(fv.skip(i as int), level as nat, later, enc),
        decreases nodes@.len() - i,
    {
        let n = &nodes[i];
        proof {
            assert(decreases_to!(nodes@ => nodes@[i as int]));
            lemma_height_bound(fv, i as int);
            lemma_forest_view_skip(nodes@, i + 1);
        }
        let rest = vstd::slice::slice_subrange(nodes, i + 1, nodes.len());
        assert(rest@ =~= nodes@.skip(i + 1));
        let after = later || forest_has_real(rest);
        assert(fv.skip(i as int).drop_first() =~= fv.skip(i + 1));
        assert(fv.skip(i as int)[0] == fv[i as int]);
        let ghost o = flats_view(out@);
        walk_node(n, level, after, enc, out);
        i = i + 1;
        assert(target =~= flats_view(out@) + flat_forest(fv.skip(i as int), level as nat, later, enc));
    }
    assert(flat_forest(fv.skip(i as int), level as nat, later, enc) =~= Seq::<FlatEntry>::empty());
    assert(flats_view(out@) + Seq::<FlatEntry>::empty() =~= flats_view(out@));
}

fn push_bytes(buf: &mut Vec<u8>, src: &Vec<u8>, n: usize)
    requires
        n <= src@.len(),
    ensures
        final(buf)@ == old(buf)@ + src@.take(n as int),
{
    let mut i: usize = 0;
    while i < n
        invariant
            i <= n <= src@.len(),
            buf@ == old(buf)@ + src@.take(i as int),
        decreases n - i,
    {
        buf.push(src[i]);
        i = i + 1;
        assert(buf@ =~= old(buf)@ + src@.take(i as int));
    }
}

fn push_le(buf: &mut Vec<u8>, u: u16)
    ensures
        final(buf)@ == old(buf)@ + le_bytes(u),
{
    buf.push((u % 256) as u8);
    buf.push((u / 256) as u8);
    assert(buf@ =~= old(buf)@ + le_bytes(u));
}

fn push_entry(buf: &mut Vec<u8>, f: &Flat, prev: usize)
    ensures
        final(buf)@ == old(buf)@ + entry_bytes(flat_view(*f), prev as nat),
{
    push_bytes(buf, &f.text, f.text.len());
    assert(f.text@.take(f.text@.len() as int) =~= f.text@);
    buf.push(TERMINATOR);
    buf.push(f.attr);
    buf.push(f.marker_first);
    buf.push(TERMINATOR);
    let delta: i16 = (f.level as i128 - prev as i128) as i16;
    push_le(buf, delta as u16);
    let ghost mid = buf@;
    match &f.note {
        Some(nb) => {
            let n: usize = if nb.len() > 0xffff { 0xffff } else { nb.len() };
            push_le(buf, n as u16);
            push_bytes(buf, nb, n);
        },
        None => {},
    }
    assert(buf@ =~= mid + note_part(flat_view(*f).note));
    assert(buf@ =~= old(buf)@ + entry_bytes(flat_view(*f), prev as nat));
}

/// Encodes a forest as a document: magic and preamble, one record per real
/// node in depth-first order with synthetic nodes spliced into their
/// parent's level, and a closing control byte.
pub fn serialize_tree_to_otl(nodes: &[Node], note_enc: &str) -> (v: Vec<u8>)
    requires
        forest_height(forest_view(nodes@)) <= usize::MAX,
    ensures
        v@ == serialize(forest_view(nodes@), encoding_of(note_enc@)),
{
    let enc = NoteEncoding::from_name(note_enc);
    let mut flats: Vec<Flat> = Vec::new();
    walk(nodes, 0, false, enc, &mut flats);
    let ghost es = flat_forest(forest_view(nodes@), 0, false, enc);
    assert(flats_view(flats@) =~= es);
    let mut buf: Vec<u8> = Vec::new();
    buf.push(0x1a);
    buf.push(0x93);
    buf.push(0x1a);
    buf.push(0xff);
    buf.push(0x00);
    buf.push(0xff);
    buf.push(0xff);
    buf.push(0xff);
    buf.push(0xff);
    assert(buf@ =~= file_head() + entries_bytes(es, 0));
    let mut prev: usize = 0;
    let mut i: usize = 0;
    while i < flats.len()
        invariant
            i <= flats@.len(),
            flats_view(flats@) == es,
            buf@ == file_head() + entries_bytes(es, i as nat),
            prev as nat == if i == 0 { 0 } else { es[i - 1].level },
        decreases flats@.len() - i,
    {
        let f = &flats[i];
        assert(flat_view(*f) == es[i as int]);
        push_entry(&mut buf, f, prev);
        prev = f.level;
        i = i + 1;
        assert(buf@ =~= file_head() + entries_bytes(es, i as nat));
    }
    buf.push(EOF_BYTE);
    buf
}

} // verus!
