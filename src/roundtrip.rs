//! Why re-encoding is faithful: decoding the encoder's bytes gives back the
//! records that the encoder laid out, and the tree rebuilt from them
//! renders like the tree that was encoded.
use vstd::prelude::*;
use vstd::utf8::encode_utf8;
use crate::decode::{
    at_end_sentinel, body_start, decode, decode_from, decode_step, find_terminator, has_magic,
    has_preamble, heading_text, le16, marker_ok, note_text, prepend, NoteEncoding, Step,
    MAX_TEXTLEN,
};
use crate::encode::{
    entries_bytes, entry_attr, entry_bytes, file_head, flat_entry, flat_forest, flat_node,
    has_real, heading_bytes, latin1_byte, le_bytes, note_bytes, note_part, serialize, FlatEntry,
};
use crate::record::{
    RecModel, A_CURSOR, A_NOTE, A_SIBFOLLOWS, EOF_BYTE, M_COLLAPSED, M_EXPANDED, TERMINATOR,
};
use crate::render::{plain_forest, plain_node};
use crate::text::{note_lines, repeat};
use crate::tree::{
    append_at, build_forest, build_start, build_upto, clamp0, fill_to, filler, level_after,
    node_at, push_at_path, rec_node, BuildState, Outline,
};

verus! {

/// Whether an entry comes back unchanged through its bytes: heading bytes
/// below 0x80 and not too long, an attribute byte other than 0xFF whose
/// note bit says whether a note follows, a known marker, a note that fits
/// its length field, and a level step that fits a 16-bit delta.
pub open spec fn entry_ok(e: FlatEntry, prev: nat) -> bool {
    &&& forall|i: int| 0 <= i < e.text.len() ==> #[trigger] e.text[i] < 0x80
    &&& e.text.len() <= MAX_TEXTLEN
    &&& e.attr != 0xff
    &&& (e.attr & A_NOTE != 0) == (e.note is Some)
    &&& (e.marker_first == M_EXPANDED || e.marker_first == M_COLLAPSED)
    &&& (e.note matches Some(b) ==> b.len() <= 0xffff)
    &&& -32768 <= e.level - prev <= 32767
}

/// Whether a decoded record carries what an entry laid out.
pub open spec fn entry_decodes(r: RecModel, e: FlatEntry, prev: nat, enc: NoteEncoding) -> bool {
    &&& r.text == heading_text(e.text)
    &&& r.delta as int == e.level - prev
    &&& r.attr == e.attr
    &&& r.collapsed == (e.marker_first == M_COLLAPSED)
    &&& r.note == match e.note {
        Some(b) => Some(note_text(b, enc)),
        None => None,
    }
}

proof fn lemma_le16(u: u16)
    ensures
        le16(le_bytes(u)[0], le_bytes(u)[1]) == u,
{
}

proof fn lemma_delta_cast(d: int)
    requires
        -32768 <= d <= 32767,
    ensures
        ((d as i16) as u16) as i16 == d,
{
    let x = d as i16;
    assert(x == d);
    assert((x as u16) as i16 == x) by (bit_vector);
}

proof fn lemma_decode_entry(buf: Seq<u8>, pos: int, e: FlatEntry, prev: nat, enc: NoteEncoding)
    requires
        entry_ok(e, prev),
        0 <= pos,
        pos + entry_bytes(e, prev).len() < buf.len(),
        buf.subrange(pos, pos + entry_bytes(e, prev).len()) == entry_bytes(e, prev),
    ensures
        decode_step(buf, pos, enc) matches Step::Emit(r, j) && j == pos + entry_bytes(
            e,
            prev,
        ).len() && entry_decodes(r, e, prev, enc),
{
    reveal(decode_step);
    let eb = entry_bytes(e, prev);
    let t = e.text.len() as int;
    let k = pos + t;
    let u = (e.level - prev) as i16 as u16;
    assert forall|i: int| 0 <= i < eb.len() implies buf[pos + i] == eb[i] by {
        assert(buf.subrange(pos, pos + eb.len())[i] == buf[pos + i]);
    }
    assert forall|i: int| 0 <= i < t implies buf[pos + i] == e.text[i] by {
        assert(eb[i] == e.text[i]);
    }
    assert forall|j: int| pos <= j < k implies buf[j] != TERMINATOR by {
        assert(buf[pos + (j - pos)] == e.text[j - pos]);
    }
    assert(eb[t] == TERMINATOR);
    assert(buf[k] == TERMINATOR);
    crate::decode::lemma_find_terminator_pub(buf, pos, k);
    assert(find_terminator(buf, k) == k);
    assert(buf[k + 1] == e.attr) by {
        assert(eb[t + 1] == e.attr);
    }
    assert(buf[k + 2] == e.marker_first) by {
        assert(eb[t + 2] == e.marker_first);
    }
    assert(buf[k + 3] == TERMINATOR) by {
        assert(eb[t + 3] == TERMINATOR);
    }
    assert(buf[k + 4] == le_bytes(u)[0]) by {
        assert(eb[t + 4] == le_bytes(u)[0]);
    }
    assert(buf[k + 5] == le_bytes(u)[1]) by {
        assert(eb[t + 5] == le_bytes(u)[1]);
    }
    lemma_le16(u);
    lemma_delta_cast(e.level - prev);
    assert(le16(buf[k + 4], buf[k + 5]) as i16 == e.level - prev);
    assert(!at_end_sentinel(buf, pos)) by {
        if t > 0 {
            assert(buf[pos] == e.text[0]);
        } else {
            assert(buf[pos + 1] == e.attr);
        }
    }
    assert(buf.subrange(pos, k) =~= e.text);
    match e.note {
        Some(b) => {
            let n = b.len() as int;
            assert(note_part(e.note) =~= le_bytes(n as u16) + b);
            assert(buf[k + 6] == le_bytes(n as u16)[0]) by {
                assert(eb[t + 6] == le_bytes(n as u16)[0]);
            }
            assert(buf[k + 7] == le_bytes(n as u16)[1]) by {
                assert(eb[t + 7] == le_bytes(n as u16)[1]);
            }
            lemma_le16(n as u16);
            assert(eb.len() == t + 8 + n);
            assert(buf.subrange(k + 8, k + 8 + n) =~= b) by {
                assert forall|i: int| 0 <= i < n implies buf.subrange(k + 8, k + 8 + n)[i]
                    == b[i] by {
                    assert(eb[t + 8 + i] == b[i]);
                    assert(buf[pos + (t + 8 + i)] == eb[t + 8 + i]);
                }
            }
            assert(le16(buf[k + 6], buf[k + 7]) as int == n);
            assert(k + 8 + n <= buf.len());
            assert(buf[k + 1] & A_NOTE != 0);
            assert(marker_ok(buf, k));
            let st = decode_step(buf, pos, enc);
            assert(st == Step::Emit(
                crate::decode::record_at(buf, pos, k, Some((k + 8, n)), enc),
                k + 8 + n,
            ));

        },
        None => {
            assert(eb.len() == t + 6);
        },
    }
}

/// The level before entry `i`: zero for the first.
pub open spec fn prev_level(es: Seq<FlatEntry>, i: int) -> nat {
    if i <= 0 {
        0
    } else {
        es[i - 1].level
    }
}

/// Whether every entry comes back unchanged through its bytes.
pub open spec fn entries_ok(es: Seq<FlatEntry>) -> bool {
    forall|i: int| 0 <= i < es.len() ==> entry_ok(#[trigger] es[i], prev_level(es, i))
}

/// The document bytes of a sequence of entries.
pub open spec fn encoded(es: Seq<FlatEntry>) -> Seq<u8> {
    file_head() + entries_bytes(es, es.len()) + seq![EOF_BYTE]
}

proof fn lemma_entries_prefix(es: Seq<FlatEntry>, j: nat, n: nat)
    requires
        j <= n <= es.len(),
    ensures
        entries_bytes(es, j).len() <= entries_bytes(es, n).len(),
        entries_bytes(es, n).subrange(0, entries_bytes(es, j).len() as int) == entries_bytes(es, j),
    decreases n,
{
    if j < n {
        lemma_entries_prefix(es, j, (n - 1) as nat);
        let a = entries_bytes(es, (n - 1) as nat);
        let b = entries_bytes(es, n);
        let m = entries_bytes(es, j).len() as int;
        assert(b.subrange(0, m) =~= a.subrange(0, m));
    } else {
        assert(entries_bytes(es, n).subrange(0, entries_bytes(es, n).len() as int)
            =~= entries_bytes(es, n));
    }
}

#[verifier::rlimit(40)]
proof fn lemma_decode_entries(es: Seq<FlatEntry>, enc: NoteEncoding, j: nat)
    requires
        entries_ok(es),
        j <= es.len(),
    ensures
        decode_from(encoded(es), 9 + entries_bytes(es, j).len() as int, enc) matches Ok(rs) && rs.len()
            == es.len() - j && forall|m: int|
            0 <= m < rs.len() ==> entry_decodes(
                #[trigger] rs[m],
                es[j + m],
                prev_level(es, j + m),
                enc,
            ),
    decreases es.len() - j,
{
    let buf = encoded(es);
    let all = entries_bytes(es, es.len());
    let pos = 9 + entries_bytes(es, j).len() as int;
    lemma_entries_prefix(es, j, es.len());
    if j == es.len() {
        reveal(decode_step);
        assert(buf[pos] == EOF_BYTE);
        assert(at_end_sentinel(buf, pos));
        assert(decode_from(buf, pos, enc) == Ok::<Seq<RecModel>, crate::decode::DecodeError>(
            Seq::empty(),
        ));
    } else {
        let e = es[j as int];
        let prev = prev_level(es, j as int);
        let eb = entry_bytes(e, prev);
        lemma_entries_prefix(es, j + 1, es.len());
        let before = entries_bytes(es, j);
        let upto = entries_bytes(es, j + 1);
        assert(upto == before + eb);
        assert(buf.subrange(pos, pos + eb.len() as int) =~= eb) by {
            assert forall|i: int| 0 <= i < eb.len() implies buf.subrange(pos, pos + eb.len() as int)[i]
                == eb[i] by {
                assert(buf[pos + i] == all[before.len() + i]);
                assert(all.subrange(0, upto.len() as int)[before.len() + i] == upto[before.len()
                    + i]);
            }
        }
        assert(entry_ok(e, prev));
        lemma_decode_entry(buf, pos, e, prev, enc);
        lemma_decode_entries(es, enc, j + 1);
        let next = 9 + upto.len() as int;
        assert(pos + eb.len() == next);
        match decode_step(buf, pos, enc) {
            Step::Emit(r, jj) => {
                let rest = decode_from(buf, next, enc);
                assert(decode_from(buf, pos, enc) == prepend(seq![r], rest));
                match rest {
                    Ok(rs) => {
                        let all_rs = seq![r] + rs;
                        assert forall|m: int| 0 <= m < all_rs.len() implies entry_decodes(
                            #[trigger] all_rs[m],
                            es[j + m],
                            prev_level(es, j + m),
                            enc,
                        ) by {
                            if m > 0 {
                                assert(all_rs[m] == rs[m - 1]);
                                assert(j + m == (j + 1) + (m - 1));
                            }
                        }
                    },
                    Err(_) => {},
                }
            },
            _ => {},
        }
    }
}

/// Decoding the bytes that the encoder writes for a sequence of entries
/// gives one record per entry, in order, each carrying its entry's heading,
/// level step, attribute byte, marker and note.
pub proof fn lemma_decode_encoded(es: Seq<FlatEntry>, enc: NoteEncoding)
    requires
        entries_ok(es),
    ensures
        decode(encoded(es), enc) matches Ok(rs) && rs.len() == es.len() && forall|i: int|
            0 <= i < rs.len() ==> entry_decodes(#[trigger] rs[i], es[i], prev_level(es, i), enc),
{
    let buf = encoded(es);
    assert(has_magic(buf));
    assert(has_preamble(buf, 3));
    assert(body_start(buf) == 9);
    assert(entries_bytes(es, 0).len() == 0);
    lemma_decode_entries(es, enc, 0);

}

/// A node without its children.
pub open spec fn strip(n: Outline) -> Outline {
    Outline { children: Seq::empty(), ..n }
}

/// A real node, without its children, and its depth.
pub ghost struct Placed {
    pub depth: nat,
    pub node: Outline,
}

/// The real nodes of a forest at `d`, in depth-first order, each at the
/// number of real ancestors it has (plus `d`); synthetic nodes add no
/// level.
pub open spec fn preorder(ns: Seq<Outline>, d: nat) -> Seq<Placed>
    decreases ns,
{
    if ns.len() == 0 {
        Seq::empty()
    } else {
        preorder(ns.drop_last(), d) + preorder_node(ns.last(), d)
    }
}

/// The real nodes of one node's subtree at `d`, in depth-first order.
pub open spec fn preorder_node(n: Outline, d: nat) -> Seq<Placed>
    decreases n,
{
    if n.synthetic {
        preorder(n.children, d)
    } else {
        seq![Placed { depth: d, node: strip(n) }] + preorder(n.children, d + 1)
    }
}

/// The PlainAll line of one placed node, with its note lines.
pub open spec fn plain_line(p: Placed) -> Seq<char> {
    repeat(' ', 2 * p.depth) + p.node.text + seq!['\n'] + match p.node.note {
        Some(t) => note_lines(t, repeat(' ', 2 * (p.depth + 1))),
        None => Seq::empty(),
    }
}

/// The PlainAll lines of placed nodes, in order.
pub open spec fn plain_lines(ps: Seq<Placed>) -> Seq<char>
    decreases ps.len(),
{
    if ps.len() == 0 {
        Seq::empty()
    } else {
        plain_lines(ps.drop_last()) + plain_line(ps.last())
    }
}

proof fn lemma_plain_lines_append(a: Seq<Placed>, b: Seq<Placed>)
    ensures
        plain_lines(a + b) == plain_lines(a) + plain_lines(b),
    decreases b.len(),
{
    if b.len() == 0 {
        assert(a + b =~= a);
        assert(plain_lines(a) + Seq::<char>::empty() =~= plain_lines(a));
    } else {
        lemma_plain_lines_append(a, b.drop_last());
        assert((a + b).drop_last() =~= a + b.drop_last());
        assert(plain_lines(a + b) =~= plain_lines(a) + plain_lines(b));
    }
}

proof fn lemma_plain_forest(ns: Seq<Outline>, d: nat)
    ensures
        plain_forest(ns, d) == plain_lines(preorder(ns, d)),
    decreases ns,
{
    if ns.len() > 0 {
        lemma_plain_forest(ns.drop_last(), d);
        lemma_plain_node(ns.last(), d);
        lemma_plain_lines_append(preorder(ns.drop_last(), d), preorder_node(ns.last(), d));
    }
}

proof fn lemma_plain_node(n: Outline, d: nat)
    ensures
        plain_node(n, d) == plain_lines(preorder_node(n, d)),
    decreases n,
{
    if n.synthetic {
        lemma_plain_forest(n.children, d);
    } else {
        lemma_plain_forest(n.children, d + 1);
        let head = seq![Placed { depth: d, node: strip(n) }];
        lemma_plain_lines_append(head, preorder(n.children, d + 1));
        assert(head.drop_last() =~= Seq::<Placed>::empty());
        assert(plain_lines(head.drop_last()) == Seq::<char>::empty());
        assert(plain_lines(head) =~= plain_line(head[0]));
        assert(plain_node(n, d) =~= plain_lines(preorder_node(n, d)));
    }
}

/// Whether placed nodes start at depth `d`, never go above it, and go at
/// most one level deeper from one to the next.
pub open spec fn nested(ps: Seq<Placed>, d: nat) -> bool {
    &&& (ps.len() > 0 ==> ps[0].depth == d)
    &&& forall|i: int| 0 <= i < ps.len() ==> #[trigger] ps[i].depth >= d
    &&& forall|i: int| 0 <= i < ps.len() - 1 ==> #[trigger] ps[i + 1].depth <= ps[i].depth + 1
}

proof fn lemma_nested_append(a: Seq<Placed>, b: Seq<Placed>, d: nat)
    requires
        nested(a, d),
        nested(b, d),
    ensures
        nested(a + b, d),
{
    let c = a + b;
    assert forall|i: int| 0 <= i < c.len() - 1 implies #[trigger] c[i + 1].depth <= c[i].depth
        + 1 by {
        if i + 1 < a.len() {
            assert(c[i + 1] == a[i + 1]);
            assert(c[i] == a[i]);
        } else if i + 1 == a.len() {
            assert(c[i + 1] == b[0]);
            assert(c[i] == a[i]);
            assert(a[i].depth >= d);
        } else {
            let k = i - a.len();
            assert(c[i + 1] == b[k + 1]);
            assert(c[i] == b[k]);
            assert(b[k + 1].depth <= b[k].depth + 1);
        }
    }
    assert forall|i: int| 0 <= i < c.len() implies #[trigger] c[i].depth >= d by {
        if i >= a.len() {
            assert(c[i] == b[i - a.len()]);
        }
    }
}

proof fn lemma_nested_forest(ns: Seq<Outline>, d: nat)
    ensures
        nested(preorder(ns, d), d),
    decreases ns,
{
    if ns.len() > 0 {
        lemma_nested_forest(ns.drop_last(), d);
        lemma_nested_node(ns.last(), d);
        lemma_nested_append(preorder(ns.drop_last(), d), preorder_node(ns.last(), d), d);
    }
}

proof fn lemma_nested_node(n: Outline, d: nat)
    ensures
        nested(preorder_node(n, d), d),
    decreases n,
{
    if n.synthetic {
        lemma_nested_forest(n.children, d);
    } else {
        lemma_nested_forest(n.children, d + 1);
        let head = seq![Placed { depth: d, node: strip(n) }];
        let tail = preorder(n.children, d + 1);
        let c = head + tail;
        assert forall|i: int| 0 <= i < c.len() - 1 implies #[trigger] c[i + 1].depth
            <= c[i].depth + 1 by {
            assert(c[i + 1] == tail[i]);
            if i > 0 {
                assert(c[i] == tail[i - 1]);
                assert(tail[(i - 1) + 1].depth <= tail[i - 1].depth + 1);
            } else {
                assert(tail[0].depth == d + 1);
            }
        }
        assert forall|i: int| 0 <= i < c.len() implies #[trigger] c[i].depth >= d by {
            if i > 0 {
                assert(c[i] == tail[i - 1]);
            }
        }
    }
}

proof fn lemma_preorder_append(a: Seq<Outline>, b: Seq<Outline>, d: nat)
    ensures
        preorder(a + b, d) == preorder(a, d) + preorder(b, d),
    decreases b.len(),
{
    if b.len() == 0 {
        assert(a + b =~= a);
        assert(preorder(a, d) + Seq::<Placed>::empty() =~= preorder(a, d));
    } else {
        lemma_preorder_append(a, b.drop_last(), d);
        assert((a + b).drop_last() =~= a + b.drop_last());
        assert((a + b).last() == b.last());
        assert(preorder(a + b, d) =~= preorder(a, d) + preorder(b, d));
    }
}

proof fn lemma_preorder_front(ns: Seq<Outline>, d: nat)
    requires
        ns.len() > 0,
    ensures
        preorder(ns, d) == preorder_node(ns[0], d) + preorder(ns.drop_first(), d),
{
    let head = seq![ns[0]];
    assert(ns =~= head + ns.drop_first());
    lemma_preorder_append(head, ns.drop_first(), d);
    assert(head.drop_last() =~= Seq::<Outline>::empty());
    assert(preorder(head.drop_last(), d) == Seq::<Placed>::empty());
    assert(head.last() == ns[0]);
    assert(preorder(head, d) =~= preorder_node(ns[0], d));
}

/// Whether an encoder entry lays out a placed node: same level, heading
/// and note bytes, marker, and an attribute byte other than 0xFF whose note
/// bit says whether a note is present.
pub open spec fn entry_of(e: FlatEntry, p: Placed, enc: NoteEncoding) -> bool {
    &&& e.level == p.depth
    &&& e.text == heading_bytes(p.node.text)
    &&& e.note == match p.node.note {
        Some(t) => Some(note_bytes(t, enc)),
        None => None,
    }
    &&& e.marker_first == if p.node.collapsed { M_COLLAPSED } else { M_EXPANDED }
    &&& e.attr != 0xff
    &&& (e.attr & A_NOTE != 0) == (e.note is Some)
}

proof fn lemma_attr_bits(n: Outline, later: bool)
    ensures
        entry_attr(n, later) != 0xff,
        (entry_attr(n, later) & A_NOTE != 0) == (n.note is Some),
{
    let a: u8 = if n.note is Some { A_NOTE } else { 0u8 };
    let b: u8 = if n.flags.selected { A_CURSOR } else { 0u8 };
    let c: u8 = if later { A_SIBFOLLOWS } else { 0u8 };
    assert((a | b | c) != 0xff && ((a | b | c) & 0x80 != 0) == (a == 0x80)) by (bit_vector)
        requires
            a == 0 || a == 0x80,
            b == 0 || b == 0x20,
            c == 0 || c == 0x08,
    ;
}

/// Whether entries lay out placed nodes one for one.
pub open spec fn entries_of(es: Seq<FlatEntry>, ps: Seq<Placed>, enc: NoteEncoding) -> bool {
    es.len() == ps.len() && forall|i: int| 0 <= i < es.len() ==> entry_of(#[trigger] es[i], ps[i], enc)
}

proof fn lemma_entries_of_append(
    a: Seq<FlatEntry>,
    b: Seq<FlatEntry>,
    p: Seq<Placed>,
    q: Seq<Placed>,
    enc: NoteEncoding,
)
    requires
        entries_of(a, p, enc),
        entries_of(b, q, enc),
    ensures
        entries_of(a + b, p + q, enc),
{
    assert forall|i: int| 0 <= i < (a + b).len() implies entry_of(#[trigger] (a + b)[i], (p + q)[i], enc) by {
        if i >= a.len() {
            assert((a + b)[i] == b[i - a.len()]);
            assert((p + q)[i] == q[i - a.len()]);
        } else {
            assert((a + b)[i] == a[i]);
            assert((p + q)[i] == p[i]);
        }
    }
}

proof fn lemma_flat_forest(ns: Seq<Outline>, level: nat, later: bool, enc: NoteEncoding)
    ensures
        entries_of(flat_forest(ns, level, later, enc), preorder(ns, level), enc),
    decreases ns,
{
    if ns.len() == 0 {
    } else {
        lemma_preorder_front(ns, level);
        assert(decreases_to!(ns => ns[0]));
        lemma_flat_node(ns[0], level, later || has_real(ns.drop_first()), enc);
        lemma_flat_forest(ns.drop_first(), level, later, enc);
        lemma_entries_of_append(
            flat_node(ns[0], level, later || has_real(ns.drop_first()), enc),
            flat_forest(ns.drop_first(), level, later, enc),
            preorder_node(ns[0], level),
            preorder(ns.drop_first(), level),
            enc,
        );
    }
}

proof fn lemma_flat_node(n: Outline, level: nat, later: bool, enc: NoteEncoding)
    ensures
        entries_of(flat_node(n, level, later, enc), preorder_node(n, level), enc),
    decreases n,
{
    if n.synthetic {
        lemma_flat_forest(n.children, level, later, enc);
    } else {
        lemma_flat_forest(n.children, level + 1, false, enc);
        lemma_attr_bits(n, later);
        let e = seq![flat_entry(n, level, later, enc)];
        let p = seq![Placed { depth: level, node: strip(n) }];
        assert(entries_of(e, p, enc));
        lemma_entries_of_append(
            e,
            flat_forest(n.children, level + 1, false, enc),
            p,
            preorder(n.children, level + 1),
            enc,
        );
    }
}

/// Whether `p` follows the last child at every step down from `t`.
pub open spec fn spine(t: Outline, p: Seq<nat>) -> bool
    decreases p.len(),
{
    p.len() == 0 || (t.children.len() > 0 && p[0] == t.children.len() - 1 && spine(
        t.children[p[0] as int],
        p.drop_first(),
    ))
}

/// How many real nodes `p` passes through below `t`.
pub open spec fn real_count(t: Outline, p: Seq<nat>) -> nat
    decreases p.len(),
{
    if p.len() == 0 || p[0] >= t.children.len() {
        0
    } else {
        (if t.children[p[0] as int].synthetic { 0nat } else { 1nat }) + real_count(
            t.children[p[0] as int],
            p.drop_first(),
        )
    }
}

/// Whether every node that `p` passes through below `t` is real.
pub open spec fn all_real(t: Outline, p: Seq<nat>) -> bool
    decreases p.len(),
{
    p.len() == 0 || (p[0] < t.children.len() && !t.children[p[0] as int].synthetic && all_real(
        t.children[p[0] as int],
        p.drop_first(),
    ))
}

/// The depth of a node's children when the node stands at `d`.
pub open spec fn child_depth(n: Outline, d: nat) -> nat {
    if n.synthetic {
        d
    } else {
        d + 1
    }
}

proof fn lemma_spine_append(n: Outline, p: Seq<nat>, c: Outline, d: nat)
    requires
        spine(n, p),
    ensures
        preorder_node(append_at(n, p, c), d) == preorder_node(n, d) + preorder_node(
            c,
            child_depth(n, d) + real_count(n, p),
        ),
    decreases p.len(),
{
    let a = append_at(n, p, c);
    let cd = child_depth(n, d);
    if p.len() == 0 {
        assert(a.children.drop_last() =~= n.children);
        assert(strip(a) == strip(n));
        assert(preorder(a.children, cd) == preorder(n.children, cd) + preorder_node(c, cd));
        assert(preorder_node(a, d) =~= preorder_node(n, d) + preorder_node(c, cd));
    } else {
        let k = p[0] as int;
        let ch = n.children[k];
        lemma_spine_append(ch, p.drop_first(), c, cd);
        assert(a.children.drop_last() =~= n.children.drop_last());
        assert(a.children.last() == append_at(ch, p.drop_first(), c));
        assert(n.children.last() == ch);
        assert(strip(a) == strip(n));
        assert(preorder_node(a, d) =~= preorder_node(n, d) + preorder_node(
            c,
            child_depth(n, d) + real_count(n, p),
        ));
    }
}

proof fn lemma_spine_push(t: Outline, p: Seq<nat>, c: Outline)
    requires
        spine(t, p),
    ensures
        spine(append_at(t, p, c), p.push(node_at(t, p).children.len())),
        all_real(t, p) && !c.synthetic ==> all_real(
            append_at(t, p, c),
            p.push(node_at(t, p).children.len()),
        ),
    decreases p.len(),
{
    let n = node_at(t, p).children.len();
    let q = p.push(n);
    let a = append_at(t, p, c);
    if p.len() == 0 {
        assert(q.drop_first() =~= Seq::<nat>::empty());
        assert(q[0] == n);
        assert(a.children[n as int] == c);
        assert(a.children.len() == n + 1);
        assert(spine(a.children[n as int], q.drop_first()));
        assert(all_real(a.children[n as int], q.drop_first()));
    } else {
        let k = p[0] as int;
        let ch = t.children[k];
        lemma_spine_push(ch, p.drop_first(), c);
        assert(a.children.len() == t.children.len());
        assert(q.drop_first() =~= p.drop_first().push(n));
        assert(q[0] == p[0]);
        assert(a.children[k] == append_at(ch, p.drop_first(), c));
        assert(node_at(t, p) == node_at(ch, p.drop_first()));
        assert(append_at(ch, p.drop_first(), c).synthetic == ch.synthetic) by {
            crate::tree::lemma_append_synthetic(ch, p.drop_first(), c);
        }
        assert(spine(a.children[k], q.drop_first()));
        if all_real(t, p) && !c.synthetic {
            assert(all_real(a.children[k], q.drop_first()));
        }
    }
}

proof fn lemma_spine_prefix(t: Outline, p: Seq<nat>, k: int)
    requires
        spine(t, p),
        0 <= k <= p.len(),
    ensures
        spine(t, p.take(k)),
        all_real(t, p) ==> all_real(t, p.take(k)),
        all_real(t, p) ==> real_count(t, p.take(k)) == k,
    decreases p.len(),
{
    if k > 0 {
        lemma_spine_prefix(t.children[p[0] as int], p.drop_first(), k - 1);
        assert(p.take(k).drop_first() =~= p.drop_first().take(k - 1));
    }
}

proof fn lemma_fill_preorder(s: BuildState, level: int)
    requires
        spine(s.root, s.path),
    ensures
        spine(fill_to(s, level).root, fill_to(s, level).path),
        preorder_node(fill_to(s, level).root, 0) == preorder_node(s.root, 0),
        fill_to(s, level).root.synthetic == s.root.synthetic,
        fill_to(s, level).level == s.level,
        s.path.len() >= level ==> fill_to(s, level) == s,
    decreases level - s.path.len(),
{
    if s.path.len() < level {
        let s2 = push_at_path(s, filler());
        lemma_spine_push(s.root, s.path, filler());
        lemma_spine_append(s.root, s.path, filler(), 0);
        assert(preorder_node(filler(), child_depth(s.root, 0) + real_count(s.root, s.path))
            =~= Seq::<Placed>::empty());
        assert(preorder_node(s2.root, 0) =~= preorder_node(s.root, 0));
        crate::tree::lemma_append_synthetic(s.root, s.path, filler());
        lemma_fill_preorder(s2, level);
    }
}

proof fn lemma_build_preorder(recs: Seq<RecModel>, n: nat)
    requires
        n <= recs.len(),
    ensures
        spine(build_upto(recs, n).root, build_upto(recs, n).path),
        build_upto(recs, n).root.synthetic,
        preorder_node(build_upto(recs, n).root, 0).len() == n,
        forall|i: int|
            0 <= i < n ==> (#[trigger] preorder_node(build_upto(recs, n).root, 0)[i]).node
                == rec_node(recs[i]),
    decreases n,
{
    if n > 0 {
        lemma_build_preorder(recs, (n - 1) as nat);
        let s = build_upto(recs, (n - 1) as nat);
        let r = recs[n - 1];
        let level = clamp0(s.level + r.delta);
        let cut = BuildState {
            root: s.root,
            path: if s.path.len() > level { s.path.take(level) } else { s.path },
            level,
        };
        if s.path.len() > level {
            lemma_spine_prefix(s.root, s.path, level);
        }
        lemma_fill_preorder(cut, level);
        let f = fill_to(cut, level);
        lemma_spine_push(f.root, f.path, rec_node(r));
        lemma_spine_append(f.root, f.path, rec_node(r), 0);
        crate::tree::lemma_append_synthetic(f.root, f.path, rec_node(r));
        let dd = child_depth(f.root, 0) + real_count(f.root, f.path);
        assert(rec_node(r).children =~= Seq::<Outline>::empty());
        assert(preorder(rec_node(r).children, dd + 1) =~= Seq::<Placed>::empty());
        assert(strip(rec_node(r)) =~= rec_node(r));
        assert(preorder_node(rec_node(r), dd) =~= seq![Placed { depth: dd, node: rec_node(r) }]);
        let old_pre = preorder_node(s.root, 0);
        let new_pre = preorder_node(build_upto(recs, n).root, 0);
        assert(new_pre == old_pre + seq![Placed { depth: dd, node: rec_node(r) }]);
        assert forall|i: int| 0 <= i < n implies (#[trigger] new_pre[i]).node == rec_node(
            recs[i],
        ) by {
            if i < n - 1 {
                assert(new_pre[i] == old_pre[i]);
            }
        }
    }
}

/// Whether each record's level is at most one below the level before it,
/// the first record's level being zero.
pub open spec fn steps_ok(recs: Seq<RecModel>) -> bool {
    forall|i: int|
        0 <= i < recs.len() ==> #[trigger] level_after(recs, (i + 1) as nat) <= if i == 0 {
            0
        } else {
            level_after(recs, i as nat) + 1
        }
}

/// The records' nodes in order, each at its level.
pub open spec fn placed_at_levels(recs: Seq<RecModel>, n: nat) -> Seq<Placed> {
    Seq::new(
        n,
        |i: int| Placed { depth: level_after(recs, (i + 1) as nat) as nat, node: rec_node(recs[i]) },
    )
}

proof fn lemma_level_nonneg(recs: Seq<RecModel>, n: nat)
    ensures
        level_after(recs, n) >= 0,
    decreases n,
{
    if n > 0 && n <= recs.len() {
        lemma_level_nonneg(recs, (n - 1) as nat);
    }
}

proof fn lemma_build_nested(recs: Seq<RecModel>, n: nat)
    requires
        n <= recs.len(),
        steps_ok(recs),
    ensures
        spine(build_upto(recs, n).root, build_upto(recs, n).path),
        all_real(build_upto(recs, n).root, build_upto(recs, n).path),
        build_upto(recs, n).root.synthetic,
        build_upto(recs, n).level == level_after(recs, n),
        build_upto(recs, n).path.len() == if n == 0 {
            0
        } else {
            level_after(recs, n) + 1
        },
        preorder_node(build_upto(recs, n).root, 0) == placed_at_levels(recs, n),
    decreases n,
{
    if n == 0 {
        assert(preorder_node(build_start().root, 0) =~= placed_at_levels(recs, 0));
    } else {
        lemma_build_nested(recs, (n - 1) as nat);
        let s = build_upto(recs, (n - 1) as nat);
        let r = recs[n - 1];
        let level = clamp0(s.level + r.delta);
        lemma_level_nonneg(recs, n);
        assert(level == level_after(recs, n));
        assert(level <= s.path.len()) by {
            assert(level_after(recs, ((n - 1) + 1) as nat) <= if n - 1 == 0 {
                0
            } else {
                level_after(recs, (n - 1) as nat) + 1
            });
        }
        let cut = BuildState {
            root: s.root,
            path: if s.path.len() > level { s.path.take(level) } else { s.path },
            level,
        };
        lemma_spine_prefix(s.root, s.path, level);
        lemma_spine_prefix(s.root, s.path, s.path.len() as int);
        assert(s.path.take(s.path.len() as int) =~= s.path);
        assert(cut.path.len() == level);
        assert(real_count(s.root, cut.path) == level);
        lemma_fill_preorder(cut, level);
        let f = fill_to(cut, level);
        assert(f == cut);
        lemma_spine_push(f.root, f.path, rec_node(r));
        lemma_spine_append(f.root, f.path, rec_node(r), 0);
        crate::tree::lemma_append_synthetic(f.root, f.path, rec_node(r));
        let dd = level as nat;
        assert(child_depth(f.root, 0) + real_count(f.root, f.path) == dd);
        assert(rec_node(r).children =~= Seq::<Outline>::empty());
        assert(preorder(rec_node(r).children, dd + 1) =~= Seq::<Placed>::empty());
        assert(strip(rec_node(r)) =~= rec_node(r));
        assert(preorder_node(rec_node(r), dd) =~= seq![Placed { depth: dd, node: rec_node(r) }]);
        assert(preorder_node(build_upto(recs, n).root, 0) =~= placed_at_levels(recs, n));
    }
}

/// Whether every character of `s` is below `bound`.
pub open spec fn chars_below(s: Seq<char>, bound: u32) -> bool {
    forall|i: int| 0 <= i < s.len() ==> (#[trigger] s[i] as u32) < bound
}

/// The bound below which the characters of a note decoded under `enc` lie.
pub open spec fn note_bound(enc: NoteEncoding) -> u32 {
    match enc {
        NoteEncoding::Latin1 => 0x100,
        _ => 0x80,
    }
}

/// What a decoded record always satisfies under Latin-1 or ASCII notes: a
/// heading of 7-bit characters, and a note of at most 0xFFFF characters in
/// the encoding's range.
pub open spec fn rec_ok(r: RecModel, enc: NoteEncoding) -> bool {
    &&& chars_below(r.text, 0x80)
    &&& (r.note matches Some(t) ==> t.len() <= 0xffff && chars_below(t, note_bound(enc)))
}

proof fn lemma_heading_chars(b: Seq<u8>)
    ensures
        chars_below(heading_text(b), 0x80),
    decreases b.len(),
{
    if b.len() > 0 {
        lemma_heading_chars(b.drop_last());
        let x = b.last();
        assert((x & 0x7f) < 0x80) by (bit_vector);
        let h = heading_text(b);
        let a = heading_text(b.drop_last());
        assert forall|i: int| 0 <= i < h.len() implies (#[trigger] h[i] as u32) < 0x80 by {
            if i < a.len() {
                assert(h[i] == a[i]);
            }
        }
    }
}

proof fn lemma_note_chars(b: Seq<u8>, enc: NoteEncoding)
    requires
        enc != NoteEncoding::Utf8,
    ensures
        chars_below(note_text(b, enc), note_bound(enc)),
        note_text(b, enc).len() == b.len(),
{
    let t = note_text(b, enc);
    assert forall|i: int| 0 <= i < t.len() implies (#[trigger] t[i] as u32) < note_bound(enc) by {
        let x = b[i];
        assert((x & 0x7f) < 0x80) by (bit_vector);
    }
}

proof fn lemma_step_ok(buf: Seq<u8>, i: int, enc: NoteEncoding)
    requires
        enc != NoteEncoding::Utf8,
        0 <= i < buf.len(),
    ensures
        decode_step(buf, i, enc) matches Step::Emit(r, _) ==> rec_ok(r, enc),
{
    reveal(decode_step);
    let k = find_terminator(buf, i);
    crate::decode::lemma_find_terminator_range(buf, i);
    if !at_end_sentinel(buf, i) && k < buf.len() && k + 4 <= buf.len() && marker_ok(buf, k) && k
        - i <= MAX_TEXTLEN && k + 6 <= buf.len() {
        lemma_heading_chars(buf.subrange(i, k));
        if buf[k + 1] & A_NOTE == 0 {
            let r = crate::decode::record_at(buf, i, k, None, enc);
            assert(decode_step(buf, i, enc) == Step::Emit(r, k + 6));
            assert(rec_ok(r, enc));
        } else if k + 8 <= buf.len() && k + 8 + le16(buf[k + 6], buf[k + 7]) <= buf.len() {
            let n = le16(buf[k + 6], buf[k + 7]) as int;
            lemma_note_chars(buf.subrange(k + 8, k + 8 + n), enc);
            let r = crate::decode::record_at(buf, i, k, Some((k + 8, n)), enc);
            assert(decode_step(buf, i, enc) == Step::Emit(r, k + 8 + n));
            assert(rec_ok(r, enc));
        }
    }
}

proof fn lemma_decoded_ok(buf: Seq<u8>, i: int, enc: NoteEncoding)
    requires
        enc != NoteEncoding::Utf8,
    ensures
        decode_from(buf, i, enc) matches Ok(rs) ==> forall|j: int|
            0 <= j < rs.len() ==> rec_ok(#[trigger] rs[j], enc),
    decreases buf.len() - i,
{
    if 0 <= i < buf.len() {
        lemma_step_ok(buf, i, enc);
        match decode_step(buf, i, enc) {
            Step::Emit(r, j) => {
                if i < j <= buf.len() {
                    lemma_decoded_ok(buf, j, enc);
                    match decode_from(buf, j, enc) {
                        Ok(rest) => {
                            let all = seq![r] + rest;
                            assert forall|m: int| 0 <= m < all.len() implies rec_ok(
                                #[trigger] all[m],
                                enc,
                            ) by {
                                if m > 0 {
                                    assert(all[m] == rest[m - 1]);
                                }
                            }
                        },
                        Err(_) => {},
                    }
                }
            },
            Step::Skip(j) => {
                if i < j <= buf.len() {
                    lemma_decoded_ok(buf, j, enc);
                }
            },
            _ => {},
        }
    }
}

proof fn lemma_char_byte(c: char)
    requires
        (c as u32) < 0x100,
    ensures
        ((c as u32) as u8) as char == c,
{
}

proof fn lemma_heading_inverse(t: Seq<char>)
    requires
        chars_below(t, 0x80),
    ensures
        heading_text(heading_bytes(t)) == t,
        forall|i: int| 0 <= i < heading_bytes(t).len() ==> #[trigger] heading_bytes(t)[i] < 0x80,
    decreases t.len(),
{
    let b = heading_bytes(t);
    assert forall|i: int| 0 <= i < b.len() implies #[trigger] b[i] < 0x80 by {
        assert((t[i] as u32) < 0x80);
    }
    if t.len() > 0 {
        let u = t.drop_last();
        lemma_heading_inverse(u);
        assert(b.drop_last() =~= heading_bytes(u));
        let c = t.last();
        let x = c as u32;
        assert(x < 0x80);
        let y = x as u8;
        assert(y & 0x80 == 0 && y & 0x7f == y) by (bit_vector)
            requires
                y < 0x80,
        ;
        lemma_char_byte(c);
        assert(crate::decode::heading_byte_text(b.last()) == seq![c]);
        assert(heading_text(b) =~= t);
    }
}

proof fn lemma_utf8_ascii(t: Seq<char>)
    requires
        chars_below(t, 0x80),
    ensures
        encode_utf8(t) == t.map_values(|c: char| (c as u32) as u8),
    decreases t.len(),
{
    if t.len() > 0 {
        lemma_utf8_ascii(t.drop_first());
        let x = t[0] as u32;
        assert(x < 0x80);
        assert((x & 0x7f) as u8 == x as u8) by (bit_vector)
            requires
                x < 0x80,
        ;
        assert(encode_utf8(t) =~= t.map_values(|c: char| (c as u32) as u8));
    }
}

proof fn lemma_note_inverse(t: Seq<char>, enc: NoteEncoding)
    requires
        enc != NoteEncoding::Utf8,
        chars_below(t, note_bound(enc)),
    ensures
        note_text(note_bytes(t, enc), enc) == t,
        note_bytes(t, enc).len() == t.len(),
{
    if enc == NoteEncoding::Latin1 {
        assert forall|i: int| 0 <= i < t.len() implies (latin1_byte(t[i]) as char) == t[i] by {
            assert((t[i] as u32) < 0x100);
            lemma_char_byte(t[i]);
        }
        assert(note_text(note_bytes(t, enc), enc) =~= t);
    } else {
        lemma_utf8_ascii(t);
        assert forall|i: int| 0 <= i < t.len() implies ((((t[i] as u32) as u8) & 0x7f) & 0x7f)
            as char == t[i] by {
            let x = t[i] as u32;
            assert(x < 0x80);
            let y = x as u8;
            assert((y & 0x7f) & 0x7f == y) by (bit_vector)
                requires
                    y < 0x80,
            ;
            lemma_char_byte(t[i]);
        }
        assert(note_text(note_bytes(t, enc), enc) =~= t);
    }
}

proof fn lemma_nested_bound(ps: Seq<Placed>, i: int)
    requires
        nested(ps, 0),
        0 <= i < ps.len(),
    ensures
        ps[i].depth <= i,
    decreases i,
{
    if i > 0 {
        lemma_nested_bound(ps, i - 1);
        assert(ps[(i - 1) + 1].depth <= ps[i - 1].depth + 1);
    }
}

proof fn lemma_plain_lines_pointwise(a: Seq<Placed>, b: Seq<Placed>)
    requires
        a.len() == b.len(),
        forall|i: int| 0 <= i < a.len() ==> plain_line(#[trigger] a[i]) == plain_line(b[i]),
    ensures
        plain_lines(a) == plain_lines(b),
    decreases a.len(),
{
    if a.len() > 0 {
        lemma_plain_lines_pointwise(a.drop_last(), b.drop_last());
        assert(plain_line(a[a.len() - 1]) == plain_line(b[b.len() - 1]));
    }
}

proof fn lemma_levels_follow(again: Seq<RecModel>, ps: Seq<Placed>, n: nat)
    requires
        n <= again.len(),
        again.len() == ps.len(),
        forall|i: int|
            0 <= i < again.len() ==> (#[trigger] again[i]).delta as int == ps[i].depth - (if i
                == 0 {
                0
            } else {
                ps[i - 1].depth as int
            }),
    ensures
        n > 0 ==> level_after(again, n) == ps[n - 1].depth,
    decreases n,
{
    if n > 0 {
        lemma_levels_follow(again, ps, (n - 1) as nat);
        assert(level_after(again, n) == clamp0(
            level_after(again, (n - 1) as nat) + again[n - 1].delta,
        ));
        assert(again[n - 1].delta as int == ps[n - 1].depth - (if n - 1 == 0 {
            0
        } else {
            ps[n - 2].depth as int
        }));
    }
}

/// Encoding the tree of a decoded document and decoding the bytes again
/// gives a tree with the same PlainAll rendering. This holds for notes read
/// as Latin-1 or ASCII (lossy UTF-8 can lengthen a note past its 16-bit
/// length field), for at most 32768 records (so that every level step fits
/// a 16-bit delta), and for headings of at most `MAX_TEXTLEN` characters
/// (so that the re-encoded heading passes the decoder's guard).
pub proof fn lemma_round_trip(buf: Seq<u8>, enc: NoteEncoding)
    requires
        enc != NoteEncoding::Utf8,
        decode(buf, enc) is Ok,
        decode(buf, enc)->Ok_0.len() <= 32768,
        forall|i: int|
            0 <= i < decode(buf, enc)->Ok_0.len() ==> (#[trigger] decode(buf, enc)->Ok_0[i]).text.len()
                <= MAX_TEXTLEN,
    ensures
        decode(serialize(build_forest(decode(buf, enc)->Ok_0), enc), enc) matches Ok(again)
            && plain_forest(build_forest(again), 0) == plain_forest(
            build_forest(decode(buf, enc)->Ok_0),
            0,
        ),
{
    let recs = decode(buf, enc)->Ok_0;
    let n = recs.len();
    lemma_decoded_ok(buf, body_start(buf), enc);
    let s1 = build_upto(recs, n);
    let t1 = s1.root.children;
    lemma_build_preorder(recs, n);
    let pre1 = preorder(t1, 0);
    assert(preorder_node(s1.root, 0) == pre1);
    lemma_nested_forest(t1, 0);
    let es = flat_forest(t1, 0, false, enc);
    lemma_flat_forest(t1, 0, false, enc);
    assert forall|i: int| 0 <= i < es.len() implies entry_ok(#[trigger] es[i], prev_level(es, i)) by {
        let r = recs[i];
        assert(pre1[i].node == rec_node(r));
        assert(rec_ok(r, enc));
        assert(entry_of(es[i], pre1[i], enc));
        lemma_heading_inverse(r.text);
        match r.note {
            Some(t) => {
                lemma_note_inverse(t, enc);
            },
            None => {},
        }
        lemma_nested_bound(pre1, i);
        if i > 0 {
            assert(pre1[(i - 1) + 1].depth <= pre1[i - 1].depth + 1);
            assert(entry_of(es[i - 1], pre1[i - 1], enc));
            assert(prev_level(es, i) == pre1[i - 1].depth);
            lemma_nested_bound(pre1, i - 1);
        } else {
            assert(pre1[0].depth == 0);
        }
        let e = es[i];
        assert(e.text == heading_bytes(r.text));
        assert(recs[i].text.len() <= MAX_TEXTLEN);
        assert(e.text.len() <= MAX_TEXTLEN);
        assert(forall|j: int| 0 <= j < e.text.len() ==> #[trigger] e.text[j] < 0x80);
        assert(e.note matches Some(b) ==> b.len() <= 0xffff);
        assert(e.level == pre1[i].depth);
        assert(es.len() == pre1.len());
        assert(pre1.len() == n);
        assert(pre1[i].depth <= i);
        assert(-32768 <= e.level - prev_level(es, i) <= 32767);
    }
    assert(serialize(t1, enc) == encoded(es));
    lemma_decode_encoded(es, enc);
    let again = decode(encoded(es), enc)->Ok_0;
    assert forall|i: int| 0 <= i < n implies #[trigger] again[i].text == recs[i].text
        && again[i].note == recs[i].note && again[i].delta as int == pre1[i].depth - (if i == 0 {
        0
    } else {
        pre1[i - 1].depth as int
    }) by {
        let r = recs[i];
        assert(entry_decodes(again[i], es[i], prev_level(es, i), enc));
        assert(entry_of(es[i], pre1[i], enc));
        assert(pre1[i].node == rec_node(r));
        assert(rec_ok(r, enc));
        lemma_heading_inverse(r.text);
        match r.note {
            Some(t) => {
                lemma_note_inverse(t, enc);
            },
            None => {},
        }
        if i > 0 {
            assert(entry_of(es[i - 1], pre1[i - 1], enc));
        }
    }
    assert forall|i: int| 0 <= i < again.len() implies level_after(again, (i + 1) as nat)
        == pre1[i].depth by {
        lemma_levels_follow(again, pre1, (i + 1) as nat);
    }
    assert(steps_ok(again)) by {
        assert forall|i: int| 0 <= i < again.len() implies #[trigger] level_after(
            again,
            (i + 1) as nat,
        ) <= if i == 0 {
            0
        } else {
            level_after(again, i as nat) + 1
        } by {
            if i > 0 {
                assert(level_after(again, ((i - 1) + 1) as nat) == pre1[i - 1].depth);
                assert(pre1[(i - 1) + 1].depth <= pre1[i - 1].depth + 1);
            }
        }
    }
    lemma_build_nested(again, n);
    let s2 = build_upto(again, n);
    let pre2 = preorder(s2.root.children, 0);
    assert(preorder_node(s2.root, 0) == pre2);
    lemma_plain_forest(t1, 0);
    lemma_plain_forest(s2.root.children, 0);
    assert forall|i: int| 0 <= i < n implies plain_line(#[trigger] pre1[i]) == plain_line(
        pre2[i],
    ) by {
        assert(pre2[i] == placed_at_levels(again, n)[i]);
        assert(level_after(again, (i + 1) as nat) == pre1[i].depth);
        assert(pre1[i].node == rec_node(recs[i]));
    }
    lemma_plain_lines_pointwise(pre1, pre2);
}

} // verus!
