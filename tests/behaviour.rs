use otl::canon::{delta_field, escape_headline, fmt_attr_bits, mark_field, render_canon};
use otl::decode::{decode_heading, decode_note, parse_otl, DecodeError, NoteEncoding};
use otl::diff::{diff_mode, diff_two_recs, render_delta_for_diff, render_mark_for_diff};
use otl::dump::{dump_offsets, dump_recs};
use otl::encode::{encode_heading_from_text, encode_note_bytes, serialize_tree_to_otl};
use otl::record::{Flags, A_CURSOR, A_HASKIDS, A_NOTE, A_SIBFOLLOWS, M_COLLAPSED, M_EXPANDED};
use otl::render::{render_indented, render_plain_all};
use otl::tree::{build_tree, push_child, Node};
use otl::validate::{validate, Warning};

fn head() -> Vec<u8> {
    vec![0x1a, 0x93, 0x1a, 0xff, 0x00, 0xff, 0xff, 0xff, 0xff]
}

fn rec(text: &str, attr: u8, marker_first: u8, delta: i16, note: Option<&[u8]>) -> Vec<u8> {
    let mut v = Vec::new();
    v.extend(text.as_bytes());
    v.push(0xFF);
    v.push(attr);
    v.push(marker_first);
    v.push(0xFF);
    v.extend(delta.to_le_bytes());
    if (attr & A_NOTE) != 0 {
        let nb = note.unwrap_or(&[]);
        v.extend((nb.len() as u16).to_le_bytes());
        v.extend(nb);
    }
    v
}

fn doc(records: Vec<Vec<u8>>) -> Vec<u8> {
    let mut v = head();
    for r in records {
        v.extend(r);
    }
    v
}

fn sample() -> Vec<u8> {
    doc(vec![
        rec("A", 0x00, M_EXPANDED, 0, None),
        rec("B", A_NOTE, M_EXPANDED, 1, Some(b"hi")),
        rec("C", A_CURSOR | A_SIBFOLLOWS, M_COLLAPSED, -3, None),
    ])
}

#[test]
fn canon_note_block_scenario() {
    let buf = doc(vec![
        rec("A", 0x00, M_EXPANDED, 0, None),
        rec("B", A_NOTE, M_EXPANDED, 1, Some(b"hello\r\nworld")),
    ]);
    let recs = parse_otl(&buf, "latin1").unwrap();
    assert_eq!(recs[1].note_len, 12);
    let canon = render_canon(&recs, false);
    let lines: Vec<&str> = canon.lines().collect();
    assert_eq!(lines[0], "nsk mark=-1:+ delta=+0 textLen=0001 \"A\"");
    assert_eq!(lines[1], "Nsk mark=-1:+ delta=+1 textLen=0001 \"B\"");
    assert_eq!(lines[2], "noteLen=000c");
    assert_eq!(&lines[3..], &["note", "hello", "world", "/note"]);
}

#[test]
fn canon_is_repeatable() {
    let recs = parse_otl(&sample(), "latin1").unwrap();
    assert_eq!(render_canon(&recs, true), render_canon(&recs, true));
    assert_eq!(
        render_canon(&recs, true),
        [
            "ncsk mark=-1:+ delta=+0 textLen=0001 \"A\"\n",
            "Ncsk mark=-1:+ delta=+1 textLen=0001 \"B\"\n",
            "noteLen=0002\nnote\nhi\n/note\n",
            "nCSk mark=-2:- delta=-3 textLen=0001 \"C\"\n",
        ].concat()
    );
}

#[test]
fn level_jump_builds_filler_and_siblings() {
    let buf = doc(vec![
        rec("A", 0, M_EXPANDED, 0, None),
        rec("B", 0, M_EXPANDED, 2, None),
        rec("C", 0, M_EXPANDED, -1, None),
        rec("D", 0, M_EXPANDED, 0, None),
    ]);
    let recs = parse_otl(&buf, "latin1").unwrap();
    let tree = build_tree(&recs);
    assert_eq!(tree.len(), 1);
    let a = &tree[0];
    assert_eq!(a.children.len(), 3);
    assert!(a.children[0].synthetic);
    assert_eq!(a.children[0].text, "");
    assert_eq!(a.children[0].children.len(), 1);
    assert_eq!(a.children[0].children[0].text, "B");
    assert!(!a.children[1].synthetic);
    assert_eq!(a.children[1].text, "C");
    assert_eq!(a.children[2].text, "D");
    assert_eq!(render_plain_all(&tree, 0), "A\n  B\n  C\n  D\n");
}

#[test]
fn first_record_jump_and_negative_clamp() {
    let buf = doc(vec![
        rec("A", 0, M_EXPANDED, 2, None),
        rec("B", 0, M_EXPANDED, -5, None),
        rec("C", 0, M_EXPANDED, 1, None),
    ]);
    let recs = parse_otl(&buf, "latin1").unwrap();
    let tree = build_tree(&recs);
    assert_eq!(tree.len(), 2);
    assert!(tree[0].synthetic);
    assert!(tree[0].children[0].synthetic);
    assert_eq!(tree[0].children[0].children[0].text, "A");
    assert_eq!(tree[1].text, "B");
    assert_eq!(tree[1].children[0].text, "C");
}

#[test]
fn diff_reports_attribute_change() {
    let prev = parse_otl(&doc(vec![rec("A", 0x00, M_EXPANDED, 0, None)]), "latin1").unwrap();
    let curr = parse_otl(&doc(vec![rec("A", 0x20, M_EXPANDED, 0, None)]), "latin1").unwrap();
    assert_eq!(diff_mode(&prev, &curr, false), "~ \"A\"\n  attr: nsk -> nsk\n");
    assert_eq!(diff_mode(&prev, &curr, true), "~ \"A\"\n  attr: ncsk -> nCsk\n");
}

#[test]
fn diff_added_removed_and_fields() {
    let prev = parse_otl(
        &doc(vec![
            rec("A", 0, M_EXPANDED, 0, None),
            rec("X", A_NOTE, M_EXPANDED, 0, Some(b"ab")),
            rec("A", 0, M_EXPANDED, 0, None),
        ]),
        "latin1",
    )
    .unwrap();
    let curr = parse_otl(
        &doc(vec![
            rec("X", A_NOTE, M_COLLAPSED, 1, Some(b"abc")),
            rec("A", 0, M_EXPANDED, 0, None),
            rec("N", 0, M_EXPANDED, 0, None),
        ]),
        "latin1",
    )
    .unwrap();
    assert_eq!(
        diff_mode(&prev, &curr, false),
        [
            "~ \"X\"\n",
            "  mark: -1:+ -> -2:-\n",
            "  delta: +0 -> +1\n",
            "  noteLen: 0002 -> 0003\n",
            "  note: (length and text changed)\n",
            "+ \"N\"\n",
            "- \"A\"\n",
        ].concat()
    );
    let same_len = parse_otl(&doc(vec![rec("X", A_NOTE, M_EXPANDED, 0, Some(b"ba"))]), "latin1")
        .unwrap();
    let lines = diff_two_recs(&prev[1], &same_len[0], false);
    assert_eq!(lines, vec!["  note: (text changed)".to_string()]);
    let longer = parse_otl(&doc(vec![rec("XY", 0, M_EXPANDED, 0, None)]), "latin1").unwrap();
    let lines = diff_two_recs(&prev[0], &longer[0], false);
    assert_eq!(lines, vec!["  textLen: 0001 -> 0002".to_string()]);
    assert_eq!(render_mark_for_diff(0x00ff), "0x00ff");
    assert_eq!(render_delta_for_diff(-4), "-4");
}

#[test]
fn decode_errors() {
    let mut b = head();
    b.extend(b"abc");
    assert_eq!(parse_otl(&b, "latin1").unwrap_err(), DecodeError::UnterminatedHeading);

    let mut b = head();
    b.extend([b'a', 0xff, 0x00, 0xff]);
    assert_eq!(parse_otl(&b, "latin1").unwrap_err(), DecodeError::TruncatedHeader);

    let mut b = head();
    b.extend([b'a', 0xff, 0x00, 0xff, 0xff, 0x00]);
    assert_eq!(parse_otl(&b, "latin1").unwrap_err(), DecodeError::TruncatedHeader);

    let mut b = head();
    b.extend([b'a', 0xff, A_NOTE, 0xff, 0xff, 0x00, 0x00, 0x05]);
    assert_eq!(parse_otl(&b, "latin1").unwrap_err(), DecodeError::TruncatedNoteLength);

    let mut b = head();
    b.extend([b'a', 0xff, A_NOTE, 0xff, 0xff, 0x00, 0x00, 0x05, 0x00, b'h', b'i']);
    assert_eq!(parse_otl(&b, "latin1").unwrap_err(), DecodeError::TruncatedNoteBytes);

    let mut b = head();
    b.extend(std::iter::repeat(b'a').take(1048577));
    b.extend([0xff, 0x00, 0xff, 0xff, 0x00, 0x00]);
    assert_eq!(parse_otl(&b, "latin1").unwrap_err(), DecodeError::HeadingTooLarge);
}

#[test]
fn decode_sentinels_and_stray_terminator() {
    let mut b = sample();
    b.push(0x1a);
    assert_eq!(parse_otl(&b, "latin1").unwrap().len(), 3);

    let mut b = doc(vec![rec("A", 0, M_EXPANDED, 0, None)]);
    b.extend([0xff, 0xff, 0x1a, 0x00, 0x00]);
    assert_eq!(parse_otl(&b, "latin1").unwrap().len(), 1);

    let mut b = head();
    b.extend([b'x', 0xff, b'y', b'z', b'w', 0xff, 0x00, 0xff, 0xff, 0x00, 0x00]);
    let recs = parse_otl(&b, "latin1").unwrap();
    assert_eq!(recs.len(), 1);
    assert_eq!(recs[0].text, "yzw");
    assert_eq!(recs[0].off_text, 11);
    assert_eq!(recs[0].len_text, 3);

    let recs = parse_otl(&[b'Q', 0xff, 0x00, 0xfe, 0xff, 0x02, 0x00], "latin1").unwrap();
    assert_eq!(recs[0].text, "Q");
    assert!(recs[0].collapsed);
    assert_eq!(recs[0].marker_u16, 0xfffe);
    assert_eq!(recs[0].delta, 2);
}

#[test]
fn text_decoding() {
    assert_eq!(decode_heading(&[0xc1, 0x42]), "A B");
    assert_eq!(decode_note(&[0xe9], "latin1"), "\u{e9}");
    assert_eq!(decode_note(&[0xc1], "ascii"), "A");
    assert_eq!(decode_note(&[0xff, 0x41], "utf8"), "\u{fffd}A");
    assert_eq!(decode_note(&[0xc3, 0xa9], "other"), "\u{e9}");
    assert_eq!(NoteEncoding::from_name("latin1"), NoteEncoding::Latin1);
    assert_eq!(NoteEncoding::from_name("ascii"), NoteEncoding::Ascii);
    assert_eq!(NoteEncoding::from_name("utf8"), NoteEncoding::Utf8);
    let recs = parse_otl(&doc(vec![rec("N", A_NOTE, M_EXPANDED, 0, Some(&[0xc3, 0xa9]))]), "utf8")
        .unwrap();
    assert_eq!(recs[0].note.as_deref(), Some("\u{e9}"));
}

#[test]
fn field_formats() {
    assert_eq!(mark_field(0xffff), "-1:+");
    assert_eq!(mark_field(0xfffe), "-2:-");
    assert_eq!(mark_field(0x1234), "0x1234");
    assert_eq!(delta_field(0), "+0");
    assert_eq!(delta_field(-9), "-9");
    assert_eq!(delta_field(9), "+9");
    assert_eq!(delta_field(10), "0x000a");
    assert_eq!(delta_field(-10), "0xfff6");
    assert_eq!(fmt_attr_bits(0xff, true), "N1C1SK11");
    assert_eq!(fmt_attr_bits(0xff, false), "N11SK11");
    assert_eq!(fmt_attr_bits(0x00, false), "nsk");
    assert_eq!(escape_headline("a\"b\\c"), "a\\\"b\\\\c");
}

#[test]
fn dumps() {
    let recs = parse_otl(&sample(), "latin1").unwrap();
    assert_eq!(
        dump_recs(&recs),
        [
            "   0  L=  0  d=  0  attr=0x00  E      note=    0  A\n",
            "   1  L=  1  d=  1  attr=0x80  E      note=    2  B\n",
            "   2  L= -2  d= -3  attr=0x28  C S S  note=    0  C\n",
        ].concat()
    );
    let offs = dump_offsets(&recs);
    let lines: Vec<&str> = offs.lines().collect();
    assert_eq!(
        lines[0],
        "#000 text[0x0009+   1] 0xFF[0x000a] attr[0x000b=0x00] mark[0x000c=FF FF] delta[0x000e]  A"
    );
    assert_eq!(
        lines[1],
        "#001 text[0x0010+   1] 0xFF[0x0011] attr[0x0012=0x80] mark[0x0013=FF FF] delta[0x0015] nlen[0x0017] note[0x0019]  B"
    );
    assert!(lines[2].contains("mark[0x001e=FE FF]"));
}

#[test]
fn indented_rendering() {
    let buf = doc(vec![
        rec("A", 0, M_COLLAPSED, 0, None),
        rec("hidden", 0, M_EXPANDED, 1, None),
        rec("S", A_CURSOR | A_NOTE, M_EXPANDED, -1, Some(b"x\r\ny")),
        rec("K", 0, M_EXPANDED, 1, None),
    ]);
    let recs = parse_otl(&buf, "latin1").unwrap();
    let tree = build_tree(&recs);
    assert_eq!(
        render_indented(&tree, ""),
        "[+]  A\n[-]* S\n    > x\n    > y\n    [-]  K\n"
    );
    assert_eq!(render_plain_all(&tree, 0), "A\n  hidden\nS\n  x\n  y\n  K\n");
    assert_eq!(render_plain_all(&tree, 1), "  A\n    hidden\n  S\n    x\n    y\n    K\n");
}

#[test]
fn encoder_bytes() {
    assert_eq!(encode_heading_from_text("A\u{e9}"), vec![0x41, 0x3f]);
    assert_eq!(encode_note_bytes("\u{e9}", "latin1"), vec![0xe9]);
    assert_eq!(encode_note_bytes("\u{e9}", "utf8"), vec![0xc3, 0xa9]);
    assert_eq!(encode_note_bytes("\u{e9}", "ascii"), vec![0x43, 0x29]);
    assert_eq!(encode_note_bytes("\u{100}", "latin1"), vec![0x3f]);

    let buf = doc(vec![
        rec("A", 0, M_EXPANDED, 0, None),
        rec("B", A_NOTE, M_EXPANDED, 1, Some(b"hi")),
        rec("C", 0, M_COLLAPSED, 0, None),
    ]);
    let tree = build_tree(&parse_otl(&buf, "latin1").unwrap());
    let mut expected = head();
    expected.extend([0x41, 0xff, 0x00, 0xff, 0xff, 0x00, 0x00]);
    expected.extend([0x42, 0xff, 0x88, 0xff, 0xff, 0x01, 0x00, 0x02, 0x00, b'h', b'i']);
    expected.extend([0x43, 0xff, 0x00, 0xfe, 0xff, 0x00, 0x00]);
    expected.push(0x1a);
    assert_eq!(serialize_tree_to_otl(&tree, "latin1"), expected);
}

#[test]
fn encoder_splices_fillers() {
    let buf = doc(vec![
        rec("A", 0, M_EXPANDED, 0, None),
        rec("B", 0, M_EXPANDED, 2, None),
        rec("C", 0, M_EXPANDED, -1, None),
        rec("D", 0, M_EXPANDED, -5, None),
    ]);
    let tree = build_tree(&parse_otl(&buf, "latin1").unwrap());
    let mut expected = head();
    expected.extend([0x41, 0xff, 0x08, 0xff, 0xff, 0x00, 0x00]);
    expected.extend([0x42, 0xff, 0x08, 0xff, 0xff, 0x01, 0x00]);
    expected.extend([0x43, 0xff, 0x00, 0xff, 0xff, 0x00, 0x00]);
    expected.extend([0x44, 0xff, 0x00, 0xff, 0xff, 0xff, 0xff]);
    expected.push(0x1a);
    assert_eq!(serialize_tree_to_otl(&tree, "latin1"), expected);
}

#[test]
fn roundtrip_keeps_plain_rendering() {
    let buf = doc(vec![
        rec("Top", 0, M_COLLAPSED, 0, None),
        rec("Deep", A_NOTE, M_EXPANDED, 3, Some(b"n1\r\nn2\r\n")),
        rec("Mid", A_CURSOR, M_EXPANDED, -1, None),
        rec("Next", 0, M_EXPANDED, -2, None),
        rec("Tail", A_NOTE, M_EXPANDED, 1, Some(b"\xe9t\xe9")),
    ]);
    for enc in ["latin1", "ascii"] {
        let tree = build_tree(&parse_otl(&buf, enc).unwrap());
        let again = build_tree(&parse_otl(&serialize_tree_to_otl(&tree, enc), enc).unwrap());
        assert_eq!(render_plain_all(&tree, 0), render_plain_all(&again, 0));
    }
}

#[test]
fn validator_findings() {
    let ok = parse_otl(
        &doc(vec![
            rec("A", A_SIBFOLLOWS | A_HASKIDS, M_EXPANDED, 0, None),
            rec("a", 0, M_EXPANDED, 1, None),
            rec("B", 0, M_EXPANDED, -1, None),
        ]),
        "latin1",
    )
    .unwrap();
    assert!(validate(&ok, false).is_empty());
    assert!(validate(&ok, true).is_empty());

    let recs = parse_otl(
        &doc(vec![
            rec("A", A_SIBFOLLOWS | A_CURSOR, M_EXPANDED, 0, None),
            rec("B", 0x41, M_EXPANDED, 1, None),
            rec("C", A_CURSOR, M_EXPANDED, -1, None),
        ]),
        "latin1",
    )
    .unwrap();
    let ws = validate(&recs, true);
    let msgs: Vec<String> = ws.iter().map(|w| w.message()).collect();
    assert_eq!(
        msgs,
        vec![
            "WARN: rec #000 0x04!=has_child (attr=false, expected=true) at attr[0x000b]".to_string(),
            "WARN: rec #001 unknown attr bits set: 0x41 at attr[0x0012]".to_string(),
            "WARN: 2 records have the selection bit set: #000, #002".to_string(),
        ]
    );
    assert!(matches!(ws[2], Warning::MultipleSelected { ref indices } if indices == &vec![0, 2]));

    let lone = parse_otl(&doc(vec![rec("A", A_SIBFOLLOWS, M_EXPANDED, 0, None)]), "latin1").unwrap();
    let ws = validate(&lone, false);
    assert_eq!(ws.len(), 1);
    assert!(matches!(
        ws[0],
        Warning::SiblingMismatch { index: 0, bit: true, expected: false, off_attr: 11 }
    ));
    assert_eq!(
        ws[0].message(),
        "WARN: rec #000 sibling bit mismatch (attr=true, expected=false) at attr[0x000b]"
    );
}

#[test]
fn child_bit_means_exactly_one_level_deeper() {
    let recs = parse_otl(
        &doc(vec![
            rec("A", A_HASKIDS, M_EXPANDED, 0, None),
            rec("B", 0, M_EXPANDED, 2, None),
        ]),
        "latin1",
    )
    .unwrap();
    let ws = validate(&recs, true);
    assert_eq!(ws.len(), 1);
    assert!(matches!(
        ws[0],
        Warning::ChildBitMismatch { index: 0, bit: true, expected: false, off_attr: 11 }
    ));
    assert!(validate(&recs, false).is_empty());
}

#[test]
fn push_child_follows_path() {
    let mut root = Node {
        text: String::new(),
        note: None,
        collapsed: false,
        flags: Flags::none(),
        synthetic: true,
        children: Vec::new(),
    };
    let mut path: Vec<usize> = Vec::new();
    let leaf = |t: &str| Node {
        text: t.to_string(),
        note: None,
        collapsed: false,
        flags: Flags::from_attr(0),
        synthetic: false,
        children: Vec::new(),
    };
    push_child(&mut root, &mut path, leaf("a"));
    assert_eq!(path, vec![0]);
    push_child(&mut root, &mut path, leaf("b"));
    assert_eq!(path, vec![0, 0]);
    path.pop();
    push_child(&mut root, &mut path, leaf("c"));
    assert_eq!(path, vec![0, 1]);
    assert_eq!(root.children[0].children[1].text, "c");
}
