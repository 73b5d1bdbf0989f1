use otl::canon::render_canon;
use otl::decode::parse_otl;
use otl::encode::serialize_tree_to_otl;
use otl::record::{A_NOTE, M_EXPANDED};
use otl::render::render_plain_all;
use otl::tree::build_tree;

const MAGIC: [u8; 3] = [0x1a, 0x93, 0x1a];
const PREAMBLE: [u8; 6] = [0xff, 0x00, 0xff, 0xff, 0xff, 0xff];

fn le_u16(n: u16) -> [u8; 2] {
    n.to_le_bytes()
}

fn le_i16(n: i16) -> [u8; 2] {
    n.to_le_bytes()
}

// One record. The first marker byte is 0xFF (expanded) or 0xFE (collapsed).
fn rec_bytes(text: &str, attr: u8, marker_first: u8, delta: i16, note: Option<&[u8]>) -> Vec<u8> {
    let mut v = Vec::new();
    v.extend(text.as_bytes());
    v.push(0xFF);
    v.push(attr);
    v.push(marker_first);
    v.push(0xFF);
    v.extend(le_i16(delta));
    if (attr & A_NOTE) != 0 {
        let nb = note.unwrap_or(&[]);
        v.extend(le_u16(nb.len() as u16));
        v.extend(nb);
    }
    v
}

// A minimal document: magic, preamble, then the records.
fn otl_file(records: Vec<Vec<u8>>) -> Vec<u8> {
    let mut v = Vec::new();
    v.extend(MAGIC);
    v.extend(PREAMBLE);
    for r in records {
        v.extend(r);
    }
    v
}

#[test]
fn parse_and_build_tree_basic() {
    let parent = rec_bytes("Parent", 0x00, M_EXPANDED, 0, None);
    let note_text = b"Line1\r\nLine2";
    let child1 = rec_bytes("Child1", A_NOTE, M_EXPANDED, 1, Some(note_text));
    let child2 = rec_bytes("Child2", 0x00, M_EXPANDED, 0, None);
    let buf = otl_file(vec![parent, child1, child2]);

    let recs = parse_otl(&buf, "latin1").expect("parse otl");
    assert_eq!(recs.len(), 3);
    assert!(recs[1].flags.has_note);
    assert_eq!(recs[1].note.as_deref().unwrap(), "Line1\r\nLine2");

    let tree = build_tree(&recs);
    assert_eq!(tree.len(), 1);
    assert_eq!(tree[0].text, "Parent");
    assert_eq!(tree[0].children.len(), 2);
    assert_eq!(tree[0].children[0].text, "Child1");
    assert_eq!(tree[0].children[1].text, "Child2");

    let plain = render_plain_all(&tree, 0);
    assert!(plain.contains("Child1"));
    assert!(plain.contains("Line1"));
    assert!(plain.contains("Line2"));

    let canon = render_canon(&recs, false);
    assert!(canon.contains("noteLen="));
    assert!(canon.contains("note\nLine1\nLine2\n/note"));
}

#[test]
fn roundtrip_tree_to_otl_and_back() {
    let parent = rec_bytes("Parent", 0x00, M_EXPANDED, 0, None);
    let child1 = rec_bytes("Child1", A_NOTE, M_EXPANDED, 1, Some(b"Line1\r\nLine2"));
    let child2 = rec_bytes("Child2", 0x00, M_EXPANDED, 0, None);
    let buf = otl_file(vec![parent, child1, child2]);

    let recs = parse_otl(&buf, "latin1").expect("parse otl");
    let tree = build_tree(&recs);

    let buf2 = serialize_tree_to_otl(&tree, "latin1");
    let recs2 = parse_otl(&buf2, "latin1").expect("re-parse otl");
    let tree2 = build_tree(&recs2);

    let plain1 = render_plain_all(&tree, 0);
    let plain2 = render_plain_all(&tree2, 0);
    assert_eq!(plain1, plain2);
}

#[test]
fn tree_with_level_jumps_and_neg_deltas() {
    let a = rec_bytes("A", 0x00, M_EXPANDED, 0, None);
    let b = rec_bytes("B", 0x00, M_EXPANDED, 2, None);
    let c = rec_bytes("C", 0x00, M_EXPANDED, -1, None);
    let d = rec_bytes("D", 0x00, M_EXPANDED, 0, None);
    let buf = otl_file(vec![a, b, c, d]);

    let recs = parse_otl(&buf, "latin1").expect("parse otl");
    let tree = build_tree(&recs);

    assert_eq!(tree.len(), 1);
    let a = &tree[0];
    assert_eq!(a.text, "A");
    assert_eq!(a.children.len(), 3, "A should have filler, C, D");

    let filler = &a.children[0];
    assert!(filler.synthetic, "first child is a synthetic filler node");
    assert_eq!(filler.children.len(), 1);
    assert_eq!(filler.children[0].text, "B");

    assert_eq!(a.children[1].text, "C");
    assert_eq!(a.children[2].text, "D");
}

#[test]
fn canon_golden_minimal() {
    let a = rec_bytes("A", 0x00, M_EXPANDED, 0, None);
    let note = b"hello\r\nworld";
    let b = rec_bytes("B", A_NOTE, M_EXPANDED, 1, Some(note));
    let buf = otl_file(vec![a, b]);

    let recs = parse_otl(&buf, "latin1").expect("parse otl");
    let canon = render_canon(&recs, false);

    let expected = [
        "nsk mark=-1:+ delta=+0 textLen=0001 \"A\"\n",
        "Nsk mark=-1:+ delta=+1 textLen=0001 \"B\"\n",
        "noteLen=000c\n",
        "note\n",
        "hello\nworld\n",
        "/note\n",
    ].concat();
    assert_eq!(canon, expected);
}
