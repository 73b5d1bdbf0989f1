//! Flat records as the decoder produces them, and their mathematical model.
use vstd::prelude::*;

verus! {

/// Attribute bit: a note follows the header.
pub const A_NOTE: u8 = 0x80;

/// Attribute bit: the caret stands on this heading.
pub const A_CURSOR: u8 = 0x20;

/// Attribute bit: a later sibling exists at the same level.
pub const A_SIBFOLLOWS: u8 = 0x08;

/// Attribute bit under study: thought to mean "has children".
pub const A_HASKIDS: u8 = 0x04;

/// The heading terminator, also the second byte of every marker.
pub const TERMINATOR: u8 = 0xff;

/// First marker byte of an expanded entry.
pub const M_EXPANDED: u8 = 0xff;

/// First marker byte of a collapsed entry.
pub const M_COLLAPSED: u8 = 0xfe;

/// The marker word of an expanded entry.
pub const MARK_EXPANDED: u16 = 0xffff;

/// The marker word of a collapsed entry.
pub const MARK_COLLAPSED: u16 = 0xfffe;

/// The control byte that ends a document.
pub const EOF_BYTE: u8 = 0x1a;

/// The flags that the known attribute bits stand for.
#[derive(Clone, Copy, Debug, PartialEq, Eq, Structural)]
pub struct Flags {
    pub has_note: bool,
    pub selected: bool,
    pub has_next_sibling: bool,
    pub has_child: bool,
}

/// The flags read from an attribute byte.
pub open spec fn flags_of(attr: u8) -> Flags {
    Flags {
        has_note: attr & A_NOTE != 0,
        selected: attr & A_CURSOR != 0,
        has_next_sibling: attr & A_SIBFOLLOWS != 0,
        has_child: attr & A_HASKIDS != 0,
    }
}

impl Flags {
    /// The flags read from an attribute byte.
    pub fn from_attr(attr: u8) -> (r: Flags)
        ensures
            r == flags_of(attr),
    {
        Flags {
            has_note: attr & A_NOTE != 0,
            selected: attr & A_CURSOR != 0,
            has_next_sibling: attr & A_SIBFOLLOWS != 0,
            has_child: attr & A_HASKIDS != 0,
        }
    }

    /// Flags with every bit clear.
    pub fn none() -> (r: Flags)
        ensures
            r == flags_of(0),
    {
        assert(0u8 & A_NOTE == 0 && 0u8 & A_CURSOR == 0 && 0u8 & A_SIBFOLLOWS == 0 && 0u8
            & A_HASKIDS == 0) by (bit_vector);
        Flags { has_note: false, selected: false, has_next_sibling: false, has_child: false }
    }
}

/// One decoded entry, with the byte offsets that each field came from.
#[derive(Clone, Debug)]
pub struct Rec {
    pub text: String,
    pub delta: i16,
    pub attr: u8,
    pub marker_u16: u16,
    pub collapsed: bool,
    pub note: Option<String>,
    pub flags: Flags,
    pub off_text: usize,
    pub len_text: usize,
    pub off_terminator: usize,
    pub off_attr: usize,
    pub off_marker: usize,
    pub off_delta: usize,
    pub off_note_len: Option<usize>,
    pub off_note: Option<usize>,
    pub note_len: usize,
}

/// The value of a record.
pub ghost struct RecModel {
    pub text: Seq<char>,
    pub delta: i16,
    pub attr: u8,
    pub marker: u16,
    pub collapsed: bool,
    pub note: Option<Seq<char>>,
    pub flags: Flags,
    pub off_text: nat,
    pub len_text: nat,
    pub off_terminator: nat,
    pub off_attr: nat,
    pub off_marker: nat,
    pub off_delta: nat,
    pub off_note_len: Option<nat>,
    pub off_note: Option<nat>,
    pub note_len: nat,
}

pub open spec fn opt_text(o: Option<String>) -> Option<Seq<char>> {
    match o {
        Some(s) => Some(s@),
        None => None,
    }
}

pub open spec fn opt_nat(o: Option<usize>) -> Option<nat> {
    match o {
        Some(x) => Some(x as nat),
        None => None,
    }
}

impl View for Rec {
    type V = RecModel;

    open spec fn view(&self) -> RecModel {
        RecModel {
            text: self.text@,
            delta: self.delta,
            attr: self.attr,
            marker: self.marker_u16,
            collapsed: self.collapsed,
            note: opt_text(self.note),
            flags: self.flags,
            off_text: self.off_text as nat,
            len_text: self.len_text as nat,
            off_terminator: self.off_terminator as nat,
            off_attr: self.off_attr as nat,
            off_marker: self.off_marker as nat,
            off_delta: self.off_delta as nat,
            off_note_len: opt_nat(self.off_note_len),
            off_note: opt_nat(self.off_note),
            note_len: self.note_len as nat,
        }
    }
}

/// The values of a sequence of records.
pub open spec fn recs_view(s: Seq<Rec>) -> Seq<RecModel> {
    s.map_values(|r: Rec| r@)
}

} // verus!
