//! One sequence entry.
use vstd::prelude::*;

verus! {

/// One parsed entry: its identifier, its sequence and, for FASTQ, its
/// quality string.
#[derive(Debug, Eq, PartialEq, Ord, PartialOrd, Clone)]
pub struct Record {
    pub id: String,
    pub seq: Vec<u8>,
    pub qual: Option<Vec<u8>>,
}

/// What a [`Record`] holds, as mathematical values.
pub struct RecordView {
    pub id: Seq<char>,
    pub seq: Seq<u8>,
    pub qual: Option<Seq<u8>>,
}

impl RecordView {
    /// The record with no identifier, no sequence and no quality string.
    pub open spec fn empty() -> RecordView {
        RecordView { id: Seq::empty(), seq: Seq::empty(), qual: None }
    }
}

impl View for Record {
    type V = RecordView;

    open spec fn view(&self) -> RecordView {
        RecordView {
            id: self.id@,
            seq: self.seq@,
            qual: match self.qual {
                Some(q) => Some(q@),
                None => None,
            },
        }
    }
}

/// `String::clear` empties the string.
pub assume_specification[ String::clear ](s: &mut String)
    ensures
        final(s)@ == Seq::<char>::empty(),
;

impl Record {
    /// A record with nothing in it.
    pub fn new() -> (r: Self)
        ensures
            r@ == RecordView::empty(),
    {
        Record { id: String::new(), seq: Vec::new(), qual: None }
    }

    /// Resets every field, keeping the buffers for the next entry.
    pub fn clear(&mut self)
        ensures
            final(self)@ == RecordView::empty(),
    {
        self.id.clear();
        self.seq.clear();
        self.qual = None;
    }

    /// True when the record has no identifier, no sequence and no quality
    /// string.
    pub fn is_empty(&self) -> (b: bool)
        ensures
            b == (self@ == RecordView::empty()),
    {
        let empty = self.id.as_str().is_empty() && self.seq.is_empty() && self.qual.is_none();
        proof {
            if empty {
                assert(self@.id =~= Seq::<char>::empty());
                assert(self@.seq =~= Seq::<u8>::empty());
            }
        }
        empty
    }
}

/// Copies a byte slice into a vector of its own.
pub fn deref(s: &[u8]) -> (v: Vec<u8>)
    ensures
        v@ == s@,
{
    let mut v: Vec<u8> = Vec::new();
    v.extend_from_slice(s);
    v
}

} // verus!
