use crate::types::{PageId, PAGE_SIZE};
use vstd::prelude::*;

verus! {

/// What every kind of page offers: an identity, a byte image of exactly
/// `PAGE_SIZE` bytes, and the way back from such an image.
pub trait Page: View + Sized {
    /// The structural invariant of the page kind.
    spec fn wf(&self) -> bool;

    /// The id of a page with the given content.
    spec fn id_of(view: Self::V) -> PageId;

    /// The page that a byte image stands for, if it stands for one.
    spec fn decode(bytes: Seq<u8>) -> Option<Self::V>;

    /// The new empty page with the given id.
    spec fn spec_new(id: PageId) -> Self::V;

    /// Creates a new empty page with the given id.
    fn new(id: PageId) -> (page: Self)
        ensures
            page.wf(),
            Self::id_of(page@) == id,
            page@ == Self::spec_new(id),
    ;

    /// Writes the page out as a byte image.
    fn serialize(&self) -> (buf: [u8; PAGE_SIZE])
        requires
            self.wf(),
        ensures
            Self::decode(buf@) == Some(self@),
    ;

    /// Reads a page back from a byte image; `None` where the image stands for no page.
    fn deserialize(buf: &[u8; PAGE_SIZE]) -> (page: Option<Self>)
        ensures
            match page {
                Some(p) => p.wf() && Self::decode(buf@) == Some(p@),
                None => Self::decode(buf@) is None,
            },
    ;

    /// Tells whether the page meets the invariant of its kind.
    fn is_valid(&self) -> (ok: bool)
        ensures
            ok == self.wf(),
    ;

    /// Returns the page's id.
    fn get_id(&self) -> (id: PageId)
        ensures
            id == Self::id_of(self@),
    ;

    /// Returns the amount of free space in the page.
    fn get_free_space(&self) -> usize
        requires
            self.wf(),
    ;

    /// Returns whether the page is empty.
    fn is_empty(&self) -> bool
        requires
            self.wf(),
    ;

    /// Makes the page the new empty page of its id.
    fn clear(&mut self)
        ensures
            final(self).wf(),
            Self::id_of(final(self)@) == Self::id_of(old(self)@),
            final(self)@ == Self::spec_new(Self::id_of(old(self)@)),
    ;
}

/// A page that is written out and read back is the same page: whatever
/// image `serialize` makes of a well-formed page, `deserialize` accepts it
/// and returns a page with the same content.
pub proof fn lemma_round_trip<P: Page>(page: P, image: Seq<u8>, back: Option<P>)
    requires
        page.wf(),
        P::decode(image) == Some(page@),
        match back {
            Some(p) => p.wf() && P::decode(image) == Some(p@),
            None => P::decode(image) is None,
        },
    ensures
        back is Some,
        back.unwrap()@ == page@,
        back.unwrap().wf(),
{
}

/// The errors that page and buffer-pool operations report.
#[derive(Copy, Clone, Debug, PartialEq, Eq, Structural)]
pub enum PageError {
    /// The page id names no page, in memory or on disk.
    InvalidPage,
    /// The slot id is out of range, or the slot holds no live record.
    InvalidSlot,
    /// An update in place was asked to change a record's size.
    RecordSizeChanged,
    /// The page is in use by others.
    PageLatched,
    /// A page that is not pinned was asked to be unpinned.
    PageAlreadyUnpinned,
}

} // verus!
