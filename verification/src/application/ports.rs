//! The ports of the application layer.
use crate::domain::attachment::Attachment;
use crate::domain::document::{Document, DocumentModel};
use crate::domain::page::{Overlay, OverlayModel, Page, PageModel};
use crate::domain::rendering::{Metafile, MetafileModel};
use crate::error::Error;
use vstd::prelude::*;

verus! {

/// The same document, or the same reason why there is none.
pub open spec fn same_document(
    r: Result<Document, Error>,
    s: Result<DocumentModel, Error>,
) -> bool {
    match (r, s) {
        (Ok(d), Ok(m)) => d@ == m,
        (Err(a), Err(b)) => a == b,
        _ => false,
    }
}

/// The same drawing, or none in both.
pub open spec fn same_drawing(r: Option<Metafile>, s: Option<MetafileModel>) -> bool {
    match (r, s) {
        (Some(m), Some(p)) => m@ == p,
        (None, None) => true,
        _ => false,
    }
}

/// Reads the octets of a document from an external source.
pub trait DocumentReader {
    fn read(&self, path: &str) -> (r: Result<Vec<u8>, Error>);
}

/// Turns the octets of a document into the document model. What it makes of
/// them depends on nothing else.
pub trait DocumentParser {
    spec fn parsed(&self, data: Seq<u8>) -> Result<DocumentModel, Error>;

    fn parse(&self, data: &[u8]) -> (r: Result<Document, Error>)
        ensures
            same_document(r, self.parsed(data@)),
    ;
}

/// Finds source files carried by a document. What it finds depends on the
/// octets alone.
pub trait AttachmentScanner {
    spec fn found(&self, data: Seq<u8>) -> Seq<Attachment>;

    fn scan(&self, data: &[u8]) -> (r: Vec<Attachment>)
        ensures
            r@ == self.found(data@),
    ;
}

/// Recovers a drawing from a coded page, when the adapter understands the
/// page's storage format. What it recovers depends on what it is given alone.
pub trait PageDecoder {
    spec fn page_drawing(&self, data: Seq<u8>, page: PageModel) -> Option<MetafileModel>;

    spec fn document_drawing(
        &self,
        data: Seq<u8>,
        page: PageModel,
        document: DocumentModel,
    ) -> Option<MetafileModel>;

    spec fn overlay_drawing(&self, overlay: OverlayModel, paper: (u32, u32)) -> Option<
        MetafileModel,
    >;

    fn decode(&self, data: &[u8], page: &Page) -> (r: Option<Metafile>)
        ensures
            same_drawing(r, self.page_drawing(data@, page@)),
    ;

    /// Recovers a page when its neighbouring entries are needed to complete an
    /// old storage form.
    fn decode_with_document(&self, data: &[u8], page: &Page, document: &Document) -> (r: Option<
        Metafile,
    >)
        ensures
            same_drawing(r, self.document_drawing(data@, page@, document@)),
    ;

    /// Recovers the drawing laid over a page. `paper` is the page's paper in
    /// hundredths of a millimetre, for overlays that cover the whole page.
    fn decode_overlay(&self, overlay: &Overlay, paper: (u32, u32)) -> (r: Option<Metafile>)
        ensures
            same_drawing(r, self.overlay_drawing(overlay@, paper)),
    ;
}

} // verus!
