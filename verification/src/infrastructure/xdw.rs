//! The parser of the container as an adapter.
use crate::application::ports::DocumentParser;
use crate::domain::document::{Document, DocumentModel};
use crate::error::Error;
use crate::infrastructure::xdw_document::{document_of, parse};
use vstd::prelude::*;

verus! {

/// Reads documents out of containers.
#[derive(Debug, Clone, Copy)]
pub struct XdwDocumentParser;

impl DocumentParser for XdwDocumentParser {
    open spec fn parsed(&self, data: Seq<u8>) -> Result<DocumentModel, Error> {
        document_of(data)
    }

    fn parse(&self, data: &[u8]) -> (r: Result<Document, Error>) {
        parse(data)
    }
}

} // verus!
