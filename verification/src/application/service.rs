//! The document-level application service.
use crate::application::ports::{
    same_document, AttachmentScanner, DocumentParser, DocumentReader, PageDecoder,
};
use crate::application::recovery::{coverage, decoded_coverage};
use crate::domain::attachment::Attachment;
use crate::domain::coverage::Coverage;
use crate::domain::document::{Document, DocumentModel};
use crate::domain::policy::{classify, verdict_of, Verdict};
use crate::error::Error;
use vstd::prelude::*;

verus! {

/// Octets and the parsed document that belong together throughout a use case.
#[derive(Debug, Clone)]
pub struct DocumentAsset {
    pub data: Vec<u8>,
    pub document: Document,
}

/// Facts calculated once for a document and shared by whatever presents them.
#[derive(Debug, Clone)]
pub struct Analysis {
    pub coverage: Coverage,
    pub attachments: Vec<Attachment>,
    pub verdict: Verdict,
}

/// Coordinates document use cases while keeping concrete adapters out of the
/// application layer.
#[derive(Debug, Clone)]
pub struct SalvageService<R, P, A, D> {
    pub reader: R,
    pub parser: P,
    pub scanner: A,
    pub page_decoder: D,
}

impl<R, P, A, D> SalvageService<R, P, A, D> where
    R: DocumentReader,
    P: DocumentParser,
    A: AttachmentScanner,
    D: PageDecoder,
 {
    pub fn new(reader: R, parser: P, attachments: A, decoder: D) -> (s: Self)
        ensures
            s.reader == reader,
            s.parser == parser,
            s.scanner == attachments,
            s.page_decoder == decoder,
    {
        SalvageService { reader, parser, scanner: attachments, page_decoder: decoder }
    }

    /// Opens a document through the configured reader and parser. What the
    /// reader delivers is parsed and kept together with what it holds; an error
    /// of either is handed on.
    pub fn open(&self, path: &str) -> (r: Result<DocumentAsset, Error>)
        ensures
            match r {
                Ok(asset) => call_ensures(
                    R::read,
                    (&self.reader, path),
                    Ok::<Vec<u8>, Error>(asset.data),
                ) && self.parser.parsed(asset.data@) == Ok::<_, Error>(asset.document@),
                Err(e) => call_ensures(R::read, (&self.reader, path), Err::<Vec<u8>, Error>(e))
                    || exists|d: Vec<u8>| #[trigger]
                    call_ensures(R::read, (&self.reader, path), Ok::<Vec<u8>, Error>(d))
                        && self.parser.parsed(d@) == Err::<DocumentModel, Error>(e),
            },
    {
        match self.reader.read(path) {
            Ok(data) => self.take(data),
            Err(e) => Err(e),
        }
    }

    /// Parses octets and keeps them together with the document they hold.
    pub fn take(&self, data: Vec<u8>) -> (r: Result<DocumentAsset, Error>)
        ensures
            match (r, self.parser.parsed(data@)) {
                (Ok(asset), Ok(m)) => asset.data == data && asset.document@ == m,
                (Err(a), Err(b)) => a == b,
                _ => false,
            },
    {
        match self.parser.parse(data.as_slice()) {
            Ok(document) => Ok(DocumentAsset { data, document }),
            Err(e) => Err(e),
        }
    }

    /// Parses octets supplied by a caller that already owns the input.
    pub fn parse(&self, data: &[u8]) -> (r: Result<Document, Error>)
        ensures
            same_document(r, self.parser.parsed(data@)),
    {
        self.parser.parse(data)
    }

    /// Runs the analysis once and returns all facts needed by reports.
    pub fn analyze(&self, asset: &DocumentAsset) -> (a: Analysis)
        ensures
            a.attachments@ == self.scanner.found(asset.data@),
            a.coverage == decoded_coverage(&self.page_decoder, asset.data@, asset.document),
            a.verdict == verdict_of(a.coverage, a.attachments@.len() > 0),
    {
        let attachments = self.scanner.scan(asset.data.as_slice());
        let coverage = coverage(asset.data.as_slice(), &asset.document, &self.page_decoder);
        let verdict = classify(coverage, attachments.len() > 0);
        Analysis { coverage, attachments, verdict }
    }

    pub fn attachments(&self, data: &[u8]) -> (r: Vec<Attachment>)
        ensures
            r@ == self.scanner.found(data@),
    {
        self.scanner.scan(data)
    }

    pub fn coverage(&self, data: &[u8], document: &Document) -> (c: Coverage)
        ensures
            c == decoded_coverage(&self.page_decoder, data@, *document),
    {
        coverage(data, document, &self.page_decoder)
    }

    pub fn verdict(&self, data: &[u8], document: &Document) -> (v: Verdict)
        ensures
            v == verdict_of(
                decoded_coverage(&self.page_decoder, data@, *document),
                self.scanner.found(data@).len() > 0,
            ),
    {
        let attachments = self.scanner.scan(data);
        classify(coverage(data, document, &self.page_decoder), attachments.len() > 0)
    }

    pub fn decoder(&self) -> (d: &D)
        ensures
            d == self.page_decoder,
    {
        &self.page_decoder
    }

    pub fn attachment_scanner(&self) -> (a: &A)
        ensures
            a == self.scanner,
    {
        &self.scanner
    }
}

} // verus!
