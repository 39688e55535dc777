//! Source files carried inside a document.
use crate::text::same_text;
use vstd::prelude::*;
use vstd::slice::slice_subrange;

verus! {

/// What kind of source file was found in a document.
#[derive(Debug, Clone, PartialEq, Eq)]
pub enum Kind {
    /// A ZIP container. `part` names the office format when known.
    Zip { part: Option<&'static str> },
    /// A compound file, as used by pre-2007 Office formats.
    CompoundFile,
    Pdf,
}

/// The file extension for a kind.
pub open spec fn extension_of(k: Kind) -> Seq<char> {
    match k {
        Kind::Zip { part: Some(e) } => e@,
        Kind::Zip { part: None } => "zip"@,
        Kind::CompoundFile => "cfb"@,
        Kind::Pdf => "pdf"@,
    }
}

/// What a kind is called.
pub open spec fn label_of(k: Kind) -> Seq<char> {
    match k {
        Kind::Zip { part: Some(e) } => if e@ == "docx"@ {
            "Word document"@
        } else if e@ == "xlsx"@ {
            "Excel workbook"@
        } else if e@ == "pptx"@ {
            "PowerPoint deck"@
        } else {
            "zip container"@
        },
        Kind::Zip { part: None } => "zip container"@,
        Kind::CompoundFile => "compound file (legacy Office)"@,
        Kind::Pdf => "PDF"@,
    }
}

impl Kind {
    pub fn extension(&self) -> (s: &'static str)
        ensures
            s@ == extension_of(*self),
    {
        match self {
            Kind::Zip { part: Some(e) } => e,
            Kind::Zip { part: None } => "zip",
            Kind::CompoundFile => "cfb",
            Kind::Pdf => "pdf",
        }
    }

    pub fn label(&self) -> (s: &'static str)
        ensures
            s@ == label_of(*self),
    {
        match self {
            Kind::Zip { part: Some(e) } => {
                if same_text(e, "docx") {
                    "Word document"
                } else if same_text(e, "xlsx") {
                    "Excel workbook"
                } else if same_text(e, "pptx") {
                    "PowerPoint deck"
                } else {
                    "zip container"
                }
            },
            Kind::Zip { part: None } => "zip container",
            Kind::CompoundFile => "compound file (legacy Office)",
            Kind::Pdf => "PDF",
        }
    }
}

/// A payload found inside the document.
#[derive(Debug, Clone, PartialEq, Eq)]
pub struct Attachment {
    pub offset: usize,
    pub len: usize,
    pub kind: Kind,
    /// True when the length came from a header field and may cover slack too.
    pub length_is_estimate: bool,
}

impl Attachment {
    /// The payload lies inside a buffer of `n` octets.
    pub open spec fn fits(self, n: nat) -> bool {
        self.offset + self.len <= n
    }

    pub fn bytes<'a>(&self, data: &'a [u8]) -> (b: &'a [u8])
        requires
            self.fits(data.len() as nat),
        ensures
            b@ == data@.subrange(self.offset as int, self.offset + self.len),
    {
        slice_subrange(data, self.offset, self.offset + self.len)
    }
}

} // verus!
