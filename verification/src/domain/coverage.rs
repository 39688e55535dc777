//! What is and is not recoverable from a document, in numbers.
use vstd::prelude::*;

verus! {

/// A count of what is and is not recoverable from a document.
#[derive(Debug, Clone, Copy, PartialEq, Eq, Structural)]
pub struct Coverage {
    /// Sheets of the document. This is its real length.
    pub sheets: usize,
    /// Sheets whose own image could be written out or decoded.
    pub sheets_recovered: usize,
    /// Pictures placed on those sheets.
    pub pictures: usize,
    /// Pictures that could be written out.
    pub pictures_recovered: usize,
    /// Thumbnail entries, which are not content.
    pub thumbnails: usize,
    /// Data entries that are not pages.
    pub data_tables: usize,
    /// Sheets that carry at least one recoverable picture.
    pub sheets_with_pictures: usize,
    /// Sheets that come out completely empty: the sheet itself is in the
    /// vendor's coding and it carries no recoverable artwork either.
    pub sheets_blank: usize,
}

impl Coverage {
    /// Every sheet can be reproduced.
    pub fn is_complete(&self) -> (r: bool)
        ensures
            r == (self.sheets > 0 && self.sheets_recovered == self.sheets),
    {
        self.sheets > 0 && self.sheets_recovered == self.sheets
    }

    /// Sheets whose image is in the vendor's coding.
    pub fn printer_derived(&self) -> (n: usize)
        ensures
            n == (if self.sheets > self.sheets_recovered {
                self.sheets - self.sheets_recovered
            } else {
                0
            }),
    {
        self.sheets.saturating_sub(self.sheets_recovered)
    }

    /// Share of the pictures actually written out, as how many of how many;
    /// none where there are no pictures.
    pub fn recovery_of_pictures(&self) -> (r: Option<(usize, usize)>)
        ensures
            r == (if self.pictures > 0 {
                Some((self.pictures_recovered, self.pictures))
            } else {
                None::<(usize, usize)>
            }),
    {
        if self.pictures > 0 {
            Some((self.pictures_recovered, self.pictures))
        } else {
            None
        }
    }
}

} // verus!
