//! Everything that can go wrong while reading a container.
use crate::text::{push_decimal, push_hex2};
use vstd::prelude::*;
use vstd::string::*;

verus! {

/// Everything that can go wrong while reading a DocuWorks container.
#[derive(Debug)]
pub enum Error {
    /// A length field claims more bytes than the buffer holds.
    Truncated { at: usize, tag: u8 },
    /// A length field uses an encoding this reader refuses (too many length
    /// octets, or the indefinite form, which the format never uses).
    BadLength { at: usize },
    /// The file does not start with a container header element.
    NoFileHeader,
    /// The file is not a DocuWorks container but is something this library
    /// recognises: an archive being migrated collects files whose extension
    /// lies.
    NotAContainer { looks_like: &'static str },
    /// The trailer could not be located by walking back from the end.
    NoTrailer,
    /// A required field was absent from an element.
    MissingField { tag: u8, in_tag: u8 },
    /// The container format generation is outside what this library reads.
    UnsupportedGeneration(u32),
    /// The document is password protected; its access control is not bypassed.
    ProtectedDocument,
    /// A coded stream ended before it had produced the length the container
    /// declared for it.
    CodingTruncated { at: usize },
    /// A coded stream's Huffman table is not usable.
    CodingBadTable,
    /// A match in a coded stream points before the start of the output.
    CodingBadDistance,
    /// A coded stream declares an expanded length past anything plausible.
    CodingAbsurdLength { len: usize },
    /// Reading or writing failed outside the library; the text says how.
    Io(String),
}

/// What a person is told about an error.
pub open spec fn message(e: Error) -> Seq<char> {
    match e {
        Error::CodingTruncated { at } => "coded stream ends at bit "@ + crate::text::decimal(
            at as nat,
        ) + " before it is complete"@,
        Error::CodingBadTable => "coded stream has an unusable code table"@,
        Error::CodingBadDistance => "coded stream copies from before the start of the page"@,
        Error::CodingAbsurdLength { len } => "coded stream claims to expand to "@
            + crate::text::decimal(len as nat) + " bytes"@,
        Error::Truncated { at, tag } => "element 0x"@ + crate::text::padded(
            crate::text::hexadecimal(tag as nat),
            2,
            '0',
        ) + " at offset "@ + crate::text::decimal(at as nat) + " runs past end of file"@,
        Error::BadLength { at } => "unreadable length field at offset "@ + crate::text::decimal(
            at as nat,
        ),
        Error::NoFileHeader => "no container header at offset 0"@,
        Error::NotAContainer { looks_like } => "not a DocuWorks container; the contents are "@
            + looks_like@,
        Error::NoTrailer => "no trailer found at end of file"@,
        Error::MissingField { tag, in_tag } => "field 0x"@ + crate::text::padded(
            crate::text::hexadecimal(tag as nat),
            2,
            '0',
        ) + " missing from element 0x"@ + crate::text::padded(
            crate::text::hexadecimal(in_tag as nat),
            2,
            '0',
        ),
        Error::UnsupportedGeneration(v) => "container generation "@ + crate::text::decimal(
            v as nat,
        ) + " is not supported (protected or signed documents use a later generation; this crate does not read them)"@,
        Error::ProtectedDocument => "the document is password protected; this crate does not read it"@,
        Error::Io(e) => "io error: "@ + e@,
    }
}

impl Error {
    /// The error as a sentence fragment for a log or a terminal.
    pub fn describe(&self) -> (s: String)
        ensures
            s@ == message(*self),
    {
        let mut s = String::new();
        match self {
            Error::CodingTruncated { at } => {
                s.append("coded stream ends at bit ");
                push_decimal(&mut s, *at as u64);
                s.append(" before it is complete");
            },
            Error::CodingBadTable => s.append("coded stream has an unusable code table"),
            Error::CodingBadDistance => s.append(
                "coded stream copies from before the start of the page",
            ),
            Error::CodingAbsurdLength { len } => {
                s.append("coded stream claims to expand to ");
                push_decimal(&mut s, *len as u64);
                s.append(" bytes");
            },
            Error::Truncated { at, tag } => {
                s.append("element 0x");
                push_hex2(&mut s, *tag);
                s.append(" at offset ");
                push_decimal(&mut s, *at as u64);
                s.append(" runs past end of file");
            },
            Error::BadLength { at } => {
                s.append("unreadable length field at offset ");
                push_decimal(&mut s, *at as u64);
            },
            Error::NoFileHeader => s.append("no container header at offset 0"),
            Error::NotAContainer { looks_like } => {
                s.append("not a DocuWorks container; the contents are ");
                s.append(looks_like);
            },
            Error::NoTrailer => s.append("no trailer found at end of file"),
            Error::MissingField { tag, in_tag } => {
                s.append("field 0x");
                push_hex2(&mut s, *tag);
                s.append(" missing from element 0x");
                push_hex2(&mut s, *in_tag);
            },
            Error::UnsupportedGeneration(v) => {
                s.append("container generation ");
                push_decimal(&mut s, *v as u64);
                s.append(
                    " is not supported (protected or signed documents use a later generation; this crate does not read them)",
                );
            },
            Error::ProtectedDocument => s.append(
                "the document is password protected; this crate does not read it",
            ),
            Error::Io(e) => {
                s.append("io error: ");
                s.append(e.as_str());
            },
        }
        assert(s@ =~= message(*self));
        s
    }
}

} // verus!
