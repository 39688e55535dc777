//! Readers and writers of the byte formats.
pub mod advances;
pub mod attachment_laws;
pub mod attachments;
pub mod bitmap_laws;
pub mod bitseq;
pub mod canvas_laws;
pub mod ccitt;
pub mod ccitt_coding;
pub mod ccitt_laws;
pub mod ccitt_words;
pub mod comments;
pub mod cp932;
pub mod deflate;
pub mod dib;
pub mod dib_laws;
pub mod emf;
pub mod gdi;
pub mod gdi_laws;
pub mod jpeg;
pub mod lzh;
pub mod lzh_laws;
pub mod octets;
pub mod picture_laws;
pub mod png;
pub mod point_laws;
pub mod points;
pub mod record_laws;
pub mod recovery;
pub mod slot_laws;
pub mod spelling;
pub mod tlv;
pub mod ttf;
pub mod ttf_laws;
pub mod text_laws;
pub mod utf16;
pub mod wmf;
pub mod wmf_laws;
pub mod writing;
pub mod xdw;
pub mod xdw_document;
pub mod xdw_layout;
pub mod xdw_page;
pub mod xdw_properties;
pub mod xdw_roles;

pub use attachments::MagicAttachmentScanner;
pub use recovery::LzhMetafileDecoder;
pub use xdw::XdwDocumentParser;
