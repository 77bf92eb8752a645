//! Documents from word-processor files: an archive that holds the text as
//! markup.

use crate::document::loader::xml::XMLLoader;
use crate::document::loader::{
    loaded_view, Document, DocumentLoader, DocumentView, LoadError,
};
use vstd::prelude::*;
use vstd::string::StringSliceAdditionalSpecFns;

verus! {

/// The member of the archive that holds the text.
pub open spec fn document_member() -> Seq<char> {
    "word/document.xml"@
}

/// What the `zip` crate reads as the text of the member `name` of the archive
/// `bytes`; `None` where the bytes are no archive, the member is not there,
/// it cannot be opened without a password, or it holds no text.
pub uninterp spec fn zip_member(bytes: Seq<u8>, name: Seq<char>) -> Option<Seq<char>>;

/// The error of `zip`, carried through as it is: nothing is known of what it
/// holds.
#[verifier::external_type_specification]
#[verifier::external_body]
pub struct ExZipError(zip::result::ZipError);

/// Reads the member `name` of the archive `bytes` as text.
///
/// Trusted: `zip::ZipArchive::new` opens the archive over the bytes,
/// `by_name_decrypt` with the empty password finds the member and hands back
/// its refusal of a member that is encrypted otherwise, and the member is
/// read to its end as a string. The three calls are one reading, and the
/// contract only gives its result a name.
#[verifier::external_body]
pub(crate) fn read_member(bytes: &[u8], name: &str) -> (r: Result<
    Option<String>,
    zip::result::ZipError,
>)
    ensures
        match r {
            Ok(Some(text)) => zip_member(bytes@, name@) == Some(text@),
            Ok(None) => zip_member(bytes@, name@) is None,
            Err(_) => zip_member(bytes@, name@) is None,
        },
{
    let mut archive = zip::ZipArchive::new(std::io::Cursor::new(bytes))?;
    let mut member = match archive.by_name_decrypt(name, &[])? {
        Ok(member) => member,
        Err(_) => return Ok(None),
    };
    let mut text = String::new();
    std::io::Read::read_to_string(&mut member, &mut text)?;
    Ok(Some(text))
}

/// Loads word-processor files.
pub struct DocxLoader {}

/// The documents of the markup inside the archive `bytes`.
pub open spec fn load_bytes_spec(bytes: Seq<u8>) -> Result<Seq<DocumentView>, LoadError> {
    match zip_member(bytes, document_member()) {
        Some(markup) => (XMLLoader {}).load_mem_spec(markup),
        None => Err(LoadError::Archive),
    }
}

impl DocxLoader {
    /// Loads the documents of the archive `bytes`.
    pub fn load_bytes(&self, bytes: &[u8]) -> (r: Result<Vec<Document>, LoadError>)
        ensures
            loaded_view(r) == load_bytes_spec(bytes@),
    {
        match read_member(bytes, "word/document.xml") {
            Ok(Some(markup)) => {
                let loader = XMLLoader {};
                loader.load_mem(markup.as_str())
            },
            Ok(None) => Err(LoadError::Archive),
            Err(_) => Err(LoadError::Archive),
        }
    }
}

impl DocumentLoader for DocxLoader {
    /// The documents of the markup inside the archive whose bytes `mem` holds.
    open spec fn load_mem_spec(&self, mem: Seq<char>) -> Result<Seq<DocumentView>, LoadError> {
        load_bytes_spec(vstd::utf8::encode_utf8(mem))
    }

    fn load_mem(&self, mem: &str) -> (r: Result<Vec<Document>, LoadError>) {
        self.load_bytes(mem.as_bytes())
    }
}

} // verus!
