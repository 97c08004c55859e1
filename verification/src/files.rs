//! Checks on PDF files and document metadata, and the name of the PDFium
//! library per platform. Reading the files is the caller's part.

use vstd::prelude::*;
use crate::strings::{push_str, trim, trim_spec};

verus! {

/// Largest file accepted: 2 GiB.
pub const MAX_PDF_BYTES: u64 = 2147483648;

/// Whether a file of `size` bytes may be read as a PDF; the error names the
/// problem: an empty file, or one over 2 GiB.
pub fn check_pdf_size(path: &str, size: u64) -> (r: Result<(), String>)
    ensures
        r is Ok <==> (0 < size && size <= MAX_PDF_BYTES),
        size == 0 ==> (r matches Err(e) && e@ == "File is empty: "@ + path@),
        size > MAX_PDF_BYTES ==> (r matches Err(e) && e@ == "File is too large (> 2 GB)."@),
{
    if size == 0 {
        let mut e = String::new();
        push_str(&mut e, "File is empty: ");
        push_str(&mut e, path);
        return Err(e);
    }
    if size > MAX_PDF_BYTES {
        return Err(String::from_str("File is too large (> 2 GB)."));
    }
    Ok(())
}

/// The signature every PDF file starts with.
pub open spec fn pdf_signature() -> Seq<u8> {
    seq![0x25u8, 0x50u8, 0x44u8, 0x46u8]
}

/// Whether `bytes` start with `%PDF`.
pub fn has_pdf_header(bytes: &Vec<u8>) -> (b: bool)
    ensures
        b == (bytes@.len() >= 4 && bytes@.subrange(0, 4) == pdf_signature()),
{
    if bytes.len() < 4 {
        return false;
    }
    let ok = bytes[0] == 0x25 && bytes[1] == 0x50 && bytes[2] == 0x44 && bytes[3] == 0x46;
    proof {
        if ok {
            assert(bytes@.subrange(0, 4) =~= pdf_signature());
        } else {
            if bytes@.subrange(0, 4) == pdf_signature() {
                assert(bytes@.subrange(0, 4)[0] == bytes@[0]);
                assert(bytes@.subrange(0, 4)[1] == bytes@[1]);
                assert(bytes@.subrange(0, 4)[2] == bytes@[2]);
                assert(bytes@.subrange(0, 4)[3] == bytes@[3]);
            }
        }
    }
    ok
}

/// A metadata value as shown: trimmed, and absent when nothing is left.
pub open spec fn meta_value(v: Seq<char>) -> Option<Seq<char>> {
    if trim_spec(v).len() == 0 {
        None
    } else {
        Some(trim_spec(v))
    }
}

/// Trim a metadata value; `None` when it is blank.
pub fn clean_meta(value: &str) -> (r: Option<String>)
    ensures
        crate::report::opt_text(r) == meta_value(value@),
{
    let t = trim(value);
    if t.as_str().is_empty() {
        None
    } else {
        Some(t)
    }
}

/// The platforms the application ships a PDFium library for.
#[derive(Debug, Clone, Copy, PartialEq, Eq, Structural)]
pub enum Platform {
    Windows,
    MacOs,
    Linux,
}

/// File name of the PDFium shared library on a platform.
pub fn pdfium_lib_filename(p: Platform) -> (name: &'static str)
    ensures
        name@ == match p {
            Platform::Windows => "pdfium.dll"@,
            Platform::MacOs => "libpdfium.dylib"@,
            Platform::Linux => "libpdfium.so"@,
        },
{
    match p {
        Platform::Windows => "pdfium.dll",
        Platform::MacOs => "libpdfium.dylib",
        Platform::Linux => "libpdfium.so",
    }
}

} // verus!
