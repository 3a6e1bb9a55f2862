//! Checks of the private key file.

use vstd::prelude::*;

use crate::error::{ErrorView, StrawsError};
use crate::text;

verus! {

/// What was found at the path of a key.
#[derive(Debug)]
pub enum KeyFile {
    /// Nothing.
    Missing,
    /// Something that is no file.
    NotAFile,
    /// A file that cannot be looked at.
    Unreadable(String),
    /// A file with this mode.
    Mode(u32),
}

/// What is wrong with a key file, if anything: only its owner may have access to it.
pub open spec fn key_fault(path: Seq<char>, found: KeyFile) -> Option<Seq<char>> {
    match found {
        KeyFile::Missing => Some("SSH key file not found: "@ + path),
        KeyFile::NotAFile => Some("SSH key path is not a file: "@ + path),
        KeyFile::Unreadable(m) => Some("Cannot read SSH key file "@ + path + ": "@ + m@),
        KeyFile::Mode(mode) => if (mode & 0o777u32) & 0o077u32 != 0 {
            Some(
                "SSH key file "@ + path + " has insecure permissions "@ + text::octal_text(
                    (mode & 0o777u32) as nat,
                ) + ". Should be 600 or 400."@,
            )
        } else {
            None
        },
    }
}

/// Checks a key file.
pub fn validate_key_file(path: &str, found: KeyFile) -> (r: Result<(), StrawsError>)
    ensures
        match key_fault(path@, found) {
            None => r is Ok,
            Some(m) => r matches Err(e) && e@ == ErrorView::Config(m),
        },
{
    match found {
        KeyFile::Missing => Err(
            StrawsError::Config(text::cat("SSH key file not found: ", path)),
        ),
        KeyFile::NotAFile => Err(
            StrawsError::Config(text::cat("SSH key path is not a file: ", path)),
        ),
        KeyFile::Unreadable(m) => Err(
            StrawsError::Config(text::cat4("Cannot read SSH key file ", path, ": ", m.as_str())),
        ),
        KeyFile::Mode(full) => {
            let mode: u32 = full & 0o777u32;
            if mode & 0o077u32 != 0 {
                Err(
                    StrawsError::Config(
                        text::cat5(
                            "SSH key file ",
                            path,
                            " has insecure permissions ",
                            text::octal(mode).as_str(),
                            ". Should be 600 or 400.",
                        ),
                    ),
                )
            } else {
                Ok(())
            }
        },
    }
}

/// A key that nobody but its owner may read or write passes, whatever else its mode says.
pub proof fn lemma_private_keys_pass(path: Seq<char>, mode: u32)
    requires
        mode & 0o777u32 == 0o600u32 || mode & 0o777u32 == 0o400u32,
    ensures
        key_fault(path, KeyFile::Mode(mode)) is None,
{
    assert(0o600u32 & 0o077u32 == 0) by (bit_vector);
    assert(0o400u32 & 0o077u32 == 0) by (bit_vector);
}

/// A key passes exactly if it is a file that can be read and that nobody but its owner has any
/// access to, whatever its owner may do.
pub proof fn lemma_only_private_keys_pass(
    path: &str,
    found: KeyFile,
    r: Result<(), StrawsError>,
    above: u32,
    user: u32,
    group: u32,
    others: u32,
)
    requires
        above <= 0x7f_ffff,
        user <= 7,
        group <= 7,
        others <= 7,
        call_ensures(validate_key_file, (path, found), r),
    ensures
        found is Missing || found is NotAFile || found is Unreadable ==> r is Err,
        found == KeyFile::Mode((above << 9) | (user << 6) | (group << 3) | others) ==> (r is Ok
            <==> group == 0 && others == 0),
        r is Err ==> r->Err_0@ is Config,
{
    let mode = (above << 9) | (user << 6) | (group << 3) | others;
    assert((((above << 9) | (user << 6) | (group << 3) | others) & 0o777u32) & 0o077u32 == 0
        <==> group == 0 && others == 0) by (bit_vector)
        requires
            above <= 0x7f_ffff,
            user <= 7,
            group <= 7,
            others <= 7,
    ;
}

} // verus!
