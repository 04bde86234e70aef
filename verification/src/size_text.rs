//! Byte counts as people read them.

use vstd::prelude::*;

verus! {

/// The text that the `humansize` crate writes for `size` bytes with binary
/// units, such as `1.50 KiB`.
pub uninterp spec fn binary_size_text(size: u64) -> Seq<char>;

/// `humansize::format_size` with the `BINARY` options: the text depends on the
/// number alone.
#[verifier::external_body]
fn humansize_binary(size: u64) -> (text: String)
    ensures
        text@ == binary_size_text(size),
{
    humansize::format_size(size, humansize::BINARY)
}

/// Writes a byte count with binary units.
pub fn format_file_size(size: u64) -> (text: String)
    ensures
        text@ == binary_size_text(size),
{
    humansize_binary(size)
}

} // verus!
