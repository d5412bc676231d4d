//! Finder colour labels for the output folders.

use vstd::prelude::*;

verus! {

#[derive(Debug, Clone, Copy, PartialEq, Eq, Structural)]
pub enum FolderColor {
    Green,
    Red,
}

/// The Finder user-tag entry (name and colour index) for `color`.
pub fn tag_label(color: FolderColor) -> (s: &'static str)
    ensures
        s@ == match color {
            FolderColor::Green => "Green\n2"@,
            FolderColor::Red => "Red\n6"@,
        },
{
    match color {
        FolderColor::Green => "Green\n2",
        FolderColor::Red => "Red\n6",
    }
}

} // verus!
