//! A directory listing: its entries, their order, and the layout of a line.

use vstd::prelude::*;
use vstd::string::*;

pub mod order;
pub mod sorting;
pub mod stable;

verus! {

/// One entry of a directory: what a listing shows of it and sorts it by.
#[derive(Clone, Debug, PartialEq, Eq)]
pub struct Entry {
    /// The file name, as the bytes the operating system holds.
    pub name: Vec<u8>,
    /// The length of the file in bytes.
    pub size: u64,
    /// Whether the entry is itself a directory.
    pub is_dir: bool,
}

/// The width of each column of a listing, in characters.
pub const COLUMN_WIDTH: usize = 15;

/// `text`, followed by the spaces it lacks to be `width` characters long.
pub open spec fn padded(text: Seq<char>, width: nat) -> Seq<char> {
    text + Seq::new(
        if text.len() < width {
            (width - text.len()) as nat
        } else {
            0
        },
        |i: int| ' ',
    )
}

/// How a listing writes the directory flag.
pub open spec fn flag_text(is_dir: bool) -> Seq<char> {
    if is_dir {
        "true"@
    } else {
        "false"@
    }
}

/// One line of a listing: name, directory flag and size, each padded to the
/// column width, with one space between columns.
pub open spec fn row_text(name: Seq<char>, is_dir: bool, size: Seq<char>) -> Seq<char> {
    padded(name, COLUMN_WIDTH as nat) + seq![' '] + padded(flag_text(is_dir), COLUMN_WIDTH as nat)
        + seq![' '] + padded(size, COLUMN_WIDTH as nat)
}

/// Appends `text` to `line`, then pads the column with spaces to `width` characters.
fn push_column(line: &mut String, text: &str, width: usize)
    ensures
        final(line)@ == old(line)@ + padded(text@, width as nat),
{
    let ghost start = line@;
    line.append(text);
    let mut filled = text.unicode_len();
    while filled < width
        invariant
            text@.len() <= filled,
            filled <= width || filled == text@.len(),
            line@ == start + (text@ + Seq::new((filled - text@.len()) as nat, |i: int| ' ')),
        decreases width - filled,
    {
        line.append(" ");
        proof {
            reveal_strlit(" ");
        }
        filled = filled + 1;
    }
}

/// Writes one line of a listing from the name of an entry, its directory flag
/// and the text that stands for its size.
pub fn format_row(name: &str, is_dir: bool, size: &str) -> (row: String)
    ensures
        row@ == row_text(name@, is_dir, size@),
{
    let mut row = String::new();
    push_column(&mut row, name, COLUMN_WIDTH);
    row.append(" ");
    push_column(&mut row, if is_dir { "true" } else { "false" }, COLUMN_WIDTH);
    row.append(" ");
    push_column(&mut row, size, COLUMN_WIDTH);
    proof {
        reveal_strlit(" ");
    }
    row
}

} // verus!
