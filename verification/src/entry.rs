//! A snapshot of a filesystem subtree, held as plain values.

use vstd::prelude::*;

verus! {

/// What kind of filesystem item an entry stands for.
#[derive(Clone, Copy, Debug, PartialEq, Eq, Structural)]
pub enum EntryKind {
    File,
    Directory,
}

/// One line of a file's text, as far as it could be decoded.
#[derive(Debug, PartialEq, Eq)]
pub enum TextLine {
    /// The line, without its line terminator.
    Text(String),
    /// The line could not be read as text.
    Undecodable,
}

/// One filesystem item together with everything below it.
#[derive(Debug, PartialEq, Eq)]
pub struct Entry {
    /// The final component of the item's path; empty where the path has none.
    pub name: String,
    pub kind: EntryKind,
    /// Byte length, where the metadata could be read.
    pub size: Option<u64>,
    /// Modification time in seconds since 1970-01-01 00:00:00 UTC, where
    /// it could be read.
    pub modified: Option<u64>,
    /// Permission bits, where the metadata could be read.
    pub mode: Option<u32>,
    /// The leading lines of a file, where the file could be opened.
    pub content: Option<Vec<TextLine>>,
    /// The items directly inside a directory, in listing order. A
    /// directory that could not be listed has none.
    pub children: Vec<Entry>,
}

/// The bytes that `e` adds to the size of the directory holding it: the
/// whole subtree of a directory, the known length of a file.
pub open spec fn entry_bytes(e: Entry) -> nat
    decreases e, 1nat,
{
    match e.kind {
        EntryKind::Directory => directory_bytes(e),
        EntryKind::File => match e.size {
            Some(len) => len as nat,
            None => 0,
        },
    }
}

/// The summed length of every file below `dir`, however deep. Anything
/// that is not a directory has nothing below it.
pub open spec fn directory_bytes(dir: Entry) -> nat
    decreases dir, 0nat,
{
    match dir.kind {
        EntryKind::Directory => children_bytes(dir.children@, dir.children@.len()),
        EntryKind::File => 0,
    }
}

/// The bytes that the first `n` of `children` add up to.
pub open spec fn children_bytes(children: Seq<Entry>, n: nat) -> nat
    decreases children, n,
{
    if n == 0 || n > children.len() {
        0
    } else {
        children_bytes(children, (n - 1) as nat) + entry_bytes(children[n - 1])
    }
}

/// Every prefix of a listing weighs no more than a longer prefix, and no
/// child weighs more than a prefix that includes it.
pub proof fn lemma_children_bytes_monotonic(children: Seq<Entry>, i: nat, n: nat)
    requires
        i <= n <= children.len(),
    ensures
        children_bytes(children, i) <= children_bytes(children, n),
        i < n ==> children_bytes(children, i) + entry_bytes(children[i as int]) <= children_bytes(
            children,
            n,
        ),
    decreases n,
{
    if i < n {
        lemma_children_bytes_monotonic(children, i, (n - 1) as nat);
    }
}

/// Sums the lengths of all files below `dir`.
pub fn get_directory_size(dir: &Entry) -> (total: u64)
    requires
        directory_bytes(*dir) <= u64::MAX,
    ensures
        total == directory_bytes(*dir),
    decreases *dir,
{
    let mut total: u64 = 0;
    match dir.kind {
        EntryKind::File => {},
        EntryKind::Directory => {
            let mut i: usize = 0;
            while i < dir.children.len()
                invariant
                    i <= dir.children@.len(),
                    dir.kind is Directory,
                    directory_bytes(*dir) <= u64::MAX,
                    total == children_bytes(dir.children@, i as nat),
                decreases dir.children@.len() - i,
            {
                proof {
                    lemma_children_bytes_monotonic(
                        dir.children@,
                        i as nat,
                        dir.children@.len(),
                    );
                }
                let child = &dir.children[i];
                let bytes = match child.kind {
                    EntryKind::Directory => get_directory_size(child),
                    EntryKind::File => match child.size {
                        Some(len) => len,
                        None => 0,
                    },
                };
                total = total + bytes;
                i = i + 1;
            }
        },
    }
    total
}

/// Sums the lengths of all files below `dir`, or reports that the sum
/// does not fit.
pub fn checked_directory_size(dir: &Entry) -> (total: Option<u64>)
    ensures
        total == if directory_bytes(*dir) <= u64::MAX {
            Some(directory_bytes(*dir) as u64)
        } else {
            None
        },
    decreases *dir,
{
    let mut total: u64 = 0;
    match dir.kind {
        EntryKind::File => {},
        EntryKind::Directory => {
            let mut i: usize = 0;
            while i < dir.children.len()
                invariant
                    i <= dir.children@.len(),
                    dir.kind is Directory,
                    total == children_bytes(dir.children@, i as nat),
                decreases dir.children@.len() - i,
            {
                proof {
                    lemma_children_bytes_monotonic(
                        dir.children@,
                        i as nat,
                        dir.children@.len(),
                    );
                }
                let child = &dir.children[i];
                let bytes = match child.kind {
                    EntryKind::Directory => match checked_directory_size(child) {
                        Some(below) => below,
                        None => {
                            return None;
                        },
                    },
                    EntryKind::File => match child.size {
                        Some(len) => len,
                        None => 0,
                    },
                };
                if bytes > u64::MAX - total {
                    return None;
                }
                total = total + bytes;
                i = i + 1;
            }
        },
    }
    Some(total)
}

} // verus!
