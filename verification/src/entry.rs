//! Entries of a listing and their mathematical model.

use vstd::prelude::*;

verus! {

/// One line of a listing: a path, and the identifier of the existing file
/// whose content the path holds. An entry without an identifier stands for a
/// new, empty file.
#[derive(Debug, Clone, PartialEq, Eq)]
pub struct Entry {
    pub id: Option<u64>,
    pub path: String,
}

/// The model of an [`Entry`]: the same pair, with the path as a sequence of
/// characters.
pub struct Item {
    pub id: Option<u64>,
    pub path: Seq<char>,
}

impl View for Entry {
    type V = Item;

    open spec fn view(&self) -> Item {
        Item { id: self.id, path: self.path@ }
    }
}

impl Entry {
    /// An entry with the given identifier and path.
    pub fn new(id: Option<u64>, path: String) -> (entry: Entry)
        ensures
            entry.id == id,
            entry.path == path,
    {
        Entry { id, path }
    }
}

/// The model of a listing: the models of its entries, in order.
pub open spec fn listing(entries: Seq<Entry>) -> Seq<Item> {
    Seq::new(entries.len(), |i: int| entries[i]@)
}

/// A copy of `entries`.
pub fn copy_entries(entries: &Vec<Entry>) -> (copy: Vec<Entry>)
    ensures
        listing(copy@) == listing(entries@),
{
    let mut copy: Vec<Entry> = Vec::new();
    let mut i: usize = 0;
    while i < entries.len()
        invariant
            i <= entries.len(),
            copy.len() == i,
            forall|j: int| 0 <= j < i ==> (#[trigger] copy[j])@ == entries[j]@,
        decreases entries.len() - i,
    {
        let entry = &entries[i];
        copy.push(Entry { id: entry.id, path: entry.path.clone() });
        i += 1;
    }
    copy
}

} // verus!
