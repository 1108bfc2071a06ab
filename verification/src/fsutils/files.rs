//! A tree of files held in memory, on which plans can be tried out.

use vstd::prelude::*;
use vstd::hash_map::StringHashMap;
use crate::entry::{listing, Entry, Item};
use crate::error::TreeEditError;
use crate::fsutils::fsop::Tree;
use crate::listing::{has_path, holds, lemma_pos, paths_unique, pos, state_of};
use crate::validate::validate_unique_paths;

verus! {

/// Adding an entry with a path that a listing lacks adds that path to its
/// tree.
pub proof fn lemma_state_push(l: Seq<Item>, item: Item)
    requires
        paths_unique(l),
        !has_path(l, item.path),
    ensures
        paths_unique(l.push(item)),
        state_of(l.push(item)) == state_of(l).insert(item.path, item.id),
{
    let l2 = l.push(item);
    assert forall|p: Seq<char>| #[trigger]
        state_of(l2).contains_key(p) <==> state_of(l).insert(item.path, item.id).contains_key(
            p,
        ) by {
        if pos(l).contains_key(p) {
            assert(l2[pos(l)[p]].path == p);
        }
        if p == item.path {
            assert(l2[l.len() as int].path == p);
        }
    }
}

/// Whether two contents are the same.
fn same_content(a: Option<u64>, b: Option<u64>) -> (same: bool)
    ensures
        same == (a == b),
{
    match (a, b) {
        (Some(x), Some(y)) => x == y,
        (None, None) => true,
        _ => false,
    }
}

/// A tree of files in memory: for each live path, the identifier of the
/// content stored there, or none for a file that was created empty.
pub struct Files {
    files: StringHashMap<Option<u64>>,
}

impl View for Files {
    type V = Tree;

    closed spec fn view(&self) -> Tree {
        self.files@
    }
}

impl Files {
    /// Whether the tree is well formed: it has finitely many files. Every
    /// tree that this module hands out is.
    pub closed spec fn wf(&self) -> bool {
        self.files@.dom().finite()
    }

    /// The tree that `entries` describes. A path that occurs twice is
    /// refused, with the error of `validate_unique_paths`.
    pub fn from_entries(entries: Vec<Entry>) -> (result: Result<Files, TreeEditError>)
        ensures
            result is Ok <==> paths_unique(listing(entries@)),
            result matches Ok(files) ==> files.wf() && files@ == state_of(listing(entries@)),
            result matches Err(error) ==> error is DuplicatePath,
    {
        let ghost l = listing(entries@);
        match validate_unique_paths(&entries) {
            Ok(_) => {
                let mut files: StringHashMap<Option<u64>> = StringHashMap::new();
                let mut i: usize = 0;
                proof {
                    lemma_size(l.take(0));
                }
                while i < entries.len()
                    invariant
                        i <= entries.len(),
                        l == listing(entries@),
                        paths_unique(l),
                        files@ == state_of(l.take(i as int)),
                        files@.dom().finite(),
                    decreases entries.len() - i,
                {
                    proof {
                        let head = l.take(i as int);
                        lemma_state_push(head, l[i as int]);
                        assert(head.push(l[i as int]) =~= l.take(i + 1));
                    }
                    files.insert(entries[i].path.clone(), entries[i].id);
                    i += 1;
                }
                proof {
                    assert(l.take(l.len() as int) =~= l);
                }
                Ok(Files { files })
            },
            Err(error) => {
                proof {
                    crate::validate::lemma_no_repeat(l);
                }
                Err(error)
            },
        }
    }

    /// Whether a file lives at `path`.
    pub fn contains(&self, path: &String) -> (found: bool)
        requires
            self.wf(),
        ensures
            found == self@.contains_key(path@),
    {
        self.files.contains_key(path.as_str())
    }

    /// The content at `path`, where a file lives there.
    pub fn get(&self, path: &String) -> (content: Option<Option<u64>>)
        requires
            self.wf(),
        ensures
            content == if self@.contains_key(path@) {
                Some(self@[path@])
            } else {
                None
            },
    {
        match self.files.get(path.as_str()) {
            Some(content) => Some(*content),
            None => None,
        }
    }

    /// The number of files.
    pub fn len(&self) -> (count: usize)
        requires
            self.wf(),
        ensures
            count == self@.len(),
            self@.dom().finite(),
    {
        self.files.len()
    }

    /// Whether the tree is the one that `entries` describes.
    pub fn matches(&self, entries: &Vec<Entry>) -> (same: bool)
        requires
            self.wf(),
            paths_unique(listing(entries@)),
        ensures
            same == (self@ == state_of(listing(entries@))),
    {
        let ghost l = listing(entries@);
        proof {
            lemma_size(l);
        }
        if self.len() != entries.len() {
            return false;
        }
        let mut i: usize = 0;
        while i < entries.len()
            invariant
                i <= entries.len(),
                self.wf(),
                l == listing(entries@),
                paths_unique(l),
                forall|j: int| 0 <= j < i ==> holds(self@, #[trigger] l[j]),
            decreases entries.len() - i,
        {
            let entry = &entries[i];
            match self.get(&entry.path) {
                Some(content) => {
                    if !same_content(content, entry.id) {
                        proof {
                            lemma_pos(l);
                            assert(holds(state_of(l), l[i as int]));
                        }
                        return false;
                    }
                },
                None => {
                    proof {
                        lemma_pos(l);
                    }
                    return false;
                },
            }
            i += 1;
        }
        proof {
            lemma_pos(l);
            vstd::set_lib::lemma_subset_equality(state_of(l).dom(), self@.dom());
            assert(self@ =~= state_of(l));
        }
        true
    }

    /// Puts a file with the given content at `path`, which must be free.
    pub fn put(&mut self, path: String, content: Option<u64>)
        requires
            old(self).wf(),
            !old(self)@.contains_key(path@),
        ensures
            final(self).wf(),
            final(self)@ == old(self)@.insert(path@, content),
    {
        self.files.insert(path, content);
    }

    /// Takes the file at `path` out of the tree and returns its content.
    pub fn take(&mut self, path: &String) -> (content: Option<u64>)
        requires
            old(self).wf(),
            old(self)@.contains_key(path@),
        ensures
            final(self).wf(),
            final(self)@ == old(self)@.remove(path@),
            content == old(self)@[path@],
    {
        let content = match self.files.get(path.as_str()) {
            Some(content) => *content,
            None => None,
        };
        self.files.remove(path.as_str());
        content
    }
}

/// A listing with unique paths has as many paths as entries.
pub proof fn lemma_size(l: Seq<Item>)
    requires
        paths_unique(l),
    ensures
        state_of(l).dom().finite(),
        state_of(l).len() == l.len(),
    decreases l.len(),
{
    if l.len() == 0 {
        assert(state_of(l).dom() =~= Set::empty());
    } else {
        let r = l.drop_last();
        lemma_size(r);
        lemma_state_push(r, l.last());
        assert(r.push(l.last()) =~= l);
    }
}

} // verus!
