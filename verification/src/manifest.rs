//! The typed manifest model and its mathematical view.

use vstd::prelude::*;

verus! {

/// A parsed filesystem selection manifest.
#[derive(Debug, PartialEq, Eq)]
pub struct Manifest {
    pub entries: Vec<Entry>,
}

/// A single selection directive in a filesystem selection manifest.
#[derive(Debug, PartialEq, Eq)]
pub enum Entry {
    Include { path: String },
    Exclude { path: String },
    IncludeChildren,
    IncludeRecursive,
    IncludeRecursiveAll,
    Descend { path: String, entries: Vec<Entry> },
}

/// The mathematical value of a directive: names are held as their UTF-8 bytes.
pub enum Directive {
    Include(Seq<u8>),
    Exclude(Seq<u8>),
    Children,
    Recursive,
    RecursiveAll,
    Descend(Seq<u8>, Seq<Directive>),
}

/// The UTF-8 bytes of a string.
pub open spec fn utf8_of(s: String) -> Seq<u8> {
    vstd::utf8::encode_utf8(s@)
}

impl Entry {
    pub open spec fn directive(self) -> Directive
        decreases self,
    {
        match self {
            Entry::Include { path } => Directive::Include(utf8_of(path)),
            Entry::Exclude { path } => Directive::Exclude(utf8_of(path)),
            Entry::IncludeChildren => Directive::Children,
            Entry::IncludeRecursive => Directive::Recursive,
            Entry::IncludeRecursiveAll => Directive::RecursiveAll,
            Entry::Descend { path, entries } => Directive::Descend(
                utf8_of(path),
                Seq::new(
                    entries.len() as nat,
                    |i: int|
                        if 0 <= i < entries.len() {
                            entries@[i].directive()
                        } else {
                            Directive::Children
                        },
                ),
            ),
        }
    }
}

impl View for Entry {
    type V = Directive;

    open spec fn view(&self) -> Directive {
        self.directive()
    }
}

/// The directives of a sequence of entries.
pub open spec fn directives_of(entries: Seq<Entry>) -> Seq<Directive> {
    Seq::new(entries.len(), |i: int| entries[i]@)
}

impl View for Manifest {
    type V = Seq<Directive>;

    open spec fn view(&self) -> Seq<Directive> {
        directives_of(self.entries@)
    }
}

/// A copy of a directive.
pub fn copy_entry(e: &Entry) -> (r: Entry)
    ensures
        r@ == e@,
    decreases e,
{
    match e {
        Entry::Include { path } => Entry::Include { path: path.clone() },
        Entry::Exclude { path } => Entry::Exclude { path: path.clone() },
        Entry::IncludeChildren => Entry::IncludeChildren,
        Entry::IncludeRecursive => Entry::IncludeRecursive,
        Entry::IncludeRecursiveAll => Entry::IncludeRecursiveAll,
        Entry::Descend { path, entries } => {
            let copied = copy_entries(entries);
            let r = Entry::Descend { path: path.clone(), entries: copied };
            proof {
                let a = r@->Descend_1;
                let b = e@->Descend_1;
                assert(directives_of(copied@).len() == copied@.len());
                assert(directives_of(entries@).len() == entries@.len());
                assert(copied@.len() == entries@.len());
                assert(a.len() == b.len());
                assert forall|k: int| 0 <= k < a.len() implies a[k] == b[k] by {
                    assert(directives_of(copied@)[k] == directives_of(entries@)[k]);
                }
                assert(a =~= b);
            }
            r
        },
    }
}

/// A copy of a list of directives.
pub fn copy_entries(v: &Vec<Entry>) -> (r: Vec<Entry>)
    ensures
        directives_of(r@) == directives_of(v@),
    decreases v,
{
    let mut r: Vec<Entry> = Vec::new();
    let mut i: usize = 0;
    while i < v.len()
        invariant
            i <= v@.len(),
            r@.len() == i,
            forall|k: int| 0 <= k < i ==> #[trigger] r@[k]@ == v@[k]@,
        decreases v@.len() - i,
    {
        proof {
            assert(decreases_to!(v => v@[i as int]));
        }
        let c = copy_entry(&v[i]);
        r.push(c);
        i = i + 1;
    }
    proof {
        assert(directives_of(r@) =~= directives_of(v@));
    }
    r
}

impl Clone for Entry {
    fn clone(&self) -> (r: Self)
        ensures
            r@ == self@,
    {
        copy_entry(self)
    }
}

impl Clone for Manifest {
    fn clone(&self) -> (r: Self)
        ensures
            r@ == self@,
    {
        Manifest { entries: copy_entries(&self.entries) }
    }
}

} // verus!
