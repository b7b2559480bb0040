use vstd::prelude::*;

verus! {

broadcast use vstd::std_specs::vec::group_vec_axioms;

/// One object of a directory tree as it was read: a file with its length, or a
/// directory with the children that could be inspected. A child whose metadata
/// could not be read is left out; a directory that could not be listed has no
/// children.
pub struct Entry {
    /// The last component of the path.
    pub name: String,
    pub is_dir: bool,
    /// The byte length of a file (not used for a directory).
    pub len: u64,
    /// The entries of a directory, in the order they were listed (empty for a file).
    pub children: Vec<Entry>,
}

/// The size of an entry: a file's length, or the sum of a directory's children.
pub open spec fn total(e: Entry) -> nat
    decreases e, 0nat,
{
    if e.is_dir {
        prefix_total(e.children@, e.children@.len() as int)
    } else {
        e.len as nat
    }
}

/// The sum of the sizes of the first `n` entries of `s`.
pub open spec fn prefix_total(s: Seq<Entry>, n: int) -> nat
    decreases s, n,
{
    if n <= 0 || n > s.len() {
        0
    } else {
        prefix_total(s, n - 1) + total(s[n - 1])
    }
}

/// Every directory in the tree has no more children than a `Vec` can index.
pub open spec fn well_formed(e: Entry) -> bool
    decreases e,
{
    &&& e.children@.len() <= usize::MAX
    &&& forall|i: int| 0 <= i < e.children@.len() ==> well_formed(#[trigger] e.children@[i])
}

/// A count held at `u64::MAX` when it goes past it.
pub open spec fn capped(n: nat) -> u64 {
    if n > u64::MAX {
        u64::MAX
    } else {
        n as u64
    }
}

/// The size that an entry shows: its total, capped at `u64::MAX`.
pub open spec fn size_of(e: Entry) -> u64 {
    capped(total(e))
}

impl Entry {
    /// A file of `len` bytes.
    pub fn file(name: String, len: u64) -> (r: Entry)
        ensures
            r.name == name,
            !r.is_dir,
            r.len == len,
            r.children@.len() == 0,
    {
        Entry { name, is_dir: false, len, children: Vec::new() }
    }

    /// A directory with the given children.
    pub fn dir(name: String, children: Vec<Entry>) -> (r: Entry)
        ensures
            r.name == name,
            r.is_dir,
            r.len == 0,
            r.children == children,
    {
        Entry { name, is_dir: true, len: 0, children }
    }
}

/// The total byte size of an entry: a file's length, or for a directory the sum
/// of the sizes of all that lies below it (capped at `u64::MAX`).
pub fn compute_size(e: &Entry) -> (r: u64)
    ensures
        r == size_of(*e),
    decreases e,
{
    if !e.is_dir {
        return e.len;
    }
    let mut sum: u64 = 0;
    let mut i: usize = 0;
    while i < e.children.len()
        invariant
            e.is_dir,
            i <= e.children@.len(),
            sum == capped(prefix_total(e.children@, i as int)),
        decreases e.children@.len() - i,
    {
        let c = compute_size(&e.children[i]);
        sum = sum.saturating_add(c);
        i = i + 1;
    }
    sum
}


/// A directory that holds three files, and nothing else, has the sum of their
/// lengths as its size.
pub proof fn lemma_three_files_total(e: Entry)
    requires
        e.is_dir,
        e.children@.len() == 3,
        !e.children@[0].is_dir,
        !e.children@[1].is_dir,
        !e.children@[2].is_dir,
    ensures
        total(e) == e.children@[0].len + e.children@[1].len + e.children@[2].len,
{
    let s = e.children@;
    assert(total(s[0]) == s[0].len && total(s[1]) == s[1].len && total(s[2]) == s[2].len);
    assert(prefix_total(s, 0) == 0);
    assert(prefix_total(s, 1) == s[0].len);
    assert(prefix_total(s, 2) == s[0].len + s[1].len);
    assert(prefix_total(s, 3) == s[0].len + s[1].len + s[2].len);
}

/// An empty directory has size 0.
pub proof fn lemma_empty_directory_total(e: Entry)
    requires
        e.is_dir,
        e.children@.len() == 0,
    ensures
        total(e) == 0,
        size_of(e) == 0,
{
}

} // verus!
