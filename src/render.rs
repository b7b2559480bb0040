use vstd::prelude::*;
use crate::format::{format_size, size_text};
use crate::order::{arranged, in_order, precedes, text_lt, lemma_order_arranged, listing_order, order, visible};
use crate::tree::{Entry, compute_size, size_of, well_formed};

verus! {

broadcast use vstd::std_specs::vec::group_vec_axioms;

/// One listed entry: the guide drawn before it, whether it is the last of its
/// siblings, whether it is a directory, its name and its size.
pub struct Row {
    pub prefix: String,
    pub last: bool,
    pub is_dir: bool,
    pub name: String,
    pub size: u64,
}

impl View for Row {
    type V = (Seq<char>, bool, bool, Seq<char>, u64);

    open spec fn view(&self) -> (Seq<char>, bool, bool, Seq<char>, u64) {
        (self.prefix@, self.last, self.is_dir, self.name@, self.size)
    }
}

/// The models of a sequence of rows.
pub open spec fn views(rows: Seq<Row>) -> Seq<(Seq<char>, bool, bool, Seq<char>, u64)> {
    rows.map_values(|x: Row| x@)
}

/// How many more levels may be listed below the level at `depth`, if there is a limit.
pub open spec fn remaining(max_depth: Option<usize>, depth: int) -> Option<int> {
    match max_depth {
        Some(m) => Some(m - depth),
        None => None,
    }
}

/// The limit one level further down.
pub open spec fn deeper(rem: Option<int>) -> Option<int> {
    match rem {
        Some(r) => Some(r - 1),
        None => None,
    }
}

/// The guide for the entries of a directory listed after `prefix`: a blank
/// column below the last sibling, a vertical line below the others.
pub open spec fn extended(prefix: Seq<char>, last: bool) -> Seq<char> {
    if last {
        prefix + "    "@
    } else {
        prefix + "│   "@
    }
}

/// The rows under directory `e`, pre-order: each visible child in listing
/// order, each directory followed by its own rows one level deeper. Nothing is
/// listed under a file or past the depth limit.
pub open spec fn listing(e: Entry, prefix: Seq<char>, rem: Option<int>, min_size: u64, by_size: bool) -> Seq<
    (Seq<char>, bool, bool, Seq<char>, u64),
>
    decreases e, 1nat, 0int,
{
    if !e.is_dir || (rem is Some && rem->0 < 0) {
        Seq::empty()
    } else {
        let o = order(e.children@, min_size, by_size);
        listing_upto(e.children@, o, o.len() as int, prefix, rem, min_size, by_size)
    }
}

/// The rows of the first `n` siblings in the order `o`, with what lies below them.
pub open spec fn listing_upto(
    s: Seq<Entry>,
    o: Seq<usize>,
    n: int,
    prefix: Seq<char>,
    rem: Option<int>,
    min_size: u64,
    by_size: bool,
) -> Seq<(Seq<char>, bool, bool, Seq<char>, u64)>
    decreases s, 0nat, n,
{
    if n <= 0 || n > o.len() || o[n - 1] >= s.len() {
        Seq::empty()
    } else {
        let c = s[o[n - 1] as int];
        let last = n == o.len();
        listing_upto(s, o, n - 1, prefix, rem, min_size, by_size) + seq![
            (prefix, last, c.is_dir, c.name@, size_of(c)),
        ] + listing(c, extended(prefix, last), deeper(rem), min_size, by_size)
    }
}

fn extend_prefix(prefix: &str, last: bool) -> (r: String)
    ensures
        r@ == extended(prefix@, last),
{
    proof {
        reveal_strlit("    ");
        reveal_strlit("│   ");
    }
    if last {
        String::from_str(prefix).concat("    ")
    } else {
        String::from_str(prefix).concat("│   ")
    }
}

/// Lists the tree below directory `dir` whose own level is `current_depth`:
/// nothing when that level is past `max_depth`; else each child of at least
/// `min_size` bytes, sorted by size (largest first) or by name, and below each
/// directory its own listing, one level deeper.
pub fn walk_dir(
    dir: &Entry,
    prefix: &str,
    max_depth: Option<usize>,
    min_size: u64,
    sort_by_size: bool,
    current_depth: usize,
) -> (r: Vec<Row>)
    ensures
        views(r@) == listing(*dir, prefix@, remaining(max_depth, current_depth as int), min_size, sort_by_size),
    decreases dir,
{
    let ghost rem = remaining(max_depth, current_depth as int);
    if let Some(m) = max_depth {
        if current_depth > m {
            let none: Vec<Row> = Vec::new();
            assert(views(none@) =~= Seq::empty());
            return none;
        }
    }
    if !dir.is_dir {
        let none: Vec<Row> = Vec::new();
        assert(views(none@) =~= Seq::empty());
        return none;
    }
    let ghost s = dir.children@;
    let o = listing_order(&dir.children, min_size, sort_by_size);
    let mut rows: Vec<Row> = Vec::new();
    let mut k: usize = 0;
    assert(views(rows@) =~= Seq::empty());
    while k < o.len()
        invariant
            s == dir.children@,
            dir.is_dir,
            rem == remaining(max_depth, current_depth as int),
            max_depth is Some ==> current_depth <= max_depth->0,
            o@ == order(s, min_size, sort_by_size),
            crate::order::arranged(s, min_size, sort_by_size, o@),
            k <= o@.len(),
            views(rows@) == listing_upto(s, o@, k as int, prefix@, rem, min_size, sort_by_size),
        decreases o@.len() - k,
    {
        let idx = o[k];
        assert(crate::order::visible(s, min_size, o@[k as int] as int));
        let child = &dir.children[idx];
        let last = k + 1 == o.len();
        let size = compute_size(child);
        let ghost before_rows = rows@;
        let row = Row {
            prefix: String::from_str(prefix),
            last,
            is_dir: child.is_dir,
            name: child.name.clone(),
            size,
        };
        rows.push(row);
        assert(views(rows@) =~= views(before_rows).push(row@));
        let ghost pushed = rows@;
        let mut sub: Vec<Row> = if !child.is_dir {
            Vec::new()
        } else {
            let np = extend_prefix(prefix, last);
            match max_depth {
                Some(m) => {
                    if current_depth < m {
                        walk_dir(child, np.as_str(), max_depth, min_size, sort_by_size, current_depth + 1)
                    } else {
                        Vec::new()
                    }
                },
                None => walk_dir(child, np.as_str(), max_depth, min_size, sort_by_size, current_depth),
            }
        };
        assert(views(sub@) == listing(*child, extended(prefix@, last), deeper(rem), min_size, sort_by_size));
        let ghost sub_rows = sub@;
        rows.append(&mut sub);
        assert(views(rows@) =~= views(pushed) + views(sub_rows));
        k = k + 1;
    }
    rows
}


/// The line that shows a row: guide, connector, type mark, name and size.
pub open spec fn row_text(r: (Seq<char>, bool, bool, Seq<char>, u64)) -> Seq<char> {
    r.0 + (if r.1 {
        "└── "@
    } else {
        "├── "@
    }) + (if r.2 {
        "📂"@
    } else {
        "📄"@
    }) + " "@ + r.3 + " ("@ + size_text(r.4) + ")"@
}

impl Row {
    /// The line that shows this row, e.g. "│   ├── 📄 notes.txt (1.50 KB)".
    pub fn text(&self) -> (r: String)
        ensures
            r@ == row_text(self@),
    {
        proof {
            reveal_strlit("└── ");
            reveal_strlit("├── ");
            reveal_strlit("📂");
            reveal_strlit("📄");
            reveal_strlit(" ");
            reveal_strlit(" (");
            reveal_strlit(")");
        }
        let connector = if self.last {
            "└── "
        } else {
            "├── "
        };
        let mark = if self.is_dir {
            "📂"
        } else {
            "📄"
        };
        let size = format_size(self.size);
        let r = String::from_str(self.prefix.as_str()).concat(connector).concat(mark).concat(" ").concat(
            self.name.as_str(),
        ).concat(" (").concat(size.as_str()).concat(")");
        r
    }
}

/// The line that reports the root's total size.
pub open spec fn summary_text(display: Seq<char>, root: Entry) -> Seq<char> {
    display + " ("@ + size_text(size_of(root)) + ")"@
}

/// The whole report on a directory tree, as lines: the root shown as `display`
/// with its total size; then, when that total is below `min_size`, a line
/// saying that nothing is listed, else the tree below the root.
pub fn report(
    display: &str,
    root: &Entry,
    max_depth: Option<usize>,
    min_size: u64,
    sort_by_size: bool,
) -> (r: Vec<String>)
    ensures
        r@.len() >= 1,
        r@[0]@ == summary_text(display@, *root),
        size_of(*root) < min_size ==> r@.len() == 2 && r@[1]@
            == "No entries meet the minimum size criteria."@,
        size_of(*root) >= min_size ==> ({
            let rows = listing(*root, Seq::empty(), remaining(max_depth, 0), min_size, sort_by_size);
            &&& r@.len() == rows.len() + 1
            &&& forall|k: int| 0 <= k < rows.len() ==> (#[trigger] r@[k + 1])@ == row_text(rows[k])
        }),
{
    proof {
        reveal_strlit(" (");
        reveal_strlit(")");
        reveal_strlit("No entries meet the minimum size criteria.");
        reveal_strlit("");
    }
    let total = compute_size(root);
    let size = format_size(total);
    let head = String::from_str(display).concat(" (").concat(size.as_str()).concat(")");
    let mut lines: Vec<String> = Vec::new();
    lines.push(head);
    if total < min_size {
        lines.push(String::from_str("No entries meet the minimum size criteria."));
        return lines;
    }
    let rows = walk_dir(root, "", max_depth, min_size, sort_by_size, 0);
    let ghost model = views(rows@);
    let mut k: usize = 0;
    while k < rows.len()
        invariant
            model == views(rows@),
            k <= rows@.len(),
            lines@.len() == k + 1,
            lines@[0]@ == summary_text(display@, *root),
            forall|j: int| 0 <= j < k ==> (#[trigger] lines@[j + 1])@ == row_text(model[j]),
        decreases rows@.len() - k,
    {
        let line = rows[k].text();
        lines.push(line);
        k = k + 1;
    }
    assert(""@ =~= Seq::<char>::empty());
    lines
}


proof fn lemma_upto_meets_minimum(
    s: Seq<Entry>,
    o: Seq<usize>,
    n: int,
    prefix: Seq<char>,
    rem: Option<int>,
    min_size: u64,
    by_size: bool,
)
    requires
        s.len() <= usize::MAX,
        forall|i: int| 0 <= i < s.len() ==> well_formed(#[trigger] s[i]),
        arranged(s, min_size, by_size, o),
    ensures
        forall|k: int|
            0 <= k < listing_upto(s, o, n, prefix, rem, min_size, by_size).len() ==> (#[trigger] listing_upto(
                s,
                o,
                n,
                prefix,
                rem,
                min_size,
                by_size,
            )[k]).4 >= min_size,
    decreases s, 0nat, n,
{
    if !(n <= 0 || n > o.len() || o[n - 1] >= s.len()) {
        let c = s[o[n - 1] as int];
        let last = n == o.len();
        assert(visible(s, min_size, o[n - 1] as int));
        lemma_upto_meets_minimum(s, o, n - 1, prefix, rem, min_size, by_size);
        lemma_listing_meets_minimum(c, extended(prefix, last), deeper(rem), min_size, by_size);
        let a = listing_upto(s, o, n - 1, prefix, rem, min_size, by_size);
        let row = (prefix, last, c.is_dir, c.name@, size_of(c));
        let b = listing(c, extended(prefix, last), deeper(rem), min_size, by_size);
        let l = listing_upto(s, o, n, prefix, rem, min_size, by_size);
        assert(l == a + seq![row] + b);
        assert forall|k: int| 0 <= k < l.len() implies (#[trigger] l[k]).4 >= min_size by {
            if k < a.len() {
                assert(l[k] == a[k]);
            } else if k == a.len() {
                assert(l[k] == row);
            } else {
                assert(l[k] == b[k - a.len() - 1]);
            }
        }
    }
}

/// No row of a listing shows an entry smaller than the minimum size, at any depth.
pub proof fn lemma_listing_meets_minimum(
    e: Entry,
    prefix: Seq<char>,
    rem: Option<int>,
    min_size: u64,
    by_size: bool,
)
    requires
        well_formed(e),
    ensures
        forall|k: int|
            0 <= k < listing(e, prefix, rem, min_size, by_size).len() ==> (#[trigger] listing(
                e,
                prefix,
                rem,
                min_size,
                by_size,
            )[k]).4 >= min_size,
    decreases e, 1nat, 0int,
{
    if !(!e.is_dir || (rem is Some && rem->0 < 0)) {
        let s = e.children@;
        lemma_order_arranged(s, min_size, by_size);
        let o = order(s, min_size, by_size);
        lemma_upto_meets_minimum(s, o, o.len() as int, prefix, rem, min_size, by_size);
        assert(listing(e, prefix, rem, min_size, by_size) == listing_upto(
            s,
            o,
            o.len() as int,
            prefix,
            rem,
            min_size,
            by_size,
        ));
    }
}

proof fn lemma_upto_one_level(
    s: Seq<Entry>,
    o: Seq<usize>,
    n: int,
    prefix: Seq<char>,
    min_size: u64,
    by_size: bool,
)
    requires
        0 <= n <= o.len(),
        forall|k: int| 0 <= k < o.len() ==> (#[trigger] o[k]) < s.len(),
    ensures
        listing_upto(s, o, n, prefix, Some(0), min_size, by_size).len() == n,
        forall|k: int|
            0 <= k < n ==> (#[trigger] listing_upto(s, o, n, prefix, Some(0), min_size, by_size)[k])
                == (prefix, k == o.len() - 1, s[o[k] as int].is_dir, s[o[k] as int].name@, size_of(
                s[o[k] as int],
            )),
    decreases n,
{
    if n > 0 {
        lemma_upto_one_level(s, o, n - 1, prefix, min_size, by_size);
        let c = s[o[n - 1] as int];
        assert(listing(c, extended(prefix, n == o.len()), deeper(Some(0)), min_size, by_size) =~= Seq::empty());
    }
}

/// With a depth limit of 0 at the root, only the root's own entries are listed:
/// one row for each visible child, in listing order, all at the root's guide,
/// and nothing below them.
pub proof fn lemma_depth_zero_lists_root_entries(root: Entry, min_size: u64, by_size: bool)
    requires
        well_formed(root),
        root.is_dir,
    ensures
        ({
            let rows = listing(root, Seq::empty(), remaining(Some(0usize), 0), min_size, by_size);
            let o = order(root.children@, min_size, by_size);
            &&& rows.len() == o.len()
            &&& forall|k: int|
                0 <= k < rows.len() ==> (#[trigger] rows[k]).0 == Seq::<char>::empty() && rows[k].3
                    == root.children@[o[k] as int].name@
        }),
{
    let s = root.children@;
    lemma_order_arranged(s, min_size, by_size);
    let o = order(s, min_size, by_size);
    assert forall|k: int| 0 <= k < o.len() implies (#[trigger] o[k]) < s.len() by {
        assert(visible(s, min_size, o[k] as int));
    }
    assert(remaining(Some(0usize), 0) == Some(0int));
    lemma_upto_one_level(s, o, o.len() as int, Seq::empty(), min_size, by_size);
}

proof fn lemma_upto_has_row(
    s: Seq<Entry>,
    o: Seq<usize>,
    n: int,
    prefix: Seq<char>,
    rem: Option<int>,
    min_size: u64,
    by_size: bool,
    k: int,
) -> (idx: int)
    requires
        0 <= k < n <= o.len(),
        forall|j: int| 0 <= j < o.len() ==> (#[trigger] o[j]) < s.len(),
    ensures
        0 <= idx < listing_upto(s, o, n, prefix, rem, min_size, by_size).len(),
        listing_upto(s, o, n, prefix, rem, min_size, by_size)[idx] == (
            prefix,
            k == o.len() - 1,
            s[o[k] as int].is_dir,
            s[o[k] as int].name@,
            size_of(s[o[k] as int]),
        ),
    decreases n,
{
    let c = s[o[n - 1] as int];
    let last = n == o.len();
    let a = listing_upto(s, o, n - 1, prefix, rem, min_size, by_size);
    let row = (prefix, last, c.is_dir, c.name@, size_of(c));
    let b = listing(c, extended(prefix, last), deeper(rem), min_size, by_size);
    let l = listing_upto(s, o, n, prefix, rem, min_size, by_size);
    assert(l == a + seq![row] + b);
    if k == n - 1 {
        assert(l[a.len() as int] == row);
        a.len() as int
    } else {
        let idx = lemma_upto_has_row(s, o, n - 1, prefix, rem, min_size, by_size, k);
        assert(l[idx] == a[idx]);
        idx
    }
}

/// Every child of a listed directory that is at least the minimum size has its
/// row, at the directory's guide, showing its whole size (what lies below it
/// counts even where it is too small to be listed itself).
pub proof fn lemma_listing_shows_visible_children(
    e: Entry,
    prefix: Seq<char>,
    rem: Option<int>,
    min_size: u64,
    by_size: bool,
    i: int,
)
    requires
        well_formed(e),
        e.is_dir,
        rem is None || rem->0 >= 0,
        0 <= i < e.children@.len(),
        size_of(e.children@[i]) >= min_size,
    ensures
        exists|k: int|
            0 <= k < listing(e, prefix, rem, min_size, by_size).len() && (#[trigger] listing(
                e,
                prefix,
                rem,
                min_size,
                by_size,
            )[k]).0 == prefix && listing(e, prefix, rem, min_size, by_size)[k].2
                == e.children@[i].is_dir && listing(e, prefix, rem, min_size, by_size)[k].3
                == e.children@[i].name@ && listing(e, prefix, rem, min_size, by_size)[k].4 == size_of(
                e.children@[i],
            ),
{
    let s = e.children@;
    lemma_order_arranged(s, min_size, by_size);
    let o = order(s, min_size, by_size);
    assert(visible(s, min_size, i));
    assert(o.contains(i as usize));
    let k = choose|k: int| 0 <= k < o.len() && o[k] == i as usize;
    assert forall|j: int| 0 <= j < o.len() implies (#[trigger] o[j]) < s.len() by {
        assert(visible(s, min_size, o[j] as int));
    }
    let idx = lemma_upto_has_row(s, o, o.len() as int, prefix, rem, min_size, by_size, k);
    let l = listing(e, prefix, rem, min_size, by_size);
    assert(l == listing_upto(s, o, o.len() as int, prefix, rem, min_size, by_size));
    assert(l[idx].0 == prefix);
}

proof fn lemma_upto_guides(
    s: Seq<Entry>,
    o: Seq<usize>,
    n: int,
    prefix: Seq<char>,
    rem: Option<int>,
    min_size: u64,
    by_size: bool,
)
    ensures
        forall|k: int|
            0 <= k < listing_upto(s, o, n, prefix, rem, min_size, by_size).len() ==> (#[trigger] listing_upto(
                s,
                o,
                n,
                prefix,
                rem,
                min_size,
                by_size,
            )[k]).0.len() >= prefix.len(),
    decreases s, 0nat, n,
{
    if !(n <= 0 || n > o.len() || o[n - 1] >= s.len()) {
        let c = s[o[n - 1] as int];
        let last = n == o.len();
        lemma_upto_guides(s, o, n - 1, prefix, rem, min_size, by_size);
        lemma_listing_guides(c, extended(prefix, last), deeper(rem), min_size, by_size);
        reveal_strlit("    ");
        reveal_strlit("│   ");
        let a = listing_upto(s, o, n - 1, prefix, rem, min_size, by_size);
        let row = (prefix, last, c.is_dir, c.name@, size_of(c));
        let b = listing(c, extended(prefix, last), deeper(rem), min_size, by_size);
        let l = listing_upto(s, o, n, prefix, rem, min_size, by_size);
        assert(l == a + seq![row] + b);
        assert forall|k: int| 0 <= k < l.len() implies (#[trigger] l[k]).0.len() >= prefix.len() by {
            if k < a.len() {
                assert(l[k] == a[k]);
            } else if k > a.len() {
                assert(l[k] == b[k - a.len() - 1]);
            }
        }
    }
}

/// Every row of a listing is drawn with the given guide or a longer one.
proof fn lemma_listing_guides(e: Entry, prefix: Seq<char>, rem: Option<int>, min_size: u64, by_size: bool)
    ensures
        forall|k: int|
            0 <= k < listing(e, prefix, rem, min_size, by_size).len() ==> (#[trigger] listing(
                e,
                prefix,
                rem,
                min_size,
                by_size,
            )[k]).0.len() >= prefix.len(),
    decreases e, 1nat, 0int,
{
    if !(!e.is_dir || (rem is Some && rem->0 < 0)) {
        let s = e.children@;
        let o = order(s, min_size, by_size);
        lemma_upto_guides(s, o, o.len() as int, prefix, rem, min_size, by_size);
        assert(listing(e, prefix, rem, min_size, by_size) == listing_upto(
            s,
            o,
            o.len() as int,
            prefix,
            rem,
            min_size,
            by_size,
        ));
    }
}

/// Two rows of siblings are in listing order: by size, the first at least as
/// large; by name, the first's name not after the second's.
pub open spec fn rows_in_order(
    r1: (Seq<char>, bool, bool, Seq<char>, u64),
    r2: (Seq<char>, bool, bool, Seq<char>, u64),
    by_size: bool,
) -> bool {
    if by_size {
        r1.4 >= r2.4
    } else {
        text_lt(r1.3, r2.3) || r1.3 == r2.3
    }
}

proof fn lemma_upto_siblings_in_order(
    s: Seq<Entry>,
    o: Seq<usize>,
    n: int,
    prefix: Seq<char>,
    rem: Option<int>,
    min_size: u64,
    by_size: bool,
)
    requires
        in_order(s, by_size, o),
        0 <= n <= o.len(),
        forall|j: int| 0 <= j < o.len() ==> (#[trigger] o[j]) < s.len(),
    ensures
        forall|i: int|
            0 <= i < listing_upto(s, o, n, prefix, rem, min_size, by_size).len() && (#[trigger] listing_upto(
                s,
                o,
                n,
                prefix,
                rem,
                min_size,
                by_size,
            )[i]).0 == prefix ==> exists|k: int|
                0 <= k < n && listing_upto(s, o, n, prefix, rem, min_size, by_size)[i] == (
                    prefix,
                    k == o.len() - 1,
                    s[o[k] as int].is_dir,
                    s[o[k] as int].name@,
                    size_of(s[o[k] as int]),
                ),
        forall|i1: int, i2: int|
            0 <= i1 < i2 < listing_upto(s, o, n, prefix, rem, min_size, by_size).len() && (#[trigger] listing_upto(
                s,
                o,
                n,
                prefix,
                rem,
                min_size,
                by_size,
            )[i1]).0 == prefix && (#[trigger] listing_upto(s, o, n, prefix, rem, min_size, by_size)[i2]).0
                == prefix ==> rows_in_order(
                listing_upto(s, o, n, prefix, rem, min_size, by_size)[i1],
                listing_upto(s, o, n, prefix, rem, min_size, by_size)[i2],
                by_size,
            ),
    decreases n,
{
    if n > 0 {
        let c = s[o[n - 1] as int];
        let last = n == o.len();
        lemma_upto_siblings_in_order(s, o, n - 1, prefix, rem, min_size, by_size);
        lemma_listing_guides(c, extended(prefix, last), deeper(rem), min_size, by_size);
        reveal_strlit("    ");
        reveal_strlit("│   ");
        let a = listing_upto(s, o, n - 1, prefix, rem, min_size, by_size);
        let row = (prefix, last, c.is_dir, c.name@, size_of(c));
        let b = listing(c, extended(prefix, last), deeper(rem), min_size, by_size);
        let l = listing_upto(s, o, n, prefix, rem, min_size, by_size);
        assert(l == a + seq![row] + b);
        assert forall|i: int| 0 <= i < l.len() && (#[trigger] l[i]).0 == prefix implies exists|k: int|
            0 <= k < n && l[i] == (
                prefix,
                k == o.len() - 1,
                s[o[k] as int].is_dir,
                s[o[k] as int].name@,
                size_of(s[o[k] as int]),
            ) by {
            if i < a.len() {
                assert(l[i] == a[i]);
            } else if i == a.len() {
                assert(l[i] == row);
            } else {
                assert(l[i] == b[i - a.len() - 1]);
                assert(b[i - a.len() - 1].0.len() >= prefix.len() + 4);
            }
        }
        assert forall|i1: int, i2: int|
            0 <= i1 < i2 < l.len() && (#[trigger] l[i1]).0 == prefix && (#[trigger] l[i2]).0
                == prefix implies rows_in_order(l[i1], l[i2], by_size) by {
            if i2 > a.len() {
                assert(l[i2] == b[i2 - a.len() - 1]);
                assert(b[i2 - a.len() - 1].0.len() >= prefix.len() + 4);
            } else if i2 == a.len() {
                assert(l[i1] == a[i1]);
                let k1 = choose|k: int|
                    0 <= k < n - 1 && a[i1] == (
                        prefix,
                        k == o.len() - 1,
                        s[o[k] as int].is_dir,
                        s[o[k] as int].name@,
                        size_of(s[o[k] as int]),
                    );
                assert(precedes(s, by_size, o[k1] as int, o[n - 1] as int));
            } else {
                assert(l[i1] == a[i1]);
                assert(l[i2] == a[i2]);
            }
        }
    }
}

/// Siblings are listed in order: among the rows drawn at a directory's own
/// guide, sizes never grow when sorting by size, and names never go back when
/// sorting by name.
pub proof fn lemma_siblings_listed_in_order(
    e: Entry,
    prefix: Seq<char>,
    rem: Option<int>,
    min_size: u64,
    by_size: bool,
    i1: int,
    i2: int,
)
    requires
        well_formed(e),
        0 <= i1 < i2 < listing(e, prefix, rem, min_size, by_size).len(),
        listing(e, prefix, rem, min_size, by_size)[i1].0 == prefix,
        listing(e, prefix, rem, min_size, by_size)[i2].0 == prefix,
    ensures
        rows_in_order(
            listing(e, prefix, rem, min_size, by_size)[i1],
            listing(e, prefix, rem, min_size, by_size)[i2],
            by_size,
        ),
{
    let s = e.children@;
    lemma_order_arranged(s, min_size, by_size);
    let o = order(s, min_size, by_size);
    assert forall|j: int| 0 <= j < o.len() implies (#[trigger] o[j]) < s.len() by {
        assert(visible(s, min_size, o[j] as int));
    }
    lemma_upto_siblings_in_order(s, o, o.len() as int, prefix, rem, min_size, by_size);
    let l = listing(e, prefix, rem, min_size, by_size);
    assert(l == listing_upto(s, o, o.len() as int, prefix, rem, min_size, by_size));
    assert(l[i1] == listing_upto(s, o, o.len() as int, prefix, rem, min_size, by_size)[i1]);
}

} // verus!
