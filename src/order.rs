use vstd::prelude::*;
use crate::parse::chars_of;
use crate::tree::{Entry, compute_size, size_of};

verus! {

/// `x` comes before `y` in the ordinal (code point by code point) order of texts.
pub open spec fn text_lt(x: Seq<char>, y: Seq<char>) -> bool
    decreases x.len(),
{
    if x.len() == 0 {
        y.len() > 0
    } else if y.len() == 0 {
        false
    } else if x[0] != y[0] {
        x[0] < y[0]
    } else {
        text_lt(x.drop_first(), y.drop_first())
    }
}

/// Among the siblings `s`, the one at index `a` is listed before the one at
/// index `b`: by size, largest first, or by name; equal keys keep the order in
/// which the siblings were read.
pub open spec fn precedes(s: Seq<Entry>, by_size: bool, a: int, b: int) -> bool {
    if by_size {
        size_of(s[a]) > size_of(s[b]) || (size_of(s[a]) == size_of(s[b]) && a < b)
    } else {
        text_lt(s[a].name@, s[b].name@) || (s[a].name@ == s[b].name@ && a < b)
    }
}

/// The sibling at index `i` is large enough to be listed.
pub open spec fn visible(s: Seq<Entry>, min_size: u64, i: int) -> bool {
    0 <= i < s.len() && size_of(s[i]) >= min_size
}

/// `o` lists exactly the visible siblings, each once, in listing order.
pub open spec fn arranged(s: Seq<Entry>, min_size: u64, by_size: bool, o: Seq<usize>) -> bool {
    &&& forall|k: int| 0 <= k < o.len() ==> visible(s, min_size, #[trigger] o[k] as int)
    &&& forall|i: int| visible(s, min_size, i) ==> o.contains(i as usize)
    &&& in_order(s, by_size, o)
}

/// The listing order of the visible siblings.
pub open spec fn order(s: Seq<Entry>, min_size: u64, by_size: bool) -> Seq<usize> {
    choose|o: Seq<usize>| arranged(s, min_size, by_size, o)
}

proof fn lemma_text_irreflexive(x: Seq<char>)
    ensures
        !text_lt(x, x),
    decreases x.len(),
{
    if x.len() > 0 {
        lemma_text_irreflexive(x.drop_first());
    }
}

proof fn lemma_text_total(x: Seq<char>, y: Seq<char>)
    ensures
        x != y ==> (text_lt(x, y) || text_lt(y, x)),
        !(text_lt(x, y) && text_lt(y, x)),
    decreases x.len(),
{
    if x.len() > 0 && y.len() > 0 {
        lemma_text_total(x.drop_first(), y.drop_first());
        if x[0] == y[0] && x.drop_first() == y.drop_first() {
            assert(x =~= seq![x[0]] + x.drop_first());
            assert(y =~= seq![y[0]] + y.drop_first());
        }
    } else if x.len() == 0 && y.len() == 0 {
        assert(x =~= y);
    }
}

proof fn lemma_text_transitive(x: Seq<char>, y: Seq<char>, z: Seq<char>)
    requires
        text_lt(x, y),
        text_lt(y, z),
    ensures
        text_lt(x, z),
    decreases x.len(),
{
    if x.len() > 0 && y.len() > 0 && z.len() > 0 && x[0] == y[0] && y[0] == z[0] {
        lemma_text_transitive(x.drop_first(), y.drop_first(), z.drop_first());
    }
}

/// `precedes` is a strict total order on the indices of the siblings.
pub proof fn lemma_precedes_order(s: Seq<Entry>, by_size: bool, a: int, b: int, c: int)
    ensures
        !precedes(s, by_size, a, a),
        a != b ==> (precedes(s, by_size, a, b) || precedes(s, by_size, b, a)),
        !(precedes(s, by_size, a, b) && precedes(s, by_size, b, a)),
        precedes(s, by_size, a, b) && precedes(s, by_size, b, c) ==> precedes(s, by_size, a, c),
{
    if !by_size {
        lemma_text_irreflexive(s[a].name@);
        lemma_text_total(s[a].name@, s[b].name@);
        if text_lt(s[a].name@, s[b].name@) && text_lt(s[b].name@, s[c].name@) {
            lemma_text_transitive(s[a].name@, s[b].name@, s[c].name@);
        }
    }
}

/// `o` is in listing order.
pub open spec fn in_order(s: Seq<Entry>, by_size: bool, o: Seq<usize>) -> bool {
    forall|k1: int, k2: int|
        0 <= k1 < k2 < o.len() ==> precedes(s, by_size, #[trigger] o[k1] as int, #[trigger] o[k2] as int)
}

proof fn lemma_in_order_unique(s: Seq<Entry>, by_size: bool, o1: Seq<usize>, o2: Seq<usize>)
    requires
        in_order(s, by_size, o1),
        in_order(s, by_size, o2),
        forall|x: usize| o1.contains(x) <==> o2.contains(x),
    ensures
        o1 == o2,
    decreases o1.len(),
{
    if o1.len() == 0 {
        if o2.len() > 0 {
            assert(o2.contains(o2[0]));
        }
        assert(o1 =~= o2);
    } else if o2.len() == 0 {
        assert(o1.contains(o1[0]));
    } else {
        let a = o1[0];
        let b = o2[0];
        assert(o1.contains(a));
        assert(o2.contains(b));
        if a != b {
            let ka = choose|k: int| 0 <= k < o2.len() && o2[k] == a;
            let kb = choose|k: int| 0 <= k < o1.len() && o1[k] == b;
            assert(precedes(s, by_size, b as int, a as int));
            assert(precedes(s, by_size, a as int, b as int));
            lemma_precedes_order(s, by_size, a as int, b as int, a as int);
        }
        let t1 = o1.drop_first();
        let t2 = o2.drop_first();
        assert forall|x: usize| t1.contains(x) <==> t2.contains(x) by {
            if t1.contains(x) {
                let k = choose|k: int| 0 <= k < t1.len() && t1[k] == x;
                assert(o1[k + 1] == x);
                assert(precedes(s, by_size, a as int, x as int));
                lemma_precedes_order(s, by_size, a as int, a as int, a as int);
                assert(o2.contains(x));
                let j = choose|j: int| 0 <= j < o2.len() && o2[j] == x;
                assert(j != 0);
                assert(t2[j - 1] == x);
            }
            if t2.contains(x) {
                let k = choose|k: int| 0 <= k < t2.len() && t2[k] == x;
                assert(o2[k + 1] == x);
                assert(precedes(s, by_size, b as int, x as int));
                lemma_precedes_order(s, by_size, b as int, b as int, b as int);
                assert(o1.contains(x));
                let j = choose|j: int| 0 <= j < o1.len() && o1[j] == x;
                assert(j != 0);
                assert(t1[j - 1] == x);
            }
        }
        assert(in_order(s, by_size, t1)) by {
            assert forall|k1: int, k2: int| 0 <= k1 < k2 < t1.len() implies precedes(
                s,
                by_size,
                #[trigger] t1[k1] as int,
                #[trigger] t1[k2] as int,
            ) by {
                assert(t1[k1] == o1[k1 + 1] && t1[k2] == o1[k2 + 1]);
            }
        }
        assert(in_order(s, by_size, t2)) by {
            assert forall|k1: int, k2: int| 0 <= k1 < k2 < t2.len() implies precedes(
                s,
                by_size,
                #[trigger] t2[k1] as int,
                #[trigger] t2[k2] as int,
            ) by {
                assert(t2[k1] == o2[k1 + 1] && t2[k2] == o2[k2 + 1]);
            }
        }
        lemma_in_order_unique(s, by_size, t1, t2);
        assert(o1 =~= seq![a] + t1);
        assert(o2 =~= seq![b] + t2);
    }
}

/// There is one listing order of given siblings, and it is `order`.
pub proof fn lemma_order_unique(s: Seq<Entry>, min_size: u64, by_size: bool, o: Seq<usize>)
    requires
        arranged(s, min_size, by_size, o),
    ensures
        order(s, min_size, by_size) == o,
{
    let p = order(s, min_size, by_size);
    assert(arranged(s, min_size, by_size, p));
    assert forall|x: usize| o.contains(x) <==> p.contains(x) by {
        if o.contains(x) {
            let k = choose|k: int| 0 <= k < o.len() && o[k] == x;
            assert(visible(s, min_size, o[k] as int));
        }
        if p.contains(x) {
            let k = choose|k: int| 0 <= k < p.len() && p[k] == x;
            assert(visible(s, min_size, p[k] as int));
        }
    }
    lemma_in_order_unique(s, by_size, o, p);
}


fn chars_lt(x: &Vec<char>, y: &Vec<char>) -> (r: bool)
    ensures
        r == text_lt(x@, y@),
{
    let mut i: usize = 0;
    assert(x@.skip(0) =~= x@ && y@.skip(0) =~= y@);
    while i < x.len() && i < y.len() && x[i] == y[i]
        invariant
            i <= x@.len() && i <= y@.len(),
            text_lt(x@, y@) == text_lt(x@.skip(i as int), y@.skip(i as int)),
        decreases x@.len() - i,
    {
        assert(x@.skip(i as int).drop_first() =~= x@.skip(i + 1));
        assert(y@.skip(i as int).drop_first() =~= y@.skip(i + 1));
        i = i + 1;
    }
    if i == x.len() {
        i < y.len()
    } else if i == y.len() {
        false
    } else {
        x[i] < y[i]
    }
}

fn before(
    sizes: &Vec<u64>,
    names: &Vec<Vec<char>>,
    by_size: bool,
    a: usize,
    b: usize,
    Ghost(s): Ghost<Seq<Entry>>,
) -> (r: bool)
    requires
        a < s.len(),
        b < s.len(),
        sizes@.len() == s.len(),
        names@.len() == s.len(),
        forall|i: int| 0 <= i < s.len() ==> sizes@[i] == size_of(#[trigger] s[i]),
        forall|i: int| 0 <= i < s.len() ==> (#[trigger] names@[i])@ == s[i].name@,
    ensures
        r == precedes(s, by_size, a as int, b as int),
{
    if by_size {
        sizes[a] > sizes[b] || (sizes[a] == sizes[b] && a < b)
    } else {
        let lt = chars_lt(&names[a], &names[b]);
        if lt {
            true
        } else {
            let gt = chars_lt(&names[b], &names[a]);
            proof {
                lemma_text_total(names@[a as int]@, names@[b as int]@);
            }
            !gt && a < b
        }
    }
}

proof fn lemma_insert_in_order(s: Seq<Entry>, by_size: bool, o: Seq<usize>, pos: int, i: usize)
    requires
        in_order(s, by_size, o),
        0 <= pos <= o.len(),
        forall|k: int| 0 <= k < pos ==> precedes(s, by_size, #[trigger] o[k] as int, i as int),
        pos < o.len() ==> precedes(s, by_size, i as int, o[pos] as int),
    ensures
        in_order(s, by_size, o.insert(pos, i)),
{
    let t = o.insert(pos, i);
    assert forall|k1: int, k2: int| 0 <= k1 < k2 < t.len() implies precedes(
        s,
        by_size,
        #[trigger] t[k1] as int,
        #[trigger] t[k2] as int,
    ) by {
        if k1 == pos && k2 > pos + 1 {
            lemma_precedes_order(s, by_size, i as int, o[pos] as int, o[k2 - 1] as int);
        }
    }
}

/// The visible siblings (those of at least `min_size` bytes) in listing order:
/// by size, largest first, when `by_size`, else by name in ordinal order; equal
/// keys keep the order in which the siblings were read.
pub fn listing_order(children: &Vec<Entry>, min_size: u64, by_size: bool) -> (r: Vec<usize>)
    ensures
        arranged(children@, min_size, by_size, r@),
        r@ == order(children@, min_size, by_size),
{
    let ghost s = children@;
    let n = children.len();
    let mut sizes: Vec<u64> = Vec::new();
    let mut names: Vec<Vec<char>> = Vec::new();
    let mut i: usize = 0;
    while i < n
        invariant
            s == children@,
            n == s.len(),
            i <= n,
            sizes@.len() == i,
            names@.len() == i,
            forall|j: int| 0 <= j < i ==> sizes@[j] == size_of(#[trigger] s[j]),
            forall|j: int| 0 <= j < i ==> (#[trigger] names@[j])@ == s[j].name@,
        decreases n - i,
    {
        sizes.push(compute_size(&children[i]));
        names.push(chars_of(children[i].name.as_str()));
        i = i + 1;
    }
    let mut out: Vec<usize> = Vec::new();
    let mut i: usize = 0;
    while i < n
        invariant
            s == children@,
            n == s.len(),
            i <= n,
            sizes@.len() == n,
            names@.len() == n,
            forall|j: int| 0 <= j < n ==> sizes@[j] == size_of(#[trigger] s[j]),
            forall|j: int| 0 <= j < n ==> (#[trigger] names@[j])@ == s[j].name@,
            in_order(s, by_size, out@),
            forall|k: int| 0 <= k < out@.len() ==> (#[trigger] out@[k]) < i && visible(s, min_size, out@[k] as int),
            forall|j: int| 0 <= j < i && visible(s, min_size, j) ==> out@.contains(j as usize),
        decreases n - i,
    {
        if sizes[i] >= min_size {
            // binary search for the first sibling listed after child i
            let mut lo: usize = 0;
            let mut hi: usize = out.len();
            while lo < hi
                invariant
                    s == children@,
                    n == s.len(),
                    i < n,
                    sizes@.len() == n,
                    names@.len() == n,
                    forall|j: int| 0 <= j < n ==> sizes@[j] == size_of(#[trigger] s[j]),
                    forall|j: int| 0 <= j < n ==> (#[trigger] names@[j])@ == s[j].name@,
                    forall|k: int| 0 <= k < out@.len() ==> (#[trigger] out@[k]) < i,
                    in_order(s, by_size, out@),
                    lo <= hi <= out@.len(),
                    forall|k: int| 0 <= k < lo ==> precedes(s, by_size, #[trigger] out@[k] as int, i as int),
                    forall|k: int| hi <= k < out@.len() ==> !precedes(s, by_size, #[trigger] out@[k] as int, i as int),
                decreases hi - lo,
            {
                let mid = lo + (hi - lo) / 2;
                if before(&sizes, &names, by_size, out[mid], i, Ghost(s)) {
                    proof {
                        assert forall|k: int| 0 <= k <= mid implies precedes(s, by_size, #[trigger] out@[k] as int, i as int) by {
                            if k < mid {
                                lemma_precedes_order(s, by_size, out@[k] as int, out@[mid as int] as int, i as int);
                            }
                        }
                    }
                    lo = mid + 1;
                } else {
                    proof {
                        assert forall|k: int| mid <= k < out@.len() implies !precedes(s, by_size, #[trigger] out@[k] as int, i as int) by {
                            if k > mid {
                                lemma_precedes_order(s, by_size, out@[mid as int] as int, out@[k] as int, i as int);
                            }
                        }
                    }
                    hi = mid;
                }
            }
            let pos = lo;
            proof {
                if pos < out@.len() {
                    lemma_precedes_order(s, by_size, out@[pos as int] as int, i as int, 0);
                }
                lemma_insert_in_order(s, by_size, out@, pos as int, i);
            }
            let ghost old_out = out@;
            out.insert(pos, i);
            proof {
                assert(out@[pos as int] == i);
                assert forall|j: int| 0 <= j < i + 1 && visible(s, min_size, j) implies out@.contains(j as usize) by {
                    if j < i {
                        let k = choose|k: int| 0 <= k < old_out.len() && old_out[k] == j as usize;
                        if k < pos {
                            assert(out@[k] == j as usize);
                        } else {
                            assert(out@[k + 1] == j as usize);
                        }
                    }
                }
            }
        }
        i = i + 1;
    }
    proof {
        lemma_order_unique(s, min_size, by_size, out@);
    }
    out
}


proof fn lemma_first_not_before(s: Seq<Entry>, by_size: bool, o: Seq<usize>, i: usize, pos: int) -> (r: int)
    requires
        0 <= pos <= o.len(),
        forall|k: int| 0 <= k < pos ==> precedes(s, by_size, #[trigger] o[k] as int, i as int),
    ensures
        pos <= r <= o.len(),
        forall|k: int| 0 <= k < r ==> precedes(s, by_size, #[trigger] o[k] as int, i as int),
        r < o.len() ==> !precedes(s, by_size, o[r] as int, i as int),
    decreases o.len() - pos,
{
    if pos == o.len() || !precedes(s, by_size, o[pos] as int, i as int) {
        pos
    } else {
        lemma_first_not_before(s, by_size, o, i, pos + 1)
    }
}

proof fn lemma_order_prefix(s: Seq<Entry>, min_size: u64, by_size: bool, n: int) -> (o: Seq<usize>)
    requires
        0 <= n <= s.len(),
        s.len() <= usize::MAX,
    ensures
        in_order(s, by_size, o),
        forall|k: int| 0 <= k < o.len() ==> (#[trigger] o[k]) < n && visible(s, min_size, o[k] as int),
        forall|j: int| 0 <= j < n && visible(s, min_size, j) ==> o.contains(j as usize),
    decreases n,
{
    if n == 0 {
        Seq::empty()
    } else {
        let o = lemma_order_prefix(s, min_size, by_size, n - 1);
        let i = (n - 1) as usize;
        if !visible(s, min_size, n - 1) {
            o
        } else {
            let pos = lemma_first_not_before(s, by_size, o, i, 0);
            if pos < o.len() {
                lemma_precedes_order(s, by_size, o[pos] as int, i as int, 0);
            }
            lemma_insert_in_order(s, by_size, o, pos, i);
            let t = o.insert(pos, i);
            assert(t[pos] == i);
            assert forall|j: int| 0 <= j < n && visible(s, min_size, j) implies t.contains(j as usize) by {
                if j < n - 1 {
                    let k = choose|k: int| 0 <= k < o.len() && o[k] == j as usize;
                    if k < pos {
                        assert(t[k] == j as usize);
                    } else {
                        assert(t[k + 1] == j as usize);
                    }
                }
            }
            t
        }
    }
}

/// Any siblings (as many as a `Vec` can hold) have a listing order, so `order`
/// lists exactly the visible siblings, each once, in listing order.
pub proof fn lemma_order_arranged(s: Seq<Entry>, min_size: u64, by_size: bool)
    requires
        s.len() <= usize::MAX,
    ensures
        arranged(s, min_size, by_size, order(s, min_size, by_size)),
{
    let o = lemma_order_prefix(s, min_size, by_size, s.len() as int);
    assert(arranged(s, min_size, by_size, o));
}

/// Siblings with equal keys (equal sizes when sorting by size, equal names when
/// sorting by name) are listed in the order in which they were read.
pub proof fn lemma_ties_keep_read_order(s: Seq<Entry>, min_size: u64, by_size: bool, k1: int, k2: int)
    requires
        s.len() <= usize::MAX,
        0 <= k1 < k2 < order(s, min_size, by_size).len(),
        by_size ==> size_of(s[order(s, min_size, by_size)[k1] as int]) == size_of(
            s[order(s, min_size, by_size)[k2] as int],
        ),
        !by_size ==> s[order(s, min_size, by_size)[k1] as int].name@ == s[order(
            s,
            min_size,
            by_size,
        )[k2] as int].name@,
    ensures
        order(s, min_size, by_size)[k1] < order(s, min_size, by_size)[k2],
{
    lemma_order_arranged(s, min_size, by_size);
    let o = order(s, min_size, by_size);
    assert(precedes(s, by_size, o[k1] as int, o[k2] as int));
    lemma_text_irreflexive(s[o[k1] as int].name@);
}

} // verus!
