use vstd::prelude::*;
use crate::error::SizeError;

verus! {

/// The upper-case form of a text, as Unicode's case mapping gives it.
pub uninterp spec fn upper_of(s: Seq<char>) -> Seq<char>;

/// Relies on `str::to_uppercase`: the result depends on the characters alone.
#[verifier::external_body]
fn to_upper(s: &str) -> (r: String)
    ensures
        r@ == upper_of(s@),
{
    s.to_uppercase()
}

/// Unicode `White_Space`, the characters that `char::is_whitespace` accepts.
pub open spec fn is_space(c: char) -> bool {
    let x = c as u32;
    (0x9 <= x <= 0xd) || x == 0x20 || x == 0x85 || x == 0xa0 || x == 0x1680 || (0x2000 <= x
        <= 0x200a) || x == 0x2028 || x == 0x2029 || x == 0x202f || x == 0x205f || x == 0x3000
}

/// `s` without its leading white space.
pub open spec fn trim_start(s: Seq<char>) -> Seq<char>
    decreases s.len(),
{
    if s.len() > 0 && is_space(s[0]) {
        trim_start(s.drop_first())
    } else {
        s
    }
}

/// `s` without its trailing white space.
pub open spec fn trim_end(s: Seq<char>) -> Seq<char>
    decreases s.len(),
{
    if s.len() > 0 && is_space(s.last()) {
        trim_end(s.drop_last())
    } else {
        s
    }
}

/// `s` without leading and trailing white space.
pub open spec fn trimmed(s: Seq<char>) -> Seq<char> {
    trim_end(trim_start(s))
}

pub open spec fn is_digit(c: char) -> bool {
    '0' <= c <= '9'
}

pub open spec fn all_digits(s: Seq<char>) -> bool {
    forall|i: int| 0 <= i < s.len() ==> is_digit(#[trigger] s[i])
}

/// The number part and the byte multiplier of an upper-case size expression:
/// the first of the suffixes KB, MB, GB, B, K, M, G that ends it is taken off;
/// with none of them the unit is bytes.
pub open spec fn unit_split(t: Seq<char>) -> (Seq<char>, nat) {
    let n = t.len() as int;
    if n >= 2 && t[n - 2] == 'K' && t[n - 1] == 'B' {
        (t.subrange(0, n - 2), 1024)
    } else if n >= 2 && t[n - 2] == 'M' && t[n - 1] == 'B' {
        (t.subrange(0, n - 2), 1048576)
    } else if n >= 2 && t[n - 2] == 'G' && t[n - 1] == 'B' {
        (t.subrange(0, n - 2), 1073741824)
    } else if n >= 1 && t[n - 1] == 'B' {
        (t.subrange(0, n - 1), 1)
    } else if n >= 1 && t[n - 1] == 'K' {
        (t.subrange(0, n - 1), 1024)
    } else if n >= 1 && t[n - 1] == 'M' {
        (t.subrange(0, n - 1), 1048576)
    } else if n >= 1 && t[n - 1] == 'G' {
        (t.subrange(0, n - 1), 1073741824)
    } else {
        (t, 1)
    }
}

/// A leading sign of a number, if any.
pub open spec fn has_sign(s: Seq<char>) -> bool {
    s.len() > 0 && (s[0] == '+' || s[0] == '-')
}

/// A number without its sign.
pub open spec fn unsigned_part(s: Seq<char>) -> Seq<char> {
    if has_sign(s) {
        s.drop_first()
    } else {
        s
    }
}

/// `b` is a decimal magnitude whose point, if any, stands at `d` (`d == b.len()`
/// when there is none): digits, at most one point, and at least one digit.
pub open spec fn magnitude_at(b: Seq<char>, d: int) -> bool {
    &&& 0 <= d <= b.len()
    &&& all_digits(b.subrange(0, d))
    &&& d < b.len() ==> b[d] == '.' && all_digits(b.subrange(d + 1, b.len() as int))
    &&& b.len() > (if d < b.len() { 1int } else { 0int })
}

pub open spec fn is_magnitude(b: Seq<char>) -> bool {
    exists|d: int| magnitude_at(b, d)
}

/// An exponent: an optional sign and at least one digit.
pub open spec fn is_exponent(e: Seq<char>) -> bool {
    unsigned_part(e).len() > 0 && all_digits(unsigned_part(e))
}

/// `b` is a decimal number whose exponent, if any, starts at `x` (`x == b.len()`
/// when there is none): a magnitude, then optionally `E` and an exponent.
pub open spec fn float_at(b: Seq<char>, x: int) -> bool {
    &&& 0 <= x <= b.len()
    &&& is_magnitude(b.subrange(0, x))
    &&& x < b.len() ==> b[x] == 'E' && is_exponent(b.subrange(x + 1, b.len() as int))
}

pub open spec fn is_float(b: Seq<char>) -> bool {
    exists|x: int| float_at(b, x)
}

/// The description of the fault in a text that is no size expression.
pub open spec fn fault_text(t: Seq<char>) -> Seq<char> {
    if t.len() == 0 {
        "Empty size string"@
    } else {
        "Invalid number: "@ + unit_split(t).0
    }
}

/// The number part of a size expression is one that a floating-point reading
/// accepts: an optional sign, then INF, INFINITY, NAN or a decimal number.
pub open spec fn is_number(num: Seq<char>) -> bool {
    let b = unsigned_part(num);
    b == "NAN"@ || b == "INF"@ || b == "INFINITY"@ || is_float(b)
}

/// An upper-case, trimmed text is a size expression: not empty, and its number
/// part (what is left once the unit is taken off) is a number.
pub open spec fn is_size_expr(t: Seq<char>) -> bool {
    t.len() > 0 && is_number(unit_split(t).0)
}

/// A size expression read as far as the units go: the number text, still to be
/// read as a floating-point value, and the bytes of its unit.
pub struct SizeExpr {
    pub number: String,
    pub multiplier: u64,
}

/// The outcome that a size expression's upper-case, trimmed text `t` gives.
pub open spec fn parsed_as(t: Seq<char>, r: Result<SizeExpr, SizeError>) -> bool {
    &&& r is Ok <==> is_size_expr(t)
    &&& r is Ok ==> r->Ok_0.number@ == unit_split(t).0 && r->Ok_0.multiplier == unit_split(t).1
    &&& r is Err ==> (r->Err_0 matches SizeError::ParseError(m) && m@ == fault_text(t))
}

pub(crate) fn chars_of(s: &str) -> (r: Vec<char>)
    ensures
        r@ == s@,
{
    let n = s.unicode_len();
    let mut r: Vec<char> = Vec::new();
    let mut i: usize = 0;
    while i < n
        invariant
            n == s@.len(),
            i <= n,
            r@ == s@.subrange(0, i as int),
        decreases n - i,
    {
        r.push(s.get_char(i));
        i = i + 1;
    }
    assert(r@ =~= s@);
    r
}

fn space(c: char) -> (r: bool)
    ensures
        r == is_space(c),
{
    let x = c as u32;
    (0x9 <= x && x <= 0xd) || x == 0x20 || x == 0x85 || x == 0xa0 || x == 0x1680 || (0x2000 <= x
        && x <= 0x200a) || x == 0x2028 || x == 0x2029 || x == 0x202f || x == 0x205f || x == 0x3000
}

proof fn lemma_trim_start_skip(s: Seq<char>, i: int)
    requires
        0 <= i < s.len(),
        is_space(s[i]),
    ensures
        trim_start(s.subrange(i, s.len() as int)) == trim_start(s.subrange(i + 1, s.len() as int)),
{
    let t = s.subrange(i, s.len() as int);
    assert(t.drop_first() =~= s.subrange(i + 1, s.len() as int));
}

proof fn lemma_trim_end_skip(s: Seq<char>, j: int)
    requires
        0 < j <= s.len(),
        is_space(s[j - 1]),
    ensures
        trim_end(s.subrange(0, j)) == trim_end(s.subrange(0, j - 1)),
{
    let t = s.subrange(0, j);
    assert(t.drop_last() =~= s.subrange(0, j - 1));
}

/// Removes leading and trailing white space (Unicode `White_Space`).
pub fn trim(s: &str) -> (r: &str)
    ensures
        r@ == trimmed(s@),
{
    let v = chars_of(s);
    let n = v.len();
    let mut i: usize = 0;
    assert(s@.subrange(0, n as int) =~= s@);
    while i < n && space(v[i])
        invariant
            v@ == s@,
            n == v@.len(),
            i <= n,
            trim_start(s@) == trim_start(s@.subrange(i as int, n as int)),
        decreases n - i,
    {
        proof {
            lemma_trim_start_skip(s@, i as int);
        }
        i = i + 1;
    }
    let ghost rest = s@.subrange(i as int, n as int);
    assert(trim_start(rest) == rest);
    let mut j: usize = n;
    while j > i && space(v[j - 1])
        invariant
            v@ == s@,
            n == v@.len(),
            i <= j <= n,
            rest == s@.subrange(i as int, n as int),
            trim_end(rest) == trim_end(s@.subrange(i as int, j as int)),
        decreases j,
    {
        proof {
            let u = s@.subrange(i as int, j as int);
            lemma_trim_end_skip(u, u.len() as int);
            assert(u.subrange(0, u.len() as int) =~= u);
            assert(u.subrange(0, u.len() - 1) =~= s@.subrange(i as int, j - 1));
        }
        j = j - 1;
    }
    assert(trim_start(s@) == rest);
    s.substring_char(i, j)
}


/// The length of the number part and the multiplier of an upper-case size expression.
fn split_unit(v: &Vec<char>) -> (r: (usize, u64))
    ensures
        r.0 <= v@.len(),
        unit_split(v@) == (v@.subrange(0, r.0 as int), r.1 as nat),
        1 <= r.1 <= 1073741824,
{
    let n = v.len();
    let r: (usize, u64) = if n >= 2 && v[n - 2] == 'K' && v[n - 1] == 'B' {
        (n - 2, 1024)
    } else if n >= 2 && v[n - 2] == 'M' && v[n - 1] == 'B' {
        (n - 2, 1048576)
    } else if n >= 2 && v[n - 2] == 'G' && v[n - 1] == 'B' {
        (n - 2, 1073741824)
    } else if n >= 1 && v[n - 1] == 'B' {
        (n - 1, 1)
    } else if n >= 1 && v[n - 1] == 'K' {
        (n - 1, 1024)
    } else if n >= 1 && v[n - 1] == 'M' {
        (n - 1, 1048576)
    } else if n >= 1 && v[n - 1] == 'G' {
        (n - 1, 1073741824)
    } else {
        (n, 1)
    };
    assert(v@.subrange(0, n as int) =~= v@);
    r
}

pub(crate) fn digit(c: char) -> (r: bool)
    ensures
        r == is_digit(c),
{
    '0' <= c && c <= '9'
}

/// `v[start..end]` is a magnitude.
fn is_magnitude_text(v: &Vec<char>, start: usize, end: usize) -> (r: bool)
    requires
        start <= end <= v@.len(),
    ensures
        r == is_magnitude(v@.subrange(start as int, end as int)),
{
    let ghost b = v@.subrange(start as int, end as int);
    let mut p: usize = start;
    while p < end && v[p] != '.'
        invariant
            start <= p <= end <= v@.len(),
            forall|j: int| start <= j < p ==> v@[j] != '.',
        decreases end - p,
    {
        p = p + 1;
    }
    let ghost d = p - start;
    assert(p < end ==> v@[p as int] == '.');
    let mut i: usize = start;
    while i < p
        invariant
            start <= i <= p <= end <= v@.len(),
            b == v@.subrange(start as int, end as int),
            d == p - start,
            forall|x: int| start <= x < p ==> v@[x] != '.',
            p < end ==> v@[p as int] == '.',
            all_digits(v@.subrange(start as int, i as int)),
        decreases p - i,
    {
        let c = v[i];
        if !digit(c) {
            proof {
                let x = i - start;
                assert(b[x] == c);
                assert forall|e: int| !magnitude_at(b, e) by {
                    if magnitude_at(b, e) {
                        if e <= x {
                            assert(b[e] == v@[start + e]);
                        } else {
                            assert(b.subrange(0, e)[x] == c);
                        }
                    }
                }
            }
            return false;
        }
        let ghost prev = v@.subrange(start as int, i as int);
        let ghost next = v@.subrange(start as int, i + 1);
        i = i + 1;
        assert(all_digits(next)) by {
            assert forall|k: int| 0 <= k < next.len() implies is_digit(#[trigger] next[k]) by {
                if k < prev.len() {
                    assert(next[k] == prev[k]);
                }
            }
        }
    }
    let fstart: usize = if p < end { p + 1 } else { end };
    let mut k: usize = fstart;
    while k < end
        invariant
            start <= p <= end <= v@.len(),
            fstart == if p < end { p + 1 } else { end as int },
            fstart <= k <= end,
            b == v@.subrange(start as int, end as int),
            d == p - start,
            forall|x: int| start <= x < p ==> v@[x] != '.',
            p < end ==> v@[p as int] == '.',
            all_digits(v@.subrange(start as int, p as int)),
            all_digits(v@.subrange(fstart as int, k as int)),
        decreases end - k,
    {
        if !digit(v[k]) {
            proof {
                assert forall|e: int| !magnitude_at(b, e) by {
                    if magnitude_at(b, e) {
                        if e < d {
                            assert(b[e] == v@[start + e]);
                        } else if e == d {
                            assert(b.subrange(d + 1, b.len() as int)[k - p - 1] == v@[k as int]);
                        } else {
                            assert(b.subrange(0, e)[d] == v@[p as int]);
                        }
                    }
                }
            }
            return false;
        }
        let ghost prev = v@.subrange(fstart as int, k as int);
        let ghost next = v@.subrange(fstart as int, k + 1);
        assert(all_digits(next)) by {
            assert forall|x: int| 0 <= x < next.len() implies is_digit(#[trigger] next[x]) by {
                if x < prev.len() {
                    assert(next[x] == prev[x]);
                }
            }
        }
        k = k + 1;
    }
    if p == start && fstart == end {
        proof {
            assert forall|e: int| !magnitude_at(b, e) by {
                if magnitude_at(b, e) && e == 1 && b.len() == 1 {
                    assert(b.subrange(0, 1)[0] == b[0]);
                }
            }
        }
        return false;
    }
    proof {
        assert(b.subrange(0, d) =~= v@.subrange(start as int, p as int));
        if p < end {
            assert(b.subrange(d + 1, b.len() as int) =~= v@.subrange(fstart as int, end as int));
        }
        assert(magnitude_at(b, d as int));
    }
    true
}

/// `v[start..end]` is the text `w`.
fn word_is(v: &Vec<char>, start: usize, end: usize, w: &str) -> (r: bool)
    requires
        start <= end <= v@.len(),
    ensures
        r == (v@.subrange(start as int, end as int) == w@),
{
    let n = w.unicode_len();
    if end - start != n {
        return false;
    }
    let mut i: usize = 0;
    while i < n
        invariant
            start <= end <= v@.len(),
            end - start == n == w@.len(),
            i <= n,
            forall|j: int| 0 <= j < i ==> v@[start + j] == w@[j],
        decreases n - i,
    {
        if v[start + i] != w.get_char(i) {
            assert(v@.subrange(start as int, end as int)[i as int] != w@[i as int]);
            return false;
        }
        i = i + 1;
    }
    assert(v@.subrange(start as int, end as int) =~= w@);
    true
}

proof fn lemma_bad_exponent_no_number(b: Seq<char>, x: int)
    requires
        0 <= x < b.len(),
        b[x] == 'E',
        forall|j: int| 0 <= j < x ==> b[j] != 'E',
        !is_exponent(b.subrange(x + 1, b.len() as int)),
    ensures
        !is_float(b),
{
    assert forall|y: int| !float_at(b, y) by {
        if float_at(b, y) {
            if y > x {
                lemma_magnitude_has_no_e(b.subrange(0, y), x);
                assert(b.subrange(0, y)[x] == b[x]);
            }
        }
    }
}

/// A magnitude's characters are digits and one point.
proof fn lemma_magnitude_has_no_e(m: Seq<char>, i: int)
    requires
        is_magnitude(m),
        0 <= i < m.len(),
    ensures
        m[i] != 'E',
        is_digit(m[i]) || m[i] == '.',
{
    let d = choose|d: int| magnitude_at(m, d);
    if i < d {
        assert(m.subrange(0, d)[i] == m[i]);
    } else if i > d {
        assert(m.subrange(d + 1, m.len() as int)[i - d - 1] == m[i]);
    }
}

/// `v[from..end]` is an exponent.
fn exponent_ok(v: &Vec<char>, from: usize, end: usize) -> (r: bool)
    requires
        from <= end <= v@.len(),
    ensures
        r == is_exponent(v@.subrange(from as int, end as int)),
{
    let ghost e = v@.subrange(from as int, end as int);
    let es: usize = if from < end && (v[from] == '+' || v[from] == '-') {
        from + 1
    } else {
        from
    };
    assert(unsigned_part(e) =~= v@.subrange(es as int, end as int));
    let mut i: usize = es;
    while i < end
        invariant
            from <= es <= i <= end <= v@.len(),
            unsigned_part(v@.subrange(from as int, end as int)) == v@.subrange(es as int, end as int),
            all_digits(v@.subrange(es as int, i as int)),
        decreases end - i,
    {
        if !digit(v[i]) {
            assert(v@.subrange(es as int, end as int)[i - es] == v@[i as int]);
            return false;
        }
        let ghost prev = v@.subrange(es as int, i as int);
        let ghost next = v@.subrange(es as int, i + 1);
        assert(all_digits(next)) by {
            assert forall|k: int| 0 <= k < next.len() implies is_digit(#[trigger] next[k]) by {
                if k < prev.len() {
                    assert(next[k] == prev[k]);
                }
            }
        }
        i = i + 1;
    }
    es < end
}

/// `v[0..end]` is a number.
fn is_number_text(v: &Vec<char>, end: usize) -> (r: bool)
    requires
        end <= v@.len(),
    ensures
        r == is_number(v@.subrange(0, end as int)),
{
    let ghost num = v@.subrange(0, end as int);
    let mut start: usize = 0;
    if end > 0 && (v[0] == '+' || v[0] == '-') {
        start = 1;
    }
    let ghost b = v@.subrange(start as int, end as int);
    assert(b =~= unsigned_part(num));
    if word_is(v, start, end, "NAN") || word_is(v, start, end, "INF") || word_is(
        v,
        start,
        end,
        "INFINITY",
    ) {
        return true;
    }
    let mut x: usize = start;
    while x < end && v[x] != 'E'
        invariant
            start <= x <= end <= v@.len(),
            forall|j: int| start <= j < x ==> v@[j] != 'E',
        decreases end - x,
    {
        x = x + 1;
    }
    let ghost xe = x - start;
    assert(b.subrange(0, xe) =~= v@.subrange(start as int, x as int));
    if !is_magnitude_text(v, start, x) {
        proof {
            assert forall|y: int| !float_at(b, y) by {
                if float_at(b, y) {
                    if y < xe {
                        assert(b[y] == v@[start + y]);
                    } else if y > xe {
                        lemma_magnitude_has_no_e(b.subrange(0, y), xe);
                        assert(b.subrange(0, y)[xe] == b[xe]);
                    }
                }
            }
        }
        return false;
    }
    if x < end {
        assert(b.subrange(xe + 1, b.len() as int) =~= v@.subrange(x + 1, end as int));
        if !exponent_ok(v, x + 1, end) {
            proof {
                lemma_bad_exponent_no_number(b, xe);
            }
            return false;
        }
    }
    assert(float_at(b, xe));
    true
}

/// Reads a size expression that is already trimmed and upper-case: a number
/// as a floating-point reading takes it (optional sign; digits with at most one
/// point, optionally followed by `E` and a signed exponent; or INF, INFINITY,
/// NAN) followed by one of the units B, KB, MB, GB (or K, M, G), bytes when none
/// is given. It hands back the number text and the unit's bytes; the byte count
/// is that number read as a floating-point value, times the multiplier,
/// truncated to a `u64`, which the caller computes.
pub fn parse_normalized_size(text: &str) -> (r: Result<SizeExpr, SizeError>)
    ensures
        parsed_as(text@, r),
{
    proof {
        reveal_strlit("NAN");
        reveal_strlit("INF");
        reveal_strlit("INFINITY");
        reveal_strlit("Empty size string");
        reveal_strlit("Invalid number: ");
    }
    let v = chars_of(text);
    if v.len() == 0 {
        proof {
            let t = text@;
            assert(unit_split(t).0 =~= t);
            assert(unsigned_part(t) == t);
            assert forall|x: int| !float_at(t, x) by {
                if float_at(t, x) {
                    assert(t.subrange(0, x).len() == 0);
                    let d = choose|d: int| magnitude_at(t.subrange(0, x), d);
                }
            }
        }
        return Err(SizeError::ParseError(String::from_str("Empty size string")));
    }
    let (end, mult) = split_unit(&v);
    let num = text.substring_char(0, end);
    if is_number_text(&v, end) {
        Ok(SizeExpr { number: String::from_str(num), multiplier: mult })
    } else {
        Err(SizeError::ParseError(String::from_str("Invalid number: ").concat(num)))
    }
}

/// Reads a human-readable size expression ("0", "500KB", "1.5mb", "1e3"): the
/// text is trimmed and upper-cased, then read as `parse_normalized_size` does.
pub fn parse_size(size_str: &str) -> (r: Result<SizeExpr, SizeError>)
    ensures
        parsed_as(upper_of(trimmed(size_str@)), r),
{
    let t = trim(size_str);
    let u = to_upper(t);
    parse_normalized_size(u.as_str())
}


} // verus!
