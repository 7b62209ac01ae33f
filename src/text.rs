//! Character-level helpers for reading specification text: lines, trimming,
//! splitting on a separator and into words. Pieces are ranges of positions in
//! a sequence of characters.
use vstd::prelude::*;

verus! {

/// Unicode White_Space, as `char::is_whitespace` documents it.
pub open spec fn is_space(c: char) -> bool {
    ||| ('\t' <= c && c <= '\r')
    ||| c == ' '
    ||| c == '\u{85}'
    ||| c == '\u{A0}'
    ||| c == '\u{1680}'
    ||| ('\u{2000}' <= c && c <= '\u{200A}')
    ||| c == '\u{2028}'
    ||| c == '\u{2029}'
    ||| c == '\u{202F}'
    ||| c == '\u{205F}'
    ||| c == '\u{3000}'
}

pub fn space(c: char) -> (r: bool)
    ensures
        r == is_space(c),
{
    ('\t' <= c && c <= '\r') || c == ' ' || c == '\u{85}' || c == '\u{A0}' || c == '\u{1680}'
        || ('\u{2000}' <= c && c <= '\u{200A}') || c == '\u{2028}' || c == '\u{2029}'
        || c == '\u{202F}' || c == '\u{205F}' || c == '\u{3000}'
}

/// The characters of a string.
pub fn chars_of(s: &str) -> (r: Vec<char>)
    ensures
        r@ == s@,
{
    let n = s.unicode_len();
    let mut r: Vec<char> = Vec::new();
    let mut i: usize = 0;
    while i < n
        invariant
            n == s@.len(),
            i <= n,
            r@ == s@.subrange(0, i as int),
        decreases n - i,
    {
        r.push(s.get_char(i));
        i = i + 1;
    }
    assert(r@ =~= s@);
    r
}

/// The characters of `s` from `a` up to `b`, as a string.
pub fn piece(s: &str, a: usize, b: usize) -> (r: String)
    requires
        a <= b <= s@.len(),
    ensures
        r@ == s@.subrange(a as int, b as int),
{
    s.substring_char(a, b).to_owned()
}

/// The first position in `[i, j)` that holds `c`, or `j`.
pub open spec fn find_char(t: Seq<char>, c: char, i: int, j: int) -> int
    decreases j - i,
{
    if i >= j {
        j
    } else if t[i] == c {
        i
    } else {
        find_char(t, c, i + 1, j)
    }
}

pub fn find(t: &Vec<char>, c: char, i: usize, j: usize) -> (r: usize)
    requires
        i <= j <= t@.len(),
    ensures
        r == find_char(t@, c, i as int, j as int),
        i <= r <= j,
{
    let mut k = i;
    while k < j
        invariant
            i <= k <= j <= t@.len(),
            find_char(t@, c, i as int, j as int) == find_char(t@, c, k as int, j as int),
        decreases j - k,
    {
        if t[k] == c {
            return k;
        }
        k = k + 1;
    }
    k
}

/// The first position in `[i, j)` that starts the two characters `->`, or `j`.
pub open spec fn find_arrow(t: Seq<char>, i: int, j: int) -> int
    decreases j - i,
{
    if i + 1 >= j {
        j
    } else if t[i] == '-' && t[i + 1] == '>' {
        i
    } else {
        find_arrow(t, i + 1, j)
    }
}

pub fn arrow(t: &Vec<char>, i: usize, j: usize) -> (r: usize)
    requires
        i <= j <= t@.len(),
    ensures
        r == find_arrow(t@, i as int, j as int),
        r == j || (i <= r && r + 1 < j),
{
    let mut k = i;
    while j - k > 1
        invariant
            i <= k <= j <= t@.len(),
            find_arrow(t@, i as int, j as int) == find_arrow(t@, k as int, j as int),
        decreases j - k,
    {
        if t[k] == '-' && t[k + 1] == '>' {
            return k;
        }
        k = k + 1;
    }
    j
}

/// Start of `[i, j)` once leading white space is skipped.
pub open spec fn trim_lo(t: Seq<char>, i: int, j: int) -> int
    decreases j - i,
{
    if i >= j {
        j
    } else if is_space(t[i]) {
        trim_lo(t, i + 1, j)
    } else {
        i
    }
}

/// End of `[i, j)` once trailing white space is dropped.
pub open spec fn trim_hi(t: Seq<char>, i: int, j: int) -> int
    decreases j - i,
{
    if j <= i {
        i
    } else if is_space(t[j - 1]) {
        trim_hi(t, i, j - 1)
    } else {
        j
    }
}

/// The range `[i, j)` with white space trimmed at both ends.
pub open spec fn trimmed(t: Seq<char>, i: int, j: int) -> (int, int) {
    let lo = trim_lo(t, i, j);
    (lo, trim_hi(t, lo, j))
}

pub fn trim(t: &Vec<char>, i: usize, j: usize) -> (r: (usize, usize))
    requires
        i <= j <= t@.len(),
    ensures
        r.0 as int == trimmed(t@, i as int, j as int).0,
        r.1 as int == trimmed(t@, i as int, j as int).1,
        i <= r.0 <= r.1 <= j,
{
    let mut lo = i;
    while lo < j && space(t[lo])
        invariant
            i <= lo <= j <= t@.len(),
            trim_lo(t@, i as int, j as int) == trim_lo(t@, lo as int, j as int),
        decreases j - lo,
    {
        lo = lo + 1;
    }
    let mut hi = j;
    while hi > lo && space(t[hi - 1])
        invariant
            lo <= hi <= j <= t@.len(),
            trim_hi(t@, lo as int, j as int) == trim_hi(t@, lo as int, hi as int),
        decreases hi,
    {
        hi = hi - 1;
    }
    (lo, hi)
}

/// The pieces of `[i, j)` between occurrences of `c`; always at least one.
pub open spec fn split_ranges(t: Seq<char>, c: char, i: int, j: int) -> Seq<(int, int)>
    decreases j - i + 1,
{
    let k = find_char(t, c, i, j);
    if i > j || k >= j {
        seq![(i, j)]
    } else if k < i {
        seq![(i, j)]
    } else {
        seq![(i, k)] + split_ranges(t, c, k + 1, j)
    }
}

/// Ranges of positions, as integers.
pub open spec fn as_ints(r: Seq<(usize, usize)>) -> Seq<(int, int)> {
    r.map_values(|p: (usize, usize)| (p.0 as int, p.1 as int))
}

pub open spec fn within(r: Seq<(usize, usize)>, i: int, j: int) -> bool {
    forall|k: int| 0 <= k < r.len() ==> i <= (#[trigger] r[k]).0 <= r[k].1 <= j
}

pub fn split(t: &Vec<char>, c: char, i: usize, j: usize) -> (r: Vec<(usize, usize)>)
    requires
        i <= j <= t@.len(),
    ensures
        as_ints(r@) == split_ranges(t@, c, i as int, j as int),
        within(r@, i as int, j as int),
{
    let mut r: Vec<(usize, usize)> = Vec::new();
    let mut a = i;
    loop
        invariant
            i <= a <= j <= t@.len(),
            within(r@, i as int, j as int),
            split_ranges(t@, c, i as int, j as int) =~= as_ints(r@) + split_ranges(
                t@,
                c,
                a as int,
                j as int,
            ),
        decreases j - a,
    {
        let k = find(t, c, a, j);
        let ghost old_r = r@;
        if k >= j {
            r.push((a, j));
            assert(as_ints(r@) =~= as_ints(old_r).push((a as int, j as int)));
            return r;
        }
        r.push((a, k));
        assert(as_ints(r@) =~= as_ints(old_r).push((a as int, k as int)));
        a = k + 1;
    }
}

/// The maximal runs of non-space characters in `[i, j)`.
pub open spec fn word_ranges(t: Seq<char>, i: int, j: int) -> Seq<(int, int)>
    decreases j - i,
{
    let s = trim_lo(t, i, j);
    if i >= j || s >= j || s < i {
        Seq::empty()
    } else {
        let e = word_end(t, s, j);
        if e <= s || e > j {
            Seq::empty()
        } else {
            seq![(s, e)] + word_ranges(t, e, j)
        }
    }
}

/// The first space at or after `i` in `[i, j)`, or `j`.
pub open spec fn word_end(t: Seq<char>, i: int, j: int) -> int
    decreases j - i,
{
    if i >= j {
        j
    } else if is_space(t[i]) {
        i
    } else {
        word_end(t, i + 1, j)
    }
}

pub fn words(t: &Vec<char>, i: usize, j: usize) -> (r: Vec<(usize, usize)>)
    requires
        i <= j <= t@.len(),
    ensures
        as_ints(r@) == word_ranges(t@, i as int, j as int),
        within(r@, i as int, j as int),
{
    let mut r: Vec<(usize, usize)> = Vec::new();
    let mut a = i;
    loop
        invariant
            i <= a <= j <= t@.len(),
            within(r@, i as int, j as int),
            word_ranges(t@, i as int, j as int) =~= as_ints(r@) + word_ranges(t@, a as int, j as int),
        decreases j - a,
    {
        let mut s = a;
        while s < j && space(t[s])
            invariant
                a <= s <= j <= t@.len(),
                trim_lo(t@, a as int, j as int) == trim_lo(t@, s as int, j as int),
            decreases j - s,
        {
            s = s + 1;
        }
        if s >= j {
            assert(as_ints(r@) =~= as_ints(r@) + Seq::<(int, int)>::empty());
            return r;
        }
        let mut e = s;
        while e < j && !space(t[e])
            invariant
                s <= e <= j <= t@.len(),
                word_end(t@, s as int, j as int) == word_end(t@, e as int, j as int),
            decreases j - e,
        {
            e = e + 1;
        }
        let ghost old_r = r@;
        r.push((s, e));
        assert(as_ints(r@) =~= as_ints(old_r).push((s as int, e as int)));
        a = e;
    }
}

/// The lines of `t` from position `i`, as `str::lines` gives them: split at
/// each `\n`, a `\r` right before it dropped, no empty line after a final `\n`.
pub open spec fn line_ranges(t: Seq<char>, i: int) -> Seq<(int, int)>
    decreases t.len() - i,
{
    let k = find_char(t, '\n', i, t.len() as int);
    if i < 0 || i >= t.len() || k < i || k > t.len() {
        Seq::empty()
    } else {
        let e = if k < t.len() && k > i && t[k - 1] == '\r' {
            k - 1
        } else {
            k
        };
        if k >= t.len() {
            seq![(i, e)]
        } else {
            seq![(i, e)] + line_ranges(t, k + 1)
        }
    }
}

pub fn lines(t: &Vec<char>) -> (r: Vec<(usize, usize)>)
    ensures
        as_ints(r@) == line_ranges(t@, 0),
        within(r@, 0, t@.len() as int),
{
    let n = t.len();
    let mut r: Vec<(usize, usize)> = Vec::new();
    let mut a: usize = 0;
    while a < n
        invariant
            n == t@.len(),
            a <= n,
            within(r@, 0, n as int),
            line_ranges(t@, 0) =~= as_ints(r@) + line_ranges(t@, a as int),
        decreases n - a,
    {
        let k = find(t, '\n', a, n);
        let e = if k < n && k > a && t[k - 1] == '\r' {
            k - 1
        } else {
            k
        };
        let ghost old_r = r@;
        r.push((a, e));
        assert(as_ints(r@) =~= as_ints(old_r).push((a as int, e as int)));
        if k >= n {
            assert(as_ints(r@) =~= as_ints(r@) + Seq::<(int, int)>::empty());
            return r;
        }
        a = k + 1;
    }
    assert(as_ints(r@) =~= as_ints(r@) + Seq::<(int, int)>::empty());
    r
}

} // verus!
