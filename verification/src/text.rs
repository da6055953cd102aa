//! Character-level helpers shared by the index, the query parser and the
//! result views: ordering of names, substring and wildcard matching, path
//! joining, and the few standard-library string conversions the library
//! relies on.
use vstd::prelude::*;

verus! {

// ---------------------------------------------------------------------------
// Lexicographic order on character sequences.
//
// Rust orders `str` by its UTF-8 bytes, and SQLite's BINARY collation does the
// same; UTF-8 preserves code-point order, so both agree with the order below.
// ---------------------------------------------------------------------------

/// `a` sorts before or equal to `b`, comparing code points from the front and
/// treating a proper prefix as smaller.
pub open spec fn lex_le(a: Seq<char>, b: Seq<char>) -> bool
    decreases a.len(),
{
    if a.len() == 0 {
        true
    } else if b.len() == 0 {
        false
    } else if a[0] != b[0] {
        a[0] < b[0]
    } else {
        lex_le(a.drop_first(), b.drop_first())
    }
}

/// Strict lexicographic order.
pub open spec fn lex_lt(a: Seq<char>, b: Seq<char>) -> bool {
    lex_le(a, b) && a != b
}

/// The order in which result names are listed: shorter names first, names of
/// equal length in lexicographic order.
pub open spec fn name_le(a: Seq<char>, b: Seq<char>) -> bool {
    a.len() < b.len() || (a.len() == b.len() && lex_le(a, b))
}

pub proof fn lemma_lex_refl(a: Seq<char>)
    ensures
        lex_le(a, a),
    decreases a.len(),
{
    if a.len() > 0 {
        lemma_lex_refl(a.drop_first());
    }
}

pub proof fn lemma_lex_total(a: Seq<char>, b: Seq<char>)
    ensures
        lex_le(a, b) || lex_le(b, a),
    decreases a.len(),
{
    if a.len() > 0 && b.len() > 0 && a[0] == b[0] {
        lemma_lex_total(a.drop_first(), b.drop_first());
    }
}

pub proof fn lemma_lex_antisym(a: Seq<char>, b: Seq<char>)
    requires
        lex_le(a, b),
        lex_le(b, a),
    ensures
        a == b,
    decreases a.len(),
{
    if a.len() > 0 && b.len() > 0 {
        if a[0] == b[0] {
            lemma_lex_antisym(a.drop_first(), b.drop_first());
            assert(a =~= seq![a[0]] + a.drop_first());
            assert(b =~= seq![b[0]] + b.drop_first());
        }
    } else {
        assert(a =~= b);
    }
}

pub proof fn lemma_lex_trans(a: Seq<char>, b: Seq<char>, c: Seq<char>)
    requires
        lex_le(a, b),
        lex_le(b, c),
    ensures
        lex_le(a, c),
    decreases a.len(),
{
    if a.len() > 0 && b.len() > 0 && c.len() > 0 {
        if a[0] == b[0] && b[0] == c[0] {
            lemma_lex_trans(a.drop_first(), b.drop_first(), c.drop_first());
        }
    }
}

/// A proper prefix sorts strictly before the longer text, and every text
/// sorts before or with anything it is a prefix of; in particular the empty
/// text sorts first.
pub proof fn lemma_prefix_sorts_first(a: Seq<char>, b: Seq<char>)
    ensures
        lex_le(a, a + b),
        b.len() > 0 ==> !lex_le(a + b, a),
        b.len() > 0 ==> lex_lt(a, a + b),
    decreases a.len(),
{
    if a.len() > 0 {
        assert((a + b).drop_first() =~= a.drop_first() + b);
        assert((a + b)[0] == a[0]);
        lemma_prefix_sorts_first(a.drop_first(), b);
    } else {
        assert(a + b =~= b);
    }
    if b.len() > 0 {
        assert((a + b).len() != a.len());
    }
}

/// `a` and `b` agree on their first `k` characters and differ at the next,
/// where `a` holds the smaller code point.
pub open spec fn first_difference_smaller(a: Seq<char>, b: Seq<char>, k: int) -> bool {
    &&& 0 <= k < a.len()
    &&& k < b.len()
    &&& a.take(k) == b.take(k)
    &&& a[k] < b[k]
}

/// The order on texts is the code-point order that Rust strings and
/// SQLite's BINARY collation use: `a` sorts before or with `b` exactly when
/// `a` is a prefix of `b`, or at the first position where they differ `a`
/// holds the smaller code point.
pub proof fn lemma_lex_le_is_code_point_order(a: Seq<char>, b: Seq<char>)
    ensures
        lex_le(a, b) <==> ((a.len() <= b.len() && b.take(a.len() as int) == a) || exists|k: int|
            first_difference_smaller(a, b, k)),
    decreases a.len(),
{
    if a.len() == 0 {
        assert(b.take(0) =~= a);
    } else if b.len() == 0 {
        assert(!exists|k: int| first_difference_smaller(a, b, k));
    } else if a[0] != b[0] {
        assert(!(a.len() <= b.len() && b.take(a.len() as int) == a)) by {
            if a.len() <= b.len() && b.take(a.len() as int) == a {
                assert(b.take(a.len() as int)[0] == b[0]);
            }
        }
        if a[0] < b[0] {
            assert(a.take(0) =~= b.take(0));
            assert(first_difference_smaller(a, b, 0));
        } else {
            assert forall|k: int| !first_difference_smaller(a, b, k) by {
                if first_difference_smaller(a, b, k) && k > 0 {
                    assert(a.take(k)[0] == b.take(k)[0]);
                }
            }
        }
    } else {
        let a1 = a.drop_first();
        let b1 = b.drop_first();
        lemma_lex_le_is_code_point_order(a1, b1);
        assert((a.len() <= b.len() && b.take(a.len() as int) == a) <==> (a1.len() <= b1.len() && b1.take(
            a1.len() as int,
        ) == a1)) by {
            if a.len() <= b.len() && b.take(a.len() as int) == a {
                assert(b1.take(a1.len() as int) =~= b.take(a.len() as int).drop_first());
            }
            if a1.len() <= b1.len() && b1.take(a1.len() as int) == a1 {
                assert(b.take(a.len() as int) =~= seq![b[0]] + b1.take(a1.len() as int));
                assert(a =~= seq![a[0]] + a1);
            }
        }
        assert((exists|k: int| first_difference_smaller(a, b, k)) <==> (exists|k: int|
            first_difference_smaller(a1, b1, k))) by {
            if exists|k: int| first_difference_smaller(a, b, k) {
                let k = choose|k: int| first_difference_smaller(a, b, k);
                if k == 0 {
                    assert(a[0] == b[0]);
                } else {
                    assert(a1.take(k - 1) =~= a.take(k).drop_first());
                    assert(b1.take(k - 1) =~= b.take(k).drop_first());
                    assert(first_difference_smaller(a1, b1, k - 1));
                }
            }
            if exists|k: int| first_difference_smaller(a1, b1, k) {
                let k = choose|k: int| first_difference_smaller(a1, b1, k);
                assert(a.take(k + 1) =~= seq![a[0]] + a1.take(k));
                assert(b.take(k + 1) =~= seq![b[0]] + b1.take(k));
                assert(first_difference_smaller(a, b, k + 1));
            }
        }
    }
}

pub proof fn lemma_name_total(a: Seq<char>, b: Seq<char>)
    ensures
        name_le(a, b) || name_le(b, a),
{
    lemma_lex_total(a, b);
}

pub proof fn lemma_name_trans(a: Seq<char>, b: Seq<char>, c: Seq<char>)
    requires
        name_le(a, b),
        name_le(b, c),
    ensures
        name_le(a, c),
{
    if a.len() == b.len() && b.len() == c.len() {
        lemma_lex_trans(a, b, c);
    }
}

pub proof fn lemma_name_refl(a: Seq<char>)
    ensures
        name_le(a, a),
{
    lemma_lex_refl(a);
}

/// Compares two character sequences in lexicographic order.
pub fn lex_le_chars(a: &Vec<char>, b: &Vec<char>) -> (r: bool)
    ensures
        r == lex_le(a@, b@),
{
    let mut i: usize = 0;
    assert(a@.skip(0) =~= a@);
    assert(b@.skip(0) =~= b@);
    while i < a.len() && i < b.len()
        invariant
            i <= a.len(),
            i <= b.len(),
            a@.take(i as int) == b@.take(i as int),
            lex_le(a@, b@) == lex_le(a@.skip(i as int), b@.skip(i as int)),
        decreases a.len() - i,
    {
        let x = a[i];
        let y = b[i];
        assert(a@.skip(i as int)[0] == x);
        assert(b@.skip(i as int)[0] == y);
        if x != y {
            return x < y;
        }
        assert(a@.skip(i as int).drop_first() =~= a@.skip(i + 1));
        assert(b@.skip(i as int).drop_first() =~= b@.skip(i + 1));
        assert(a@.take(i + 1) =~= a@.take(i as int).push(x));
        assert(b@.take(i + 1) =~= b@.take(i as int).push(y));
        i = i + 1;
    }
    i == a.len()
}

/// Compares two names in listing order (length first, then lexicographic).
pub fn name_le_chars(a: &Vec<char>, b: &Vec<char>) -> (r: bool)
    ensures
        r == name_le(a@, b@),
{
    if a.len() < b.len() {
        true
    } else if a.len() == b.len() {
        lex_le_chars(a, b)
    } else {
        false
    }
}

// ---------------------------------------------------------------------------
// Substrings.
// ---------------------------------------------------------------------------

/// `needle` occurs in `hay` starting at position `i`.
pub open spec fn occurs_at<T>(hay: Seq<T>, needle: Seq<T>, i: int) -> bool {
    0 <= i && i + needle.len() <= hay.len() && hay.subrange(i, i + needle.len()) == needle
}

/// `needle` occurs somewhere in `hay` (the empty sequence occurs everywhere).
pub open spec fn is_substring<T>(needle: Seq<T>, hay: Seq<T>) -> bool {
    exists|i: int| occurs_at(hay, needle, i)
}

fn occurs_at_exec(hay: &Vec<char>, needle: &Vec<char>, i: usize) -> (r: bool)
    requires
        i + needle.len() <= hay.len(),
    ensures
        r == occurs_at(hay@, needle@, i as int),
{
    let mut j: usize = 0;
    while j < needle.len()
        invariant
            j <= needle.len(),
            i + needle.len() <= hay.len(),
            forall|k: int| 0 <= k < j ==> hay@[i + k] == needle@[k],
        decreases needle.len() - j,
    {
        if hay[i + j] != needle[j] {
            assert(hay@.subrange(i as int, i + needle.len())[j as int] != needle@[j as int]);
            return false;
        }
        j = j + 1;
    }
    assert(hay@.subrange(i as int, i + needle.len()) =~= needle@);
    true
}

/// Whether `needle` occurs in `hay`.
pub fn contains_chars(hay: &Vec<char>, needle: &Vec<char>) -> (r: bool)
    ensures
        r == is_substring(needle@, hay@),
{
    if needle.len() > hay.len() {
        assert forall|i: int| !occurs_at(hay@, needle@, i) by {}
        return false;
    }
    let last = hay.len() - needle.len();
    let mut i: usize = 0;
    loop
        invariant
            last == hay.len() - needle.len(),
            needle.len() <= hay.len(),
            i <= last,
            forall|k: int| 0 <= k < i ==> !occurs_at(hay@, needle@, k),
        ensures
            forall|k: int| 0 <= k <= last ==> !occurs_at(hay@, needle@, k),
        decreases last - i,
    {
        if occurs_at_exec(hay, needle, i) {
            return true;
        }
        if i == last {
            break;
        }
        i = i + 1;
    }
    assert forall|k: int| !occurs_at(hay@, needle@, k) by {
        if 0 <= k && k + needle.len() <= hay.len() {
            assert(k <= last);
        }
    }
    false
}

// ---------------------------------------------------------------------------
// Whole-name wildcard patterns: `*` matches any run of characters, `?`
// matches exactly one character, every other character matches itself.
// ---------------------------------------------------------------------------

pub open spec fn glob_matches(p: Seq<char>, s: Seq<char>) -> bool
    decreases p.len() + s.len(),
{
    if p.len() == 0 {
        s.len() == 0
    } else if p[0] == '*' {
        glob_matches(p.drop_first(), s) || (s.len() > 0 && glob_matches(p, s.drop_first()))
    } else if s.len() == 0 {
        false
    } else if p[0] == '?' {
        glob_matches(p.drop_first(), s.drop_first())
    } else {
        p[0] == s[0] && glob_matches(p.drop_first(), s.drop_first())
    }
}

/// Flat index of the table cell for the pattern suffix starting at `i` and
/// the text suffix starting at `j`.
spec fn cell(i: int, j: int, n: int) -> int {
    i * (n + 1) + j
}

proof fn lemma_cell_bounds(i: int, j: int, m: int, n: int)
    requires
        0 <= i <= m,
        0 <= j <= n,
    ensures
        0 <= cell(i, j, n) < (m + 1) * (n + 1),
        cell(i, j, n) == i * (n + 1) + j,
{
    assert(i * (n + 1) <= m * (n + 1)) by (nonlinear_arith)
        requires
            0 <= i <= m,
            0 <= n,
    ;
    assert((m + 1) * (n + 1) == m * (n + 1) + n + 1) by (nonlinear_arith);
    assert(0 <= i * (n + 1)) by (nonlinear_arith)
        requires
            0 <= i,
            0 <= n,
    ;
}

proof fn lemma_cell_inj(i1: int, j1: int, i2: int, j2: int, n: int)
    requires
        0 <= j1 <= n,
        0 <= j2 <= n,
        0 <= i1,
        0 <= i2,
        (i1, j1) != (i2, j2),
    ensures
        cell(i1, j1, n) != cell(i2, j2, n),
{
    if i1 == i2 {
    } else if i1 < i2 {
        assert(i1 * (n + 1) + (n + 1) <= i2 * (n + 1)) by (nonlinear_arith)
            requires
                i1 < i2,
                0 <= n,
        ;
    } else {
        assert(i2 * (n + 1) + (n + 1) <= i1 * (n + 1)) by (nonlinear_arith)
            requires
                i2 < i1,
                0 <= n,
        ;
    }
}

fn glob_match_table(p: &Vec<char>, s: &Vec<char>) -> (r: bool)
    requires
        (p.len() + 1) * (s.len() + 1) <= usize::MAX,
    ensures
        r == glob_matches(p@, s@),
{
    let m = p.len();
    let n = s.len();
    proof {
        assert(m + 1 <= (m + 1) * (n + 1)) by (nonlinear_arith)
            requires
                0 <= m,
                0 <= n,
        ;
        assert(n + 1 <= (m + 1) * (n + 1)) by (nonlinear_arith)
            requires
                0 <= m,
                0 <= n,
        ;
    }
    let n1 = n + 1;
    let size = (m + 1) * n1;
    let mut table: Vec<bool> = Vec::new();
    let mut f: usize = 0;
    while f < size
        invariant
            f <= size,
            table.len() == f,
        decreases size - f,
    {
        table.push(false);
        f = f + 1;
    }
    // Fill rows from the last pattern suffix up to the whole pattern, and
    // within a row from the empty text suffix back to the whole text.
    let mut i: usize = m + 1;
    while i > 0
        invariant
            m == p.len(),
            n == s.len(),
            size == (m + 1) * (n + 1),
            n1 == n + 1,
            n1 <= size,
            table.len() == size,
            0 <= i <= m + 1,
            forall|a: int, b: int|
                i <= a <= m && 0 <= b <= n ==> #[trigger] table@[cell(a, b, n as int)]
                    == glob_matches(p@.skip(a), s@.skip(b)),
        decreases i,
    {
        i = i - 1;
        let mut j: usize = n1;
        while j > 0
            invariant
                m == p.len(),
                n == s.len(),
                size == (m + 1) * (n + 1),
                n1 == n + 1,
                n1 <= size,
                table.len() == size,
                0 <= i <= m,
                0 <= j <= n + 1,
                forall|a: int, b: int|
                    i < a <= m && 0 <= b <= n ==> #[trigger] table@[cell(a, b, n as int)]
                        == glob_matches(p@.skip(a), s@.skip(b)),
                forall|b: int|
                    j <= b <= n ==> #[trigger] table@[cell(i as int, b, n as int)]
                        == glob_matches(p@.skip(i as int), s@.skip(b)),
            decreases j,
        {
            j = j - 1;
            proof {
                lemma_cell_bounds(i as int, j as int, m as int, n as int);
                if i < m {
                    lemma_cell_bounds(i + 1, j as int, m as int, n as int);
                    if j < n {
                        lemma_cell_bounds(i + 1, j + 1, m as int, n as int);
                    }
                }
                if j < n {
                    lemma_cell_bounds(i as int, j + 1, m as int, n as int);
                }
            }
            let ghost ps = p@.skip(i as int);
            let ghost ss = s@.skip(j as int);
            let value: bool;
            if i == m {
                value = j == n;
                assert(ps.len() == 0);
            } else {
                assert(ps[0] == p@[i as int]);
                assert(ps.drop_first() =~= p@.skip(i + 1));
                if j < n {
                    assert(ss[0] == s@[j as int]);
                    assert(ss.drop_first() =~= s@.skip(j + 1));
                }
                let pc = p[i];
                proof {
                    assert(table@[cell(i + 1, j as int, n as int)] == glob_matches(
                        p@.skip(i + 1),
                        s@.skip(j as int),
                    ));
                    if j < n {
                        assert(table@[cell(i + 1, j + 1, n as int)] == glob_matches(
                            p@.skip(i + 1),
                            s@.skip(j + 1),
                        ));
                        assert(table@[cell(i as int, j + 1, n as int)] == glob_matches(
                            p@.skip(i as int),
                            s@.skip(j + 1),
                        ));
                    }
                }
                if pc == '*' {
                    let skip_star = table[(i + 1) * n1 + j];
                    let eat = j < n && table[i * n1 + j + 1];
                    value = skip_star || eat;
                } else if j == n {
                    value = false;
                } else if pc == '?' {
                    value = table[(i + 1) * n1 + j + 1];
                } else {
                    value = pc == s[j] && table[(i + 1) * n1 + j + 1];
                }
            }
            assert(value == glob_matches(ps, ss));
            let ghost before = table@;
            assert(cell(i as int, j as int, n as int) == i * n1 + j);
            table.set(i * n1 + j, value);
            assert forall|a: int, b: int| i < a <= m && 0 <= b <= n implies #[trigger] table@[cell(
                a,
                b,
                n as int,
            )] == glob_matches(p@.skip(a), s@.skip(b)) by {
                lemma_cell_inj(a, b, i as int, j as int, n as int);
                lemma_cell_bounds(a, b, m as int, n as int);
                assert(table@[cell(a, b, n as int)] == before[cell(a, b, n as int)]);
            }
            assert forall|b: int| j <= b <= n implies #[trigger] table@[cell(
                i as int,
                b,
                n as int,
            )] == glob_matches(p@.skip(i as int), s@.skip(b)) by {
                lemma_cell_bounds(i as int, b, m as int, n as int);
                if b != j {
                    lemma_cell_inj(i as int, b, i as int, j as int, n as int);
                }
            }
        }
    }
    proof {
        lemma_cell_bounds(0, 0, m as int, n as int);
        assert(p@.skip(0) =~= p@);
        assert(s@.skip(0) =~= s@);
    }
    table[0]
}


fn glob_match_recursive(p: &Vec<char>, s: &Vec<char>, i: usize, j: usize) -> (r: bool)
    requires
        i <= p.len(),
        j <= s.len(),
    ensures
        r == glob_matches(p@.skip(i as int), s@.skip(j as int)),
    decreases p.len() - i + s.len() - j,
{
    let ghost ps = p@.skip(i as int);
    let ghost ss = s@.skip(j as int);
    if i == p.len() {
        return j == s.len();
    }
    assert(ps[0] == p@[i as int]);
    assert(ps.drop_first() =~= p@.skip(i + 1));
    if j < s.len() {
        assert(ss[0] == s@[j as int]);
        assert(ss.drop_first() =~= s@.skip(j + 1));
    }
    if p[i] == '*' {
        if glob_match_recursive(p, s, i + 1, j) {
            return true;
        }
        j < s.len() && glob_match_recursive(p, s, i, j + 1)
    } else if j == s.len() {
        false
    } else if p[i] == '?' {
        glob_match_recursive(p, s, i + 1, j + 1)
    } else {
        p[i] == s[j] && glob_match_recursive(p, s, i + 1, j + 1)
    }
}

/// Whether the whole of `s` matches the wildcard pattern `p`.
pub fn glob_match_chars(p: &Vec<char>, s: &Vec<char>) -> (r: bool)
    ensures
        r == glob_matches(p@, s@),
{
    let rows = p.len().checked_add(1);
    let cols = s.len().checked_add(1);
    if let (Some(a), Some(b)) = (rows, cols) {
        if a.checked_mul(b).is_some() {
            return glob_match_table(p, s);
        }
    }
    assert(p@.skip(0) =~= p@);
    assert(s@.skip(0) =~= s@);
    glob_match_recursive(p, s, 0, 0)
}

// ---------------------------------------------------------------------------
// Paths.
// ---------------------------------------------------------------------------

/// The path that `PathBuf::push` produces on Unix when `rel` is pushed onto
/// `base`: an absolute `rel` replaces `base`; otherwise a `/` separates the
/// two unless `base` is empty or already ends with one.
pub open spec fn join_path(base: Seq<char>, rel: Seq<char>) -> Seq<char> {
    if rel.len() > 0 && rel[0] == '/' {
        rel
    } else if base.len() == 0 || base.last() == '/' {
        base + rel
    } else {
        base + seq!['/'] + rel
    }
}

/// The characters of a string slice, in order.
pub fn chars_of(s: &str) -> (out: Vec<char>)
    ensures
        out@ == s@,
{
    let mut out: Vec<char> = Vec::new();
    for c in it: s.chars()
        invariant
            out@ == it.seq().take(it.index() as int),
            it.seq() == s@,
    {
        out.push(c);
    }
    out
}

/// Appends one character to a string (`String::push`).
#[verifier::external_body]
pub(crate) fn push_char(s: &mut String, c: char)
    ensures
        final(s)@ == old(s)@.push(c),
{
    s.push(c);
}

/// Builds a string from a sequence of characters.
pub fn string_from_chars(chars: &[char]) -> (s: String)
    ensures
        s@ == chars@,
{
    let mut s = String::new();
    let mut i: usize = 0;
    while i < chars.len()
        invariant
            i <= chars.len(),
            s@ == chars@.take(i as int),
        decreases chars.len() - i,
    {
        push_char(&mut s, chars[i]);
        assert(chars@.take(i + 1) =~= chars@.take(i as int).push(chars@[i as int]));
        i = i + 1;
    }
    assert(chars@.take(chars.len() as int) =~= chars@);
    s
}


/// Builds a string from the characters of `chars` from position `start` on.
pub fn string_from_chars_after(chars: &[char], start: usize) -> (s: String)
    requires
        start <= chars.len(),
    ensures
        s@ == chars@.skip(start as int),
{
    let mut s = String::new();
    let mut i: usize = start;
    while i < chars.len()
        invariant
            start <= i <= chars.len(),
            s@ == chars@.subrange(start as int, i as int),
        decreases chars.len() - i,
    {
        push_char(&mut s, chars[i]);
        assert(chars@.subrange(start as int, i + 1) =~= chars@.subrange(start as int, i as int).push(chars@[i as int]));
        i = i + 1;
    }
    assert(chars@.subrange(start as int, chars.len() as int) =~= chars@.skip(start as int));
    s
}

/// `base` joined with `rel` as `join_path` describes.
pub fn join_path_string(base: &str, rel: &str) -> (out: String)
    ensures
        out@ == join_path(base@, rel@),
{
    let b = chars_of(base);
    let r = chars_of(rel);
    if r.len() > 0 && r[0] == '/' {
        return string_from_chars(r.as_slice());
    }
    let mut all = b;
    if all.len() > 0 && all[all.len() - 1] != '/' {
        all.push('/');
    }
    let mut i: usize = 0;
    let ghost prefix = all@;
    while i < r.len()
        invariant
            i <= r.len(),
            all@ == prefix + r@.take(i as int),
        decreases r.len() - i,
    {
        all.push(r[i]);
        assert(r@.take(i + 1) =~= r@.take(i as int).push(r@[i as int]));
        i = i + 1;
    }
    assert(r@.take(r.len() as int) =~= r@);
    assert(all@ =~= join_path(base@, rel@));
    string_from_chars(all.as_slice())
}

// ---------------------------------------------------------------------------
// White space: the Unicode White_Space property, which `char::is_whitespace`
// and `str::trim` go by.
// ---------------------------------------------------------------------------

/// The 25 code points with the Unicode White_Space property: tab, line
/// feed, vertical tab, form feed, carriage return, space, next line,
/// no-break space, ogham space mark, the spaces U+2000 to U+200A, line and
/// paragraph separators, narrow no-break space, medium mathematical space
/// and ideographic space.
pub open spec fn unicode_whitespace(c: char) -> bool {
    ||| '\u{9}' <= c <= '\u{d}'
    ||| c == ' '
    ||| c == '\u{85}'
    ||| c == '\u{a0}'
    ||| c == '\u{1680}'
    ||| '\u{2000}' <= c <= '\u{200a}'
    ||| c == '\u{2028}'
    ||| c == '\u{2029}'
    ||| c == '\u{202f}'
    ||| c == '\u{205f}'
    ||| c == '\u{3000}'
}

/// Whether a character is white space.
pub fn is_whitespace(c: char) -> (r: bool)
    ensures
        r == unicode_whitespace(c),
{
    ('\u{9}' <= c && c <= '\u{d}') || c == ' ' || c == '\u{85}' || c == '\u{a0}' || c == '\u{1680}'
        || ('\u{2000}' <= c && c <= '\u{200a}') || c == '\u{2028}' || c == '\u{2029}' || c
        == '\u{202f}' || c == '\u{205f}' || c == '\u{3000}'
}

/// The text without its leading white space.
pub open spec fn trim_start(s: Seq<char>) -> Seq<char>
    decreases s.len(),
{
    if s.len() > 0 && unicode_whitespace(s[0]) {
        trim_start(s.skip(1))
    } else {
        s
    }
}

/// The text without its trailing white space.
pub open spec fn trim_end(s: Seq<char>) -> Seq<char>
    decreases s.len(),
{
    if s.len() > 0 && unicode_whitespace(s.last()) {
        trim_end(s.drop_last())
    } else {
        s
    }
}

/// The text without leading and trailing white space (`str::trim`).
pub open spec fn trimmed(s: Seq<char>) -> Seq<char> {
    trim_end(trim_start(s))
}

/// Removes leading and trailing white space.
pub fn trim_text(s: &str) -> (t: String)
    ensures
        t@ == trimmed(s@),
{
    let chars = chars_of(s);
    let mut start: usize = 0;
    assert(chars@.skip(0) =~= chars@);
    while start < chars.len() && is_whitespace(chars[start])
        invariant
            start <= chars@.len(),
            chars@ == s@,
            trim_start(chars@) == trim_start(chars@.skip(start as int)),
        decreases chars.len() - start,
    {
        assert(chars@.skip(start as int).skip(1) =~= chars@.skip(start + 1));
        start = start + 1;
    }
    let mut end: usize = chars.len();
    let ghost front = chars@.skip(start as int);
    assert(trim_start(chars@) == front);
    while end > start && is_whitespace(chars[end - 1])
        invariant
            start <= end <= chars@.len(),
            front == chars@.skip(start as int),
            trim_end(front) == trim_end(chars@.subrange(start as int, end as int)),
        decreases end - start,
    {
        assert(chars@.subrange(start as int, end as int).drop_last() =~= chars@.subrange(start as int, end - 1));
        end = end - 1;
    }
    assert(chars@.subrange(start as int, chars@.len() as int) =~= front);
    let mut t = String::new();
    let mut i: usize = start;
    while i < end
        invariant
            start <= i <= end <= chars@.len(),
            t@ == chars@.subrange(start as int, i as int),
        decreases end - i,
    {
        push_char(&mut t, chars[i]);
        assert(chars@.subrange(start as int, i + 1) =~= chars@.subrange(start as int, i as int).push(chars@[i as int]));
        i = i + 1;
    }
    t
}

// ---------------------------------------------------------------------------
// Standard-library conversions whose results are named rather than spelled
// out: Unicode lower- and upper-casing and lossy UTF-8 decoding.
// ---------------------------------------------------------------------------

/// What `str::to_lowercase` returns for a string with these characters.
pub uninterp spec fn lowercase(s: Seq<char>) -> Seq<char>;

/// What `str::to_uppercase` returns for a string with these characters.
pub uninterp spec fn uppercase(s: Seq<char>) -> Seq<char>;


/// What `String::from_utf8_lossy` returns for these bytes.
pub uninterp spec fn utf8_lossy(bytes: Seq<u8>) -> Seq<char>;

/// Calls `str::to_lowercase`; its result is named `lowercase`.
#[verifier::external_body]
pub(crate) fn to_lowercase(s: &str) -> (r: String)
    ensures
        r@ == lowercase(s@),
{
    s.to_lowercase()
}

/// Calls `str::to_uppercase`; its result is named `uppercase`.
#[verifier::external_body]
pub(crate) fn to_uppercase(s: &str) -> (r: String)
    ensures
        r@ == uppercase(s@),
{
    s.to_uppercase()
}


/// Calls `String::from_utf8_lossy` and takes ownership of its result. The
/// standard library documents that valid UTF-8 input comes back unchanged.
#[verifier::external_body]
pub(crate) fn lossy_string(bytes: &[u8]) -> (r: String)
    ensures
        r@ == utf8_lossy(bytes@),
        vstd::utf8::valid_utf8(bytes@) ==> r@ == vstd::utf8::decode_utf8(bytes@),
{
    String::from_utf8_lossy(bytes).into_owned()
}

} // verus!
