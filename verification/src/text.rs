//! Character-sequence utilities: lexicographic order on strings (the order
//! of the store's timestamp and key columns), substring search (used to
//! recognise launch-argument markers), and extraction of the last path
//! component (used to resolve an executable's file name).

use vstd::prelude::*;
use vstd::string::StrSliceExecFns;

verus! {

/// Lexicographic order on character sequences, by Unicode scalar value.
/// ISO-8601 UTC timestamps compare chronologically under this order.
pub open spec fn lex_le(a: Seq<char>, b: Seq<char>) -> bool
    decreases a.len(),
{
    if a.len() == 0 {
        true
    } else if b.len() == 0 {
        false
    } else if a[0] != b[0] {
        a[0] < b[0]
    } else {
        lex_le(a.skip(1), b.skip(1))
    }
}

/// Strict lexicographic order: `a` comes before `b` and they differ.
pub open spec fn lex_lt(a: Seq<char>, b: Seq<char>) -> bool {
    !lex_le(b, a)
}

/// A common prefix does not affect the comparison: it can be skipped.
pub proof fn lemma_lex_le_common_prefix(a: Seq<char>, b: Seq<char>, i: int)
    requires
        0 <= i <= a.len(),
        i <= b.len(),
        forall|j: int| 0 <= j < i ==> a[j] == b[j],
    ensures
        lex_le(a, b) == lex_le(a.skip(i), b.skip(i)),
    decreases i,
{
    if i > 0 {
        assert(a[0] == b[0]);
        lemma_lex_le_common_prefix(a.skip(1), b.skip(1), i - 1);
        assert(a.skip(1).skip(i - 1) =~= a.skip(i));
        assert(b.skip(1).skip(i - 1) =~= b.skip(i));
    } else {
        assert(a.skip(0) =~= a);
        assert(b.skip(0) =~= b);
    }
}

/// The order is total: of two sequences, one comes no later than the other.
pub proof fn lemma_lex_le_total(a: Seq<char>, b: Seq<char>)
    ensures
        lex_le(a, b) || lex_le(b, a),
    decreases a.len(),
{
    if a.len() != 0 && b.len() != 0 && a[0] == b[0] {
        lemma_lex_le_total(a.skip(1), b.skip(1));
    }
}

/// The order is transitive.
pub proof fn lemma_lex_le_trans(a: Seq<char>, b: Seq<char>, c: Seq<char>)
    requires
        lex_le(a, b),
        lex_le(b, c),
    ensures
        lex_le(a, c),
    decreases a.len(),
{
    if a.len() != 0 && b.len() != 0 && c.len() != 0 && a[0] == b[0] && b[0] == c[0] {
        lemma_lex_le_trans(a.skip(1), b.skip(1), c.skip(1));
    }
}

/// Sequences that compare no later than each other in both directions are
/// equal element by element.
pub proof fn lemma_lex_le_antisym(a: Seq<char>, b: Seq<char>)
    requires
        lex_le(a, b),
        lex_le(b, a),
    ensures
        a =~= b,
    decreases a.len(),
{
    if a.len() != 0 && b.len() != 0 && a[0] == b[0] {
        lemma_lex_le_antisym(a.skip(1), b.skip(1));
        assert(a =~= seq![a[0]] + a.skip(1));
        assert(b =~= seq![b[0]] + b.skip(1));
    }
}

/// Whether `a` comes no later than `b` in lexicographic order.
pub fn str_le(a: &str, b: &str) -> (r: bool)
    ensures
        r == lex_le(a@, b@),
{
    let la: usize = a.unicode_len();
    let lb: usize = b.unicode_len();
    let mut i: usize = 0;
    while i < la && i < lb
        invariant
            la == a@.len(),
            lb == b@.len(),
            i <= la,
            i <= lb,
            forall|j: int| 0 <= j < i ==> a@[j] == b@[j],
        decreases la - i,
    {
        let ca = a.get_char(i);
        let cb = b.get_char(i);
        if ca != cb {
            proof {
                lemma_lex_le_common_prefix(a@, b@, i as int);
            }
            return ca < cb;
        }
        i += 1;
    }
    proof {
        lemma_lex_le_common_prefix(a@, b@, i as int);
    }
    la <= lb
}

/// Whether `a` comes strictly before `b` in lexicographic order.
pub fn str_lt(a: &str, b: &str) -> (r: bool)
    ensures
        r == lex_lt(a@, b@),
{
    !str_le(b, a)
}

/// The view of an `Option<&str>` value: the characters, if one was given.
pub open spec fn opt_str_view(o: Option<&str>) -> Option<Seq<char>> {
    match o {
        Some(s) => Some(s@),
        None => None,
    }
}

/// Whether `a` and `b` read the same.
pub fn str_eq(a: &str, b: &str) -> (r: bool)
    ensures
        r == (a@ == b@),
{
    let le1 = str_le(a, b);
    let le2 = str_le(b, a);
    proof {
        if lex_le(a@, b@) && lex_le(b@, a@) {
            lemma_lex_le_antisym(a@, b@);
        }
        if a@ == b@ {
            lemma_lex_le_total(a@, a@);
        }
    }
    le1 && le2
}

/// Whether `pat` occurs at offset `k` of `s`.
pub open spec fn matches_at(s: Seq<char>, pat: Seq<char>, k: int) -> bool {
    0 <= k && k + pat.len() <= s.len() && s.subrange(k, k + pat.len() as int) =~= pat
}

/// Whether `pat` occurs anywhere in `s` as a contiguous substring.
pub open spec fn contains_seq(s: Seq<char>, pat: Seq<char>) -> bool {
    exists|k: int| matches_at(s, pat, k)
}

/// Whether `pat` occurs anywhere in `s` as a contiguous substring.
pub fn contains_pattern(s: &str, pat: &str) -> (r: bool)
    ensures
        r == contains_seq(s@, pat@),
{
    let n: usize = s.unicode_len();
    let m: usize = pat.unicode_len();
    if m > n {
        return false;
    }
    let mut k: usize = 0;
    while k <= n - m
        invariant
            n == s@.len(),
            m == pat@.len(),
            m <= n,
            k <= n - m + 1,
            forall|k2: int| 0 <= k2 < k ==> !matches_at(s@, pat@, k2),
        decreases n - k,
    {
        let mut j: usize = 0;
        let mut hit: bool = true;
        while j < m
            invariant
                n == s@.len(),
                m == pat@.len(),
                k + m <= n,
                j <= m,
                !hit ==> j == m && !matches_at(s@, pat@, k as int),
                hit ==> (forall|j2: int| 0 <= j2 < j ==> s@[k + j2] == pat@[j2]),
            decreases m - j,
        {
            if s.get_char(k + j) != pat.get_char(j) {
                proof {
                    assert(s@.subrange(k as int, k + m)[j as int] != pat@[j as int]);
                }
                hit = false;
                j = m;
            } else {
                j = j + 1;
            }
        }
        if hit {
            proof {
                assert(s@.subrange(k as int, k + m) =~= pat@);
                assert(matches_at(s@, pat@, k as int));
            }
            return true;
        }
        k = k + 1;
    }
    proof {
        assert(forall|k2: int| k2 > n - m ==> !matches_at(s@, pat@, k2));
    }
    false
}

/// Whether `c` separates path components.
pub open spec fn is_path_sep(c: char) -> bool {
    c == '/' || c == '\\'
}

/// The index of the last path separator in `p`, or `-1` if there is none.
pub open spec fn last_sep_index(p: Seq<char>) -> int
    decreases p.len(),
{
    if p.len() == 0 {
        -1
    } else if is_path_sep(p[p.len() - 1]) {
        p.len() - 1
    } else {
        last_sep_index(p.take(p.len() - 1))
    }
}

/// The last component of the path `p`: everything after the last separator,
/// or all of `p` if it has no separator.
pub open spec fn last_component(p: Seq<char>) -> Seq<char> {
    p.skip(last_sep_index(p) + 1)
}

/// The last separator index is a separator position, and nothing after it
/// is a separator.
pub proof fn lemma_last_sep_index(p: Seq<char>)
    ensures
        -1 <= last_sep_index(p) < p.len(),
        last_sep_index(p) >= 0 ==> is_path_sep(p[last_sep_index(p)]),
        forall|j: int| last_sep_index(p) < j < p.len() ==> !is_path_sep(p[j]),
    decreases p.len(),
{
    if p.len() != 0 && !is_path_sep(p[p.len() - 1]) {
        lemma_last_sep_index(p.take(p.len() - 1));
        assert(forall|j: int|
            0 <= j < p.len() - 1 ==> p.take(p.len() - 1)[j] == p[j]);
    }
}

/// The last component of the path `p`, as a fresh string; all of `p` if it
/// has no separator.
pub fn last_path_component(p: &str) -> (r: String)
    ensures
        r@ == last_component(p@),
{
    let n: usize = p.unicode_len();
    let mut i: usize = n;
    while i > 0
        invariant
            n == p@.len(),
            i <= n,
            forall|j: int| i <= j < n ==> !is_path_sep(p@[j]),
        decreases i,
    {
        let c = p.get_char(i - 1);
        if c == '/' || c == '\\' {
            proof {
                lemma_last_sep_index(p@);
                assert(last_sep_index(p@) == i - 1) by {
                    let k = last_sep_index(p@);
                    assert(is_path_sep(p@[i - 1]));
                    if k < i - 1 {
                        assert(!is_path_sep(p@[i - 1]));
                    }
                    if k > i - 1 {
                        assert(!is_path_sep(p@[k]));
                    }
                }
            }
            let r = p.substring_char(i, n);
            proof {
                assert(r@ =~= last_component(p@));
            }
            return r.to_owned();
        }
        i = i - 1;
    }
    proof {
        lemma_last_sep_index(p@);
        assert(last_sep_index(p@) == -1) by {
            let k = last_sep_index(p@);
            if k >= 0 {
                assert(!is_path_sep(p@[k]));
            }
        }
        assert(p@.skip(0) =~= p@);
    }
    p.to_owned()
}

} // verus!
