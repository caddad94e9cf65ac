//! Character-level helpers: substring search, identifier name derivation.
use vstd::prelude::*;

verus! {

/// `pat` occurs in `s` starting at position `i`.
pub open spec fn occurs_at(s: Seq<char>, pat: Seq<char>, i: int) -> bool {
    0 <= i && i + pat.len() <= s.len() && s.subrange(i, i + pat.len()) == pat
}

/// `pat` occurs somewhere in `s`.
pub open spec fn contains(s: Seq<char>, pat: Seq<char>) -> bool {
    exists|i: int| occurs_at(s, pat, i)
}

fn matches_at(s: &str, pat: &str, i: usize) -> (r: bool)
    requires
        i + pat@.len() <= s@.len(),
    ensures
        r == occurs_at(s@, pat@, i as int),
{
    let m = pat.unicode_len();
    let n = s.unicode_len();
    let mut j: usize = 0;
    while j < m
        invariant
            m == pat@.len(),
            n == s@.len(),
            i + m <= s@.len(),
            j <= m,
            forall|k: int| 0 <= k < j ==> s@[i + k] == pat@[k],
        decreases m - j,
    {
        if s.get_char(i + j) != pat.get_char(j) {
            proof {
                if occurs_at(s@, pat@, i as int) {
                    assert(s@.subrange(i as int, i + m)[j as int] == pat@[j as int]);
                }
            }
            return false;
        }
        j = j + 1;
    }
    assert(s@.subrange(i as int, i + m) =~= pat@);
    true
}

/// Substring containment on characters.
pub fn str_contains(s: &str, pat: &str) -> (r: bool)
    ensures
        r == contains(s@, pat@),
{
    let n = s.unicode_len();
    let m = pat.unicode_len();
    if m > n {
        return false;
    }
    let mut i: usize = 0;
    while i <= n - m
        invariant
            n == s@.len(),
            m == pat@.len(),
            m <= n,
            i <= n - m + 1,
            forall|k: int| 0 <= k < i ==> !occurs_at(s@, pat@, k),
        decreases n - m + 1 - i,
    {
        if matches_at(s, pat, i) {
            return true;
        }
        if i == n - m {
            return false;
        }
        i = i + 1;
    }
    false
}

/// Position `k` holds `a` or `b`, and no later position does.
pub open spec fn is_last_of(s: Seq<char>, k: int, a: char, b: char) -> bool {
    &&& 0 <= k < s.len()
    &&& (s[k] == a || s[k] == b)
    &&& forall|j: int| k < j < s.len() ==> s[j] != a && s[j] != b
}

/// Some position of `s` holds `a` or `b`.
pub open spec fn has_any(s: Seq<char>, a: char, b: char) -> bool {
    exists|k: int| 0 <= k < s.len() && (s[k] == a || s[k] == b)
}

/// The last position holding `a` or `b`, when there is one.
pub open spec fn last_of(s: Seq<char>, a: char, b: char) -> int {
    choose|k: int| is_last_of(s, k, a, b)
}

pub proof fn lemma_last_of_unique(s: Seq<char>, k1: int, k2: int, a: char, b: char)
    requires
        is_last_of(s, k1, a, b),
        is_last_of(s, k2, a, b),
    ensures
        k1 == k2,
{
}

/// Finds the last position that holds `a` or `b`.
pub fn rfind_either(s: &str, a: char, b: char) -> (r: Option<usize>)
    ensures
        r matches Some(k) ==> is_last_of(s@, k as int, a, b) && last_of(s@, a, b) == k,
        r is None <==> !has_any(s@, a, b),
{
    let n = s.unicode_len();
    let mut i: usize = n;
    while i > 0
        invariant
            n == s@.len(),
            i <= n,
            forall|j: int| i <= j < n ==> s@[j] != a && s@[j] != b,
        decreases i,
    {
        let c = s.get_char(i - 1);
        if c == a || c == b {
            proof {
                assert(is_last_of(s@, i - 1, a, b));
                lemma_last_of_unique(s@, i - 1, last_of(s@, a, b), a, b);
            }
            return Some(i - 1);
        }
        i = i - 1;
    }
    None
}

/// The text after the last `#` or `/`; `fallback` where there is no such
/// separator or nothing follows it.
pub open spec fn derived_name(s: Seq<char>, fallback: Seq<char>) -> Seq<char> {
    if has_any(s, '#', '/') {
        let t = s.subrange(last_of(s, '#', '/') + 1, s.len() as int);
        if t.len() > 0 {
            t
        } else {
            fallback
        }
    } else {
        fallback
    }
}

/// Short name of an identifier: the text after its last `#` or `/`, or
/// `fallback` where derivation fails.
pub fn derive_name(iri: &str, fallback: &str) -> (r: String)
    ensures
        r@ == derived_name(iri@, fallback@),
{
    match rfind_either(iri, '#', '/') {
        Some(k) => {
            let n = iri.unicode_len();
            if k + 1 < n {
                iri.substring_char(k + 1, n).to_string()
            } else {
                fallback.to_string()
            }
        },
        None => fallback.to_string(),
    }
}

/// Deriving a name from an identifier that ends in a separator followed by a
/// non-empty, separator-free name yields exactly that name.
pub proof fn lemma_name_after_separator(prefix: Seq<char>, sep: char, name: Seq<char>, fallback: Seq<char>)
    requires
        sep == '#' || sep == '/',
        name.len() > 0,
        forall|j: int| 0 <= j < name.len() ==> name[j] != '#' && name[j] != '/',
    ensures
        derived_name(prefix + seq![sep] + name, fallback) == name,
{
    let s = prefix + seq![sep] + name;
    let k = prefix.len() as int;
    assert(s[k] == sep);
    assert forall|j: int| k < j < s.len() implies s[j] != '#' && s[j] != '/' by {
        assert(s[j] == name[j - k - 1]);
    }
    assert(is_last_of(s, k, '#', '/'));
    assert(has_any(s, '#', '/'));
    lemma_last_of_unique(s, k, last_of(s, '#', '/'), '#', '/');
    assert(s.subrange(k + 1, s.len() as int) =~= name);
}

/// `s` without its leading `>` characters.
pub open spec fn trim_start_gt(s: Seq<char>) -> Seq<char>
    decreases s.len(),
{
    if s.len() > 0 && s[0] == '>' {
        trim_start_gt(s.drop_first())
    } else {
        s
    }
}

/// `s` without its trailing `>` characters.
pub open spec fn trim_end_gt(s: Seq<char>) -> Seq<char>
    decreases s.len(),
{
    if s.len() > 0 && s.last() == '>' {
        trim_end_gt(s.drop_last())
    } else {
        s
    }
}

/// `s` without the `>` characters at either end.
pub open spec fn trim_gt(s: Seq<char>) -> Seq<char> {
    trim_end_gt(trim_start_gt(s))
}

proof fn lemma_trim_start(s: Seq<char>, a: int)
    requires
        0 <= a <= s.len(),
        forall|k: int| 0 <= k < a ==> s[k] == '>',
        a == s.len() || s[a] != '>',
    ensures
        trim_start_gt(s) == s.subrange(a, s.len() as int),
    decreases a,
{
    if a == 0 {
        assert(s.subrange(0, s.len() as int) =~= s);
    } else {
        let t = s.drop_first();
        assert forall|k: int| 0 <= k < a - 1 implies t[k] == '>' by {
            assert(t[k] == s[k + 1]);
        }
        if a < s.len() {
            assert(t[a - 1] == s[a]);
        }
        lemma_trim_start(t, a - 1);
        assert(t.subrange(a - 1, t.len() as int) =~= s.subrange(a, s.len() as int));
    }
}

proof fn lemma_trim_end(t: Seq<char>, b: int)
    requires
        0 <= b <= t.len(),
        forall|k: int| b <= k < t.len() ==> t[k] == '>',
        b == 0 || t[b - 1] != '>',
    ensures
        trim_end_gt(t) == t.subrange(0, b),
    decreases t.len() - b,
{
    if b == t.len() {
        assert(t.subrange(0, b) =~= t);
    } else {
        let u = t.drop_last();
        lemma_trim_end(u, b);
        assert(u.subrange(0, b) =~= t.subrange(0, b));
    }
}

/// `s` without the `>` characters at either end.
pub fn trim_gt_str(s: &str) -> (r: &str)
    ensures
        r@ == trim_gt(s@),
{
    let n = s.unicode_len();
    let mut a: usize = 0;
    while a < n && s.get_char(a) == '>'
        invariant
            n == s@.len(),
            a <= n,
            forall|k: int| 0 <= k < a ==> s@[k] == '>',
        decreases n - a,
    {
        a = a + 1;
    }
    let mut b: usize = n;
    while b > a && s.get_char(b - 1) == '>'
        invariant
            n == s@.len(),
            a <= b <= n,
            forall|k: int| b <= k < n ==> s@[k] == '>',
        decreases b,
    {
        b = b - 1;
    }
    proof {
        lemma_trim_start(s@, a as int);
        let t = s@.subrange(a as int, n as int);
        assert forall|k: int| b - a <= k < t.len() implies t[k] == '>' by {
            assert(t[k] == s@[k + a]);
        }
        if b > a {
            assert(t[b - a - 1] == s@[b - 1]);
        }
        lemma_trim_end(t, b - a);
        assert(t.subrange(0, b - a) =~= s@.subrange(a as int, b as int));
    }
    s.substring_char(a, b)
}

/// Like `derived_name`, with any `>` left at either end of the name removed.
pub open spec fn trimmed_name(s: Seq<char>, fallback: Seq<char>) -> Seq<char> {
    if has_any(s, '#', '/') {
        let t = trim_gt(s.subrange(last_of(s, '#', '/') + 1, s.len() as int));
        if t.len() > 0 {
            t
        } else {
            fallback
        }
    } else {
        fallback
    }
}

/// Short name of an identifier as a query prints it: the text after its last
/// `#` or `/`, without the `>` delimiters, or `fallback` where that is empty
/// or there is no separator.
pub fn derive_trimmed_name(iri: &str, fallback: &str) -> (r: String)
    ensures
        r@ == trimmed_name(iri@, fallback@),
{
    match rfind_either(iri, '#', '/') {
        Some(k) => {
            let n = iri.unicode_len();
            let t = trim_gt_str(iri.substring_char(k + 1, n));
            if t.unicode_len() > 0 {
                t.to_string()
            } else {
                fallback.to_string()
            }
        },
        None => fallback.to_string(),
    }
}

/// `s` begins with `p`.
pub open spec fn starts_with(s: Seq<char>, p: Seq<char>) -> bool {
    occurs_at(s, p, 0)
}

/// Prefix test on characters.
pub fn str_starts_with(s: &str, p: &str) -> (r: bool)
    ensures
        r == starts_with(s@, p@),
{
    if p.unicode_len() > s.unicode_len() {
        false
    } else {
        matches_at(s, p, 0)
    }
}

/// A character that may stand inside `<...>` in a query.
pub open spec fn iri_char(c: char) -> bool {
    (c as u32) > 0x20 && c != '<' && c != '>' && c != '"' && c != '{' && c != '}' && c != '|'
        && c != '^' && c != '`' && c != '\\'
}

/// Every character of `s` may stand inside `<...>` in a query.
pub open spec fn iri_term_ok(s: Seq<char>) -> bool {
    forall|i: int| 0 <= i < s.len() ==> iri_char(#[trigger] s[i])
}

/// Whether `s` can be written as `<s>` in a query.
pub fn is_iri_term(s: &str) -> (r: bool)
    ensures
        r == iri_term_ok(s@),
{
    let n = s.unicode_len();
    let mut i: usize = 0;
    while i < n
        invariant
            n == s@.len(),
            i <= n,
            forall|k: int| 0 <= k < i ==> iri_char(#[trigger] s@[k]),
        decreases n - i,
    {
        let c = s.get_char(i);
        if (c as u32) <= 0x20 || c == '<' || c == '>' || c == '"' || c == '{' || c == '}' || c == '|'
            || c == '^' || c == '`' || c == '\\' {
            return false;
        }
        i = i + 1;
    }
    true
}

} // verus!
