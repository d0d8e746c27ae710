//! Character-level helpers on strings: whitespace, ASCII case folding,
//! trimming, prefix and suffix stripping, and whitespace-separated tokens.
use vstd::prelude::*;
use vstd::std_specs::iter::IteratorSpec;

verus! {

/// The Unicode `White_Space` characters.
pub open spec fn is_ws(c: char) -> bool {
    ||| c == '\t'
    ||| c == '\n'
    ||| c == '\u{0B}'
    ||| c == '\u{0C}'
    ||| c == '\r'
    ||| c == ' '
    ||| c == '\u{85}'
    ||| c == '\u{A0}'
    ||| c == '\u{1680}'
    ||| ('\u{2000}' <= c && c <= '\u{200A}')
    ||| c == '\u{2028}'
    ||| c == '\u{2029}'
    ||| c == '\u{202F}'
    ||| c == '\u{205F}'
    ||| c == '\u{3000}'
}

pub fn is_whitespace(c: char) -> (r: bool)
    ensures
        r == is_ws(c),
{
    c == '\t' || c == '\n' || c == '\u{0B}' || c == '\u{0C}' || c == '\r' || c == ' ' || c
        == '\u{85}' || c == '\u{A0}' || c == '\u{1680}' || ('\u{2000}' <= c && c <= '\u{200A}')
        || c == '\u{2028}' || c == '\u{2029}' || c == '\u{202F}' || c == '\u{205F}' || c
        == '\u{3000}'
}

/// ASCII upper-case letters mapped to lower case; every other character kept.
pub open spec fn lower(c: char) -> char {
    if 'A' <= c && c <= 'Z' {
        ((c as u32) + 32) as char
    } else {
        c
    }
}

/// Equal up to ASCII case.
pub open spec fn eq_ascii_ci(a: Seq<char>, b: Seq<char>) -> bool {
    a.len() == b.len() && forall|i: int| 0 <= i < a.len() ==> lower(#[trigger] a[i]) == lower(b[i])
}

/// Equal exactly, or up to ASCII case when `case_sensitive` is false.
pub open spec fn eq_case(a: Seq<char>, b: Seq<char>, case_sensitive: bool) -> bool {
    if case_sensitive {
        a == b
    } else {
        eq_ascii_ci(a, b)
    }
}

pub fn lower_char(c: char) -> (r: char)
    ensures
        r == lower(c),
{
    if 'A' <= c && c <= 'Z' {
        let u = c as u32 + 32;
        assert(u <= 0x7f);
        // every value below 0x80 is a char
        char_from_ascii(u)
    } else {
        c
    }
}

fn char_from_ascii(u: u32) -> (r: char)
    requires
        u <= 0x7f,
    ensures
        r == u as char,
{
    let b = u as u8;
    b as char
}

pub fn eq_ignore_ascii_case(a: &Vec<char>, b: &Vec<char>) -> (r: bool)
    ensures
        r == eq_ascii_ci(a@, b@),
{
    if a.len() != b.len() {
        return false;
    }
    let mut i: usize = 0;
    while i < a.len()
        invariant
            a@.len() == b@.len(),
            0 <= i <= a@.len(),
            forall|k: int| 0 <= k < i ==> lower(#[trigger] a@[k]) == lower(b@[k]),
        decreases a@.len() - i,
    {
        if lower_char(a[i]) != lower_char(b[i]) {
            return false;
        }
        i = i + 1;
    }
    true
}

pub fn eq_chars(a: &Vec<char>, b: &Vec<char>) -> (r: bool)
    ensures
        r == (a@ == b@),
{
    if a.len() != b.len() {
        return false;
    }
    let mut i: usize = 0;
    while i < a.len()
        invariant
            a@.len() == b@.len(),
            0 <= i <= a@.len(),
            forall|k: int| 0 <= k < i ==> a@[k] == b@[k],
        decreases a@.len() - i,
    {
        if a[i] != b[i] {
            return false;
        }
        i = i + 1;
    }
    assert(a@ =~= b@);
    true
}

pub fn eq_with_case(a: &Vec<char>, b: &Vec<char>, case_sensitive: bool) -> (r: bool)
    ensures
        r == eq_case(a@, b@, case_sensitive),
{
    if case_sensitive {
        eq_chars(a, b)
    } else {
        eq_ignore_ascii_case(a, b)
    }
}

/// Leading whitespace removed.
pub open spec fn trim_start(s: Seq<char>) -> Seq<char>
    decreases s.len(),
{
    if s.len() > 0 && is_ws(s[0]) {
        trim_start(s.drop_first())
    } else {
        s
    }
}

/// Trailing whitespace removed.
pub open spec fn trim_end(s: Seq<char>) -> Seq<char>
    decreases s.len(),
{
    if s.len() > 0 && is_ws(s.last()) {
        trim_end(s.drop_last())
    } else {
        s
    }
}

/// Leading and trailing whitespace removed.
pub open spec fn trim(s: Seq<char>) -> Seq<char> {
    trim_end(trim_start(s))
}

/// `s` without `p` in front, or `s` itself when it does not start with `p`.
pub open spec fn strip_prefix(s: Seq<char>, p: Seq<char>) -> Seq<char> {
    if p.is_prefix_of(s) {
        s.subrange(p.len() as int, s.len() as int)
    } else {
        s
    }
}

/// `s` without `p` at its end, or `s` itself when it does not end with `p`.
pub open spec fn strip_suffix(s: Seq<char>, p: Seq<char>) -> Seq<char> {
    if p.is_suffix_of(s) {
        s.subrange(0, s.len() - p.len())
    } else {
        s
    }
}

/// The whitespace-free run of `s` that starts at `i` is exactly as long as
/// `t` and matches it under the case policy.
pub open spec fn token_at(s: Seq<char>, i: int, t: Seq<char>, case_sensitive: bool) -> bool {
    &&& t.len() > 0
    &&& 0 <= i
    &&& i + t.len() <= s.len()
    &&& (i == 0 || is_ws(s[i - 1]))
    &&& (i + t.len() == s.len() || is_ws(s[i + t.len()]))
    &&& forall|k: int| i <= k < i + t.len() ==> !is_ws(#[trigger] s[k])
    &&& eq_case(s.subrange(i, i + t.len()), t, case_sensitive)
}

/// `t` is one of the whitespace-separated tokens of `s`.
pub open spec fn has_token(s: Seq<char>, t: Seq<char>, case_sensitive: bool) -> bool {
    exists|i: int| token_at(s, i, t, case_sensitive)
}

proof fn lemma_trim_start_shape(s: Seq<char>)
    ensures
        exists|i: int| 0 <= i <= s.len() && trim_start(s) == s.subrange(i, s.len() as int),
        trim_start(s).len() == 0 || !is_ws(trim_start(s)[0]),
    decreases s.len(),
{
    if s.len() > 0 && is_ws(s[0]) {
        lemma_trim_start_shape(s.drop_first());
        let i = choose|i: int| 0 <= i <= s.drop_first().len() && trim_start(s.drop_first()) == s.drop_first().subrange(i, s.drop_first().len() as int);
        assert(s.drop_first().subrange(i, s.drop_first().len() as int) =~= s.subrange(i + 1, s.len() as int));
    } else {
        assert(s.subrange(0, s.len() as int) =~= s);
    }
}

proof fn lemma_trim_end_shape(s: Seq<char>)
    ensures
        exists|j: int| 0 <= j <= s.len() && trim_end(s) == s.subrange(0, j),
        trim_end(s).len() == 0 || !is_ws(trim_end(s).last()),
    decreases s.len(),
{
    if s.len() > 0 && is_ws(s.last()) {
        lemma_trim_end_shape(s.drop_last());
        let j = choose|j: int| 0 <= j <= s.drop_last().len() && trim_end(s.drop_last()) == s.drop_last().subrange(0, j);
        assert(s.drop_last().subrange(0, j) =~= s.subrange(0, j));
    } else {
        assert(s.subrange(0, s.len() as int) =~= s);
    }
}

/// Trimming trimmed text changes nothing.
pub proof fn lemma_trim_idempotent(s: Seq<char>)
    ensures
        trim(trim(s)) == trim(s),
{
    let v = trim_start(s);
    let u = trim_end(v);
    lemma_trim_start_shape(s);
    lemma_trim_end_shape(v);
    if u.len() > 0 {
        let j = choose|j: int| 0 <= j <= v.len() && trim_end(v) == v.subrange(0, j);
        assert(u[0] == v[0]);
        assert(trim_start(u) == u);
        assert(trim_end(u) == u);
    } else {
        assert(trim_start(u) == u);
        assert(trim_end(u) == u);
    }
}

/// The characters of `s` in order.
pub fn chars_of(s: &str) -> (r: Vec<char>)
    ensures
        r@ == s@,
{
    broadcast use vstd::string::group_string_axioms;

    let mut it = s.chars();
    let mut out: Vec<char> = Vec::new();
    proof {
        assert(out@ + it.remaining() =~= s@);
    }
    loop
        invariant
            out@ + it.remaining() == s@,
            it.obeys_prophetic_iter_laws(),
        ensures
            out@ == s@,
        decreases s@.len() - out@.len(),
    {
        let ghost before = it.remaining();
        match it.next() {
            Some(c) => {
                out.push(c);
                proof {
                    assert(out@ + it.remaining() =~= s@);
                }
            },
            None => {
                proof {
                    assert(out@ + before =~= out@);
                }
                break;
            },
        }
    }
    out
}

fn slice_chars(v: &Vec<char>, from: usize, to: usize) -> (r: Vec<char>)
    requires
        from <= to <= v@.len(),
    ensures
        r@ == v@.subrange(from as int, to as int),
{
    let mut r: Vec<char> = Vec::new();
    let mut i = from;
    while i < to
        invariant
            from <= i <= to <= v@.len(),
            r@ == v@.subrange(from as int, i as int),
        decreases to - i,
    {
        r.push(v[i]);
        i = i + 1;
        assert(r@ =~= v@.subrange(from as int, i as int));
    }
    r
}

proof fn lemma_trim_start_skip(s: Seq<char>, i: int)
    requires
        0 <= i <= s.len(),
        forall|k: int| 0 <= k < i ==> is_ws(#[trigger] s[k]),
    ensures
        trim_start(s) == trim_start(s.subrange(i, s.len() as int)),
    decreases i,
{
    if i > 0 {
        assert(is_ws(s[0]));
        assert(s.drop_first().subrange(i - 1, s.drop_first().len() as int) =~= s.subrange(i, s.len() as int));
        assert forall|k: int| 0 <= k < i - 1 implies is_ws(#[trigger] s.drop_first()[k]) by {
            assert(s.drop_first()[k] == s[k + 1]);
        }
        lemma_trim_start_skip(s.drop_first(), i - 1);
    } else {
        assert(s.subrange(0, s.len() as int) =~= s);
    }
}

proof fn lemma_trim_end_skip(s: Seq<char>, j: int)
    requires
        0 <= j <= s.len(),
        forall|k: int| j <= k < s.len() ==> is_ws(#[trigger] s[k]),
    ensures
        trim_end(s) == trim_end(s.subrange(0, j)),
    decreases s.len() - j,
{
    if j < s.len() {
        assert(is_ws(s.last()));
        assert(s.drop_last().subrange(0, j) =~= s.subrange(0, j));
        assert forall|k: int| j <= k < s.drop_last().len() implies is_ws(#[trigger] s.drop_last()[k]) by {
            assert(s.drop_last()[k] == s[k]);
        }
        lemma_trim_end_skip(s.drop_last(), j);
    } else {
        assert(s.subrange(0, j) =~= s);
    }
}

/// Bounds of `s` with leading and trailing whitespace removed.
pub fn trim_range(s: &Vec<char>) -> (r: (usize, usize))
    ensures
        r.0 <= r.1 <= s@.len(),
        s@.subrange(r.0 as int, r.1 as int) == trim(s@),
{
    let n = s.len();
    let mut i: usize = 0;
    while i < n && is_whitespace(s[i])
        invariant
            n == s@.len(),
            0 <= i <= n,
            forall|k: int| 0 <= k < i ==> is_ws(#[trigger] s@[k]),
        decreases n - i,
    {
        i = i + 1;
    }
    let mut j: usize = n;
    while j > i && is_whitespace(s[j - 1])
        invariant
            n == s@.len(),
            0 <= i <= j <= n,
            forall|k: int| j <= k < n ==> is_ws(#[trigger] s@[k]),
        decreases j,
    {
        j = j - 1;
    }
    proof {
        lemma_trim_start_skip(s@, i as int);
        let t = s@.subrange(i as int, n as int);
        if i < n {
            assert(!is_ws(t[0]));
        }
        assert(trim_start(t) == t);
        assert forall|k: int| (j - i) <= k < t.len() implies is_ws(#[trigger] t[k]) by {
            assert(t[k] == s@[i + k]);
        }
        lemma_trim_end_skip(t, j - i);
        let u = t.subrange(0, j - i);
        assert(u =~= s@.subrange(i as int, j as int));
        if j > i {
            assert(!is_ws(u.last()));
        }
        assert(trim_end(u) == u);
    }
    (i, j)
}

pub fn starts_with(s: &Vec<char>, p: &Vec<char>) -> (r: bool)
    ensures
        r == p@.is_prefix_of(s@),
{
    if p.len() > s.len() {
        return false;
    }
    let mut i: usize = 0;
    while i < p.len()
        invariant
            p@.len() <= s@.len(),
            0 <= i <= p@.len(),
            forall|k: int| 0 <= k < i ==> p@[k] == s@[k],
        decreases p@.len() - i,
    {
        if p[i] != s[i] {
            return false;
        }
        i = i + 1;
    }
    assert(p@ =~= s@.subrange(0, p@.len() as int));
    true
}

pub fn ends_with(s: &Vec<char>, p: &Vec<char>) -> (r: bool)
    ensures
        r == p@.is_suffix_of(s@),
{
    if p.len() > s.len() {
        return false;
    }
    let n = s.len();
    let off = s.len() - p.len();
    let mut i: usize = 0;
    while i < p.len()
        invariant
            n == s@.len(),
            p@.len() <= s@.len(),
            off == s@.len() - p@.len(),
            0 <= i <= p@.len(),
            forall|k: int| 0 <= k < i ==> p@[k] == s@[off + k],
        decreases p@.len() - i,
    {
        assert(off + i < s@.len());
        if p[i] != s[off + i] {
            return false;
        }
        i = i + 1;
    }
    assert(p@ =~= s@.subrange(off as int, s@.len() as int));
    true
}

/// Bounds of `s` without the prefix `p`, when `s` starts with it.
pub fn strip_prefix_range(s: &Vec<char>, p: &Vec<char>) -> (r: (usize, usize))
    ensures
        r.0 <= r.1 <= s@.len(),
        s@.subrange(r.0 as int, r.1 as int) == strip_prefix(s@, p@),
{
    if starts_with(s, p) {
        (p.len(), s.len())
    } else {
        assert(s@.subrange(0, s@.len() as int) =~= s@);
        (0, s.len())
    }
}

/// Bounds of `s` without the suffix `p`, when `s` ends with it.
pub fn strip_suffix_range(s: &Vec<char>, p: &Vec<char>) -> (r: (usize, usize))
    ensures
        r.0 <= r.1 <= s@.len(),
        s@.subrange(r.0 as int, r.1 as int) == strip_suffix(s@, p@),
{
    if ends_with(s, p) {
        (0, s.len() - p.len())
    } else {
        assert(s@.subrange(0, s@.len() as int) =~= s@);
        (0, s.len())
    }
}

/// The characters of `s` from `from` up to `to`.
pub fn sub_string(s: &str, from: usize, to: usize) -> (r: String)
    requires
        from <= to <= s@.len(),
    ensures
        r@ == s@.subrange(from as int, to as int),
{
    String::from_str(s.substring_char(from, to))
}

/// The strings of `v`, as character sequences.
pub open spec fn string_views(v: Seq<String>) -> Seq<Seq<char>> {
    v.map_values(|x: String| x@)
}

/// Some string of `v` from index `from` on is `t`.
pub open spec fn listed_from(v: Seq<String>, from: int, t: Seq<char>) -> bool {
    exists|k: int| from <= k < v.len() && (#[trigger] v[k])@ == t
}

/// Appends to `out` the whitespace-separated tokens of `s`, in order.
pub fn push_tokens(s: &str, out: &mut Vec<String>)
    ensures
        final(out)@.len() >= old(out)@.len(),
        forall|k: int| 0 <= k < old(out)@.len() ==> final(out)@[k] == old(out)@[k],
        forall|t: Seq<char>| #[trigger] has_token(s@, t, true) <==> listed_from(final(out)@, old(out)@.len() as int, t),
{
    let v = chars_of(s);
    let n = v.len();
    let ghost start = out@.len();
    let ghost first = out@;
    let mut p: usize = 0;
    while p < n
        invariant
            n == v@.len(),
            v@ == s@,
            p <= n,
            p == 0 || p == n || is_ws(v@[p - 1]) || is_ws(v@[p as int]),
            out@.len() >= start,
            start == first.len(),
            forall|k: int| 0 <= k < start ==> out@[k] == first[k],
            forall|k: int| start <= k < out@.len() ==> has_token(s@, (#[trigger] out@[k])@, true),
            forall|q: int, t: Seq<char>|
                0 <= q < p && #[trigger] token_at(s@, q, t, true) ==> exists|k: int| start <= k < out@.len() && (#[trigger] out@[k])@ == t,
        decreases n - p,
    {
        if is_whitespace(v[p]) {
            proof {
                assert forall|t: Seq<char>| !#[trigger] token_at(s@, p as int, t, true) by {
                    if token_at(s@, p as int, t, true) {
                        assert(!is_ws(s@[p as int]));
                    }
                }
            }
            p = p + 1;
        } else {
            let mut e = p;
            while e < n && !is_whitespace(v[e])
                invariant
                    n == v@.len(),
                    p <= e <= n,
                    forall|q: int| p <= q < e ==> !is_ws(#[trigger] v@[q]),
                decreases n - e,
            {
                e = e + 1;
            }
            let tok = sub_string(s, p, e);
            let ghost tv = tok@;
            let ghost before = out@;
            out.push(tok);
            proof {
                assert(token_at(s@, p as int, tv, true));
                assert forall|q: int, t: Seq<char>| 0 <= q < e && #[trigger] token_at(s@, q, t, true) implies exists|k: int| start <= k < out@.len() && (#[trigger] out@[k])@ == t by {
                    if q < p {
                        let k = choose|k: int| start <= k < before.len() && (#[trigger] before[k])@ == t;
                        assert(out@[k] == before[k]);
                    } else if q == p {
                        if t.len() < e - p {
                            assert(!is_ws(s@[p + t.len()]));
                        } else if t.len() > e - p {
                            assert(is_ws(s@[e as int]));
                        }
                        assert(t =~= tv);
                        assert(out@[before.len() as int]@ == t);
                    } else {
                        assert(!is_ws(s@[q - 1]));
                    }
                }
                assert forall|k: int| start <= k < out@.len() implies has_token(s@, (#[trigger] out@[k])@, true) by {
                    if k < before.len() {
                        assert(out@[k] == before[k]);
                    }
                }
            }
            p = e;
        }
    }
    proof {
        assert forall|t: Seq<char>| has_token(s@, t, true) implies exists|k: int| start <= k < out@.len() && (#[trigger] out@[k])@ == t by {
            let q = choose|q: int| token_at(s@, q, t, true);
        }
    }
}

/// Whether `t` is a token of `s` starting at `i`.
fn token_at_exec(s: &Vec<char>, i: usize, t: &Vec<char>, case_sensitive: bool) -> (r: bool)
    requires
        i < s@.len(),
    ensures
        r == token_at(s@, i as int, t@, case_sensitive),
{
    let n = s.len();
    let m = t.len();
    if m == 0 || m > n - i {
        return false;
    }
    if i > 0 && !is_whitespace(s[i - 1]) {
        return false;
    }
    if i + m < n && !is_whitespace(s[i + m]) {
        return false;
    }
    let mut k: usize = i;
    while k < i + m
        invariant
            n == s@.len(),
            m == t@.len(),
            m > 0,
            i + m <= n,
            i <= k <= i + m,
            i == 0 || is_ws(s@[i - 1]),
            i + m == n || is_ws(s@[i + m]),
            forall|q: int| i <= q < k ==> !is_ws(#[trigger] s@[q]),
        decreases i + m - k,
    {
        if is_whitespace(s[k]) {
            assert(is_ws(s@[k as int]));
            return false;
        }
        k = k + 1;
    }
    let run = slice_chars(s, i, i + m);
    eq_with_case(&run, t, case_sensitive)
}

/// Whether `t` is one of the whitespace-separated tokens of `s`.
pub fn has_token_exec(s: &Vec<char>, t: &Vec<char>, case_sensitive: bool) -> (r: bool)
    ensures
        r == has_token(s@, t@, case_sensitive),
{
    let mut i: usize = 0;
    while i < s.len()
        invariant
            0 <= i <= s@.len(),
            forall|q: int| 0 <= q < i ==> !token_at(s@, q, t@, case_sensitive),
        decreases s@.len() - i,
    {
        if token_at_exec(s, i, t, case_sensitive) {
            return true;
        }
        i = i + 1;
    }
    assert forall|q: int| !token_at(s@, q, t@, case_sensitive) by {
        if 0 <= q < i {
        }
    }
    false
}

} // verus!
