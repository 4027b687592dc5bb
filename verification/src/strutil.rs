//! Character-level string utilities: splitting, joining, suffix tests and
//! trimming, each specified exactly over `Seq<char>`.

use vstd::prelude::*;

verus! {

/// Index of the first occurrence of `c` in `s`, or `-1` if `c` does not occur.
pub open spec fn find_char(s: Seq<char>, c: char) -> int
    decreases s.len(),
{
    if s.len() == 0 {
        -1
    } else if s[0] == c {
        0
    } else {
        let r = find_char(s.subrange(1, s.len() as int), c);
        if r < 0 {
            -1
        } else {
            r + 1
        }
    }
}

pub proof fn lemma_find_char(s: Seq<char>, c: char)
    ensures
        find_char(s, c) >= 0 ==> find_char(s, c) < s.len() && s[find_char(s, c)] == c,
        forall|j: int| 0 <= j < find_char(s, c) ==> s[j] != c,
        find_char(s, c) < 0 ==> forall|j: int| 0 <= j < s.len() ==> s[j] != c,
    decreases s.len(),
{
    if s.len() > 0 && s[0] != c {
        let t = s.subrange(1, s.len() as int);
        lemma_find_char(t, c);
        assert forall|j: int| 0 <= j < s.len() && find_char(s, c) < 0 implies s[j] != c by {
            if j > 0 {
                assert(s[j] == t[j - 1]);
            }
        }
        assert forall|j: int| 0 <= j < find_char(s, c) implies s[j] != c by {
            if j > 0 {
                assert(s[j] == t[j - 1]);
            }
        }
    }
}

/// `find_char` returns exactly the first occurrence.
pub proof fn lemma_find_char_at(s: Seq<char>, c: char, i: int)
    requires
        0 <= i < s.len(),
        s[i] == c,
        forall|j: int| 0 <= j < i ==> s[j] != c,
    ensures
        find_char(s, c) == i,
    decreases s.len(),
{
    if i > 0 {
        let t = s.subrange(1, s.len() as int);
        assert forall|j: int| 0 <= j < i - 1 implies t[j] != c by {
            assert(t[j] == s[j + 1]);
        }
        assert(t[i - 1] == c);
        lemma_find_char_at(t, c, i - 1);
    }
}

pub proof fn lemma_find_char_none(s: Seq<char>, c: char)
    requires
        forall|j: int| 0 <= j < s.len() ==> s[j] != c,
    ensures
        find_char(s, c) < 0,
{
    lemma_find_char(s, c);
    if find_char(s, c) >= 0 {
        assert(s[find_char(s, c)] == c);
    }
}

/// `s` split on `c`: the tokens between occurrences of `c`, in order.
/// Splitting the empty sequence yields one empty token, as `str::split` does.
pub open spec fn spec_split(s: Seq<char>, c: char) -> Seq<Seq<char>>
    decreases s.len(),
{
    let i = find_char(s, c);
    if 0 <= i < s.len() {
        seq![s.subrange(0, i)] + spec_split(s.subrange(i + 1, s.len() as int), c)
    } else {
        seq![s]
    }
}

pub proof fn lemma_split_no_sep(s: Seq<char>, c: char)
    requires
        forall|j: int| 0 <= j < s.len() ==> s[j] != c,
    ensures
        spec_split(s, c) == seq![s],
{
    lemma_find_char_none(s, c);
}

/// Unfolding of `spec_split` at the first separator.
pub proof fn lemma_split_step(s: Seq<char>, c: char, i: int)
    requires
        0 <= i < s.len(),
        s[i] == c,
        forall|j: int| 0 <= j < i ==> s[j] != c,
    ensures
        spec_split(s, c) == seq![s.subrange(0, i)] + spec_split(
            s.subrange(i + 1, s.len() as int),
            c,
        ),
{
    lemma_find_char_at(s, c, i);
}

pub proof fn lemma_split_len(s: Seq<char>, c: char)
    ensures
        spec_split(s, c).len() >= 1,
    decreases s.len(),
{
    let i = find_char(s, c);
    if 0 <= i < s.len() {
        lemma_split_len(s.subrange(i + 1, s.len() as int), c);
    }
}

/// Splitting distributes over a separator between two halves.
pub proof fn lemma_split_concat(s1: Seq<char>, s2: Seq<char>, c: char)
    ensures
        spec_split(s1 + seq![c] + s2, c) == spec_split(s1, c) + spec_split(s2, c),
    decreases s1.len(),
{
    let whole = s1 + seq![c] + s2;
    let i = find_char(s1, c);
    lemma_find_char(s1, c);
    if i < 0 {
        lemma_find_char_at(whole, c, s1.len() as int);
        assert(whole.subrange(0, s1.len() as int) =~= s1);
        assert(whole.subrange(s1.len() as int + 1, whole.len() as int) =~= s2);
        lemma_split_no_sep(s1, c);
    } else {
        assert forall|j: int| 0 <= j < i implies whole[j] != c by {
            assert(whole[j] == s1[j]);
        }
        assert(whole[i] == s1[i]);
        lemma_find_char_at(whole, c, i);
        let tail1 = s1.subrange(i + 1, s1.len() as int);
        lemma_split_concat(tail1, s2, c);
        assert(whole.subrange(0, i) =~= s1.subrange(0, i));
        assert(whole.subrange(i + 1, whole.len() as int) =~= tail1 + seq![c] + s2);
        assert(seq![s1.subrange(0, i)] + (spec_split(tail1, c) + spec_split(s2, c)) == (seq![
            s1.subrange(0, i),
        ] + spec_split(tail1, c)) + spec_split(s2, c));
    }
}

/// `t` does not contain the separator `c`.
pub open spec fn sep_free(t: Seq<char>, c: char) -> bool {
    forall|j: int| 0 <= j < t.len() ==> t[j] != c
}

/// Every token of a split is free of the separator.
pub proof fn lemma_split_tokens_sep_free(s: Seq<char>, c: char)
    ensures
        forall|k: int|
            0 <= k < spec_split(s, c).len() ==> sep_free(#[trigger] spec_split(s, c)[k], c),
    decreases s.len(),
{
    let i = find_char(s, c);
    lemma_find_char(s, c);
    if 0 <= i < s.len() {
        let rest = s.subrange(i + 1, s.len() as int);
        lemma_split_tokens_sep_free(rest, c);
        assert forall|k: int| 0 <= k < spec_split(s, c).len() implies sep_free(
            #[trigger] spec_split(s, c)[k],
            c,
        ) by {
            if k == 0 {
                assert forall|j: int| 0 <= j < i implies s.subrange(0, i)[j] != c by {
                    assert(s.subrange(0, i)[j] == s[j]);
                }
            } else {
                assert(spec_split(s, c)[k] == spec_split(rest, c)[k - 1]);
            }
        }
    } else {
        assert forall|j: int| 0 <= j < s.len() implies s[j] != c by {}
    }
}

/// Splitting a join recovers the parts, provided each part is free of the
/// separator.
pub proof fn lemma_split_join(parts: Seq<Seq<char>>, c: char)
    requires
        parts.len() >= 1,
        forall|k: int| 0 <= k < parts.len() ==> sep_free(#[trigger] parts[k], c),
    ensures
        spec_split(spec_join(parts, c), c) == parts,
    decreases parts.len(),
{
    if parts.len() == 1 {
        lemma_split_no_sep(parts[0], c);
        assert(seq![parts[0]] =~= parts);
    } else {
        let tail = parts.subrange(1, parts.len() as int);
        lemma_split_concat(parts[0], spec_join(tail, c), c);
        lemma_split_no_sep(parts[0], c);
        assert forall|k: int| 0 <= k < tail.len() implies sep_free(#[trigger] tail[k], c) by {
            assert(tail[k] == parts[k + 1]);
        }
        lemma_split_join(tail, c);
        assert(seq![parts[0]] + tail =~= parts);
    }
}

/// Splits `s` on the character `c`.
pub fn split_char(s: &str, c: char) -> (r: Vec<String>)
    ensures
        r.deep_view() == spec_split(s@, c),
{
    let len = s.unicode_len();
    let mut out: Vec<String> = Vec::new();
    let mut start: usize = 0;
    let mut i: usize = 0;
    proof {
        assert(s@.subrange(0, len as int) =~= s@);
    }
    while i < len
        invariant
            start <= i <= len,
            len == s@.len(),
            spec_split(s@, c) == out.deep_view() + spec_split(
                s@.subrange(start as int, len as int),
                c,
            ),
            forall|j: int| start <= j < i ==> s@[j] != c,
        decreases len - i,
    {
        if s.get_char(i) == c {
            let tok = s.substring_char(start, i);
            proof {
                let rest = s@.subrange(start as int, len as int);
                assert forall|j: int| 0 <= j < i - start implies rest[j] != c by {
                    assert(rest[j] == s@[start + j]);
                }
                assert(rest[i - start] == c);
                lemma_split_step(rest, c, i - start);
                assert(rest.subrange(0, i - start) =~= s@.subrange(start as int, i as int));
                assert(rest.subrange(i - start + 1, rest.len() as int) =~= s@.subrange(
                    i + 1,
                    len as int,
                ));
            }
            let owned = tok.to_owned();
            proof {
                let prev = out.deep_view();
                let toks = seq![tok@];
                assert((out.deep_view() + toks) + spec_split(s@.subrange(i + 1, len as int), c)
                    == out.deep_view() + (toks + spec_split(s@.subrange(i + 1, len as int), c)));
            }
            let ghost prev_dv = out.deep_view();
            out.push(owned);
            proof {
                assert(out.deep_view() =~= prev_dv.push(tok@));
                assert(prev_dv.push(tok@) =~= prev_dv + seq![tok@]);
            }
            start = i + 1;
        }
        i += 1;
    }
    let tok = s.substring_char(start, len);
    proof {
        let rest = s@.subrange(start as int, len as int);
        assert forall|j: int| 0 <= j < rest.len() implies rest[j] != c by {
            assert(rest[j] == s@[start + j]);
        }
        lemma_split_no_sep(rest, c);
    }
    let owned = tok.to_owned();
    let ghost prev_dv = out.deep_view();
    out.push(owned);
    proof {
        assert(out.deep_view() =~= prev_dv.push(tok@));
        assert(prev_dv.push(tok@) =~= prev_dv + seq![tok@]);
    }
    out
}

/// The tokens of `parts` joined with `c` between them.
pub open spec fn spec_join(parts: Seq<Seq<char>>, c: char) -> Seq<char>
    decreases parts.len(),
{
    if parts.len() == 0 {
        Seq::empty()
    } else if parts.len() == 1 {
        parts[0]
    } else {
        parts[0] + seq![c] + spec_join(parts.subrange(1, parts.len() as int), c)
    }
}

pub proof fn lemma_join_push(parts: Seq<Seq<char>>, p: Seq<char>, c: char)
    ensures
        spec_join(parts.push(p), c) == if parts.len() == 0 {
            p
        } else {
            spec_join(parts, c) + seq![c] + p
        },
    decreases parts.len(),
{
    let whole = parts.push(p);
    if parts.len() == 0 {
        assert(whole.len() == 1);
        assert(whole[0] == p);
    } else {
        let tail = parts.subrange(1, parts.len() as int);
        assert(whole.subrange(1, whole.len() as int) =~= tail.push(p));
        lemma_join_push(tail, p, c);
        if parts.len() == 1 {
            assert(tail.len() == 0);
            assert(spec_join(whole, c) == whole[0] + seq![c] + spec_join(tail.push(p), c));
        } else {
            assert(spec_join(parts, c) + seq![c] + p == parts[0] + seq![c] + (spec_join(tail, c)
                + seq![c] + p));
        }
    }
}

/// Joins `parts` with the single-character separator `sep`.
pub fn join_char(parts: &Vec<String>, sep: &str) -> (r: String)
    requires
        sep@.len() == 1,
    ensures
        r@ == spec_join(parts.deep_view(), sep@[0]),
{
    let ghost c = sep@[0];
    let ghost dv = parts.deep_view();
    let mut out = String::new();
    let mut i: usize = 0;
    while i < parts.len()
        invariant
            i <= parts.len(),
            sep@.len() == 1,
            c == sep@[0],
            dv == parts.deep_view(),
            out@ == spec_join(dv.take(i as int), c),
        decreases parts.len() - i,
    {
        if i > 0 {
            out.append(sep);
            proof {
                assert(sep@ =~= seq![c]);
            }
        }
        out.append(parts[i].as_str());
        proof {
            lemma_join_push(dv.take(i as int), dv[i as int], c);
            assert(dv.take(i + 1) =~= dv.take(i as int).push(dv[i as int]));
        }
        i += 1;
    }
    proof {
        assert(dv.take(parts.len() as int) =~= dv);
    }
    out
}

/// `s` ends with `suffix`.
pub open spec fn spec_ends_with(s: Seq<char>, suffix: Seq<char>) -> bool {
    s.len() >= suffix.len() && s.subrange(s.len() - suffix.len(), s.len() as int) == suffix
}

pub fn ends_with_str(s: &str, suffix: &str) -> (r: bool)
    ensures
        r == spec_ends_with(s@, suffix@),
{
    let n = s.unicode_len();
    let m = suffix.unicode_len();
    if m > n {
        return false;
    }
    let mut k: usize = 0;
    while k < m
        invariant
            k <= m <= n,
            n == s@.len(),
            m == suffix@.len(),
            forall|j: int| 0 <= j < k ==> s@[n - m + j] == suffix@[j],
        decreases m - k,
    {
        if s.get_char(n - m + k) != suffix.get_char(k) {
            proof {
                assert(s@.subrange(n - m, n as int)[k as int] != suffix@[k as int]);
            }
            return false;
        }
        k += 1;
    }
    proof {
        assert(s@.subrange(n - m, n as int) =~= suffix@);
    }
    true
}

/// The whitespace characters stripped from the ends of domain-file lines:
/// the characters with the White_Space property, as `str::trim` strips them.
pub open spec fn is_space(c: char) -> bool {
    ||| c == '\u{9}'
    ||| c == '\u{a}'
    ||| c == '\u{b}'
    ||| c == '\u{c}'
    ||| c == '\u{d}'
    ||| c == ' '
    ||| c == '\u{85}'
    ||| c == '\u{a0}'
    ||| c == '\u{1680}'
    ||| c == '\u{2000}'
    ||| c == '\u{2001}'
    ||| c == '\u{2002}'
    ||| c == '\u{2003}'
    ||| c == '\u{2004}'
    ||| c == '\u{2005}'
    ||| c == '\u{2006}'
    ||| c == '\u{2007}'
    ||| c == '\u{2008}'
    ||| c == '\u{2009}'
    ||| c == '\u{200a}'
    ||| c == '\u{2028}'
    ||| c == '\u{2029}'
    ||| c == '\u{202f}'
    ||| c == '\u{205f}'
    ||| c == '\u{3000}'
}

pub open spec fn spec_trim_start(s: Seq<char>) -> Seq<char>
    decreases s.len(),
{
    if s.len() > 0 && is_space(s[0]) {
        spec_trim_start(s.subrange(1, s.len() as int))
    } else {
        s
    }
}

pub open spec fn spec_trim_end(s: Seq<char>) -> Seq<char>
    decreases s.len(),
{
    if s.len() > 0 && is_space(s[s.len() - 1]) {
        spec_trim_end(s.subrange(0, s.len() - 1))
    } else {
        s
    }
}

/// `s` with leading and trailing whitespace removed.
pub open spec fn spec_trim(s: Seq<char>) -> Seq<char> {
    spec_trim_end(spec_trim_start(s))
}

proof fn lemma_trim_start_range(s: Seq<char>, lo: int)
    requires
        0 <= lo <= s.len(),
        forall|j: int| 0 <= j < lo ==> is_space(s[j]),
        lo == s.len() || !is_space(s[lo]),
    ensures
        spec_trim_start(s) == s.subrange(lo, s.len() as int),
    decreases s.len(),
{
    if lo == 0 {
        assert(s.subrange(0, s.len() as int) =~= s);
    } else {
        let t = s.subrange(1, s.len() as int);
        assert forall|j: int| 0 <= j < lo - 1 implies is_space(t[j]) by {
            assert(t[j] == s[j + 1]);
        }
        lemma_trim_start_range(t, lo - 1);
        assert(t.subrange(lo - 1, t.len() as int) =~= s.subrange(lo, s.len() as int));
    }
}

proof fn lemma_trim_end_range(s: Seq<char>, hi: int)
    requires
        0 <= hi <= s.len(),
        forall|j: int| hi <= j < s.len() ==> is_space(s[j]),
        hi == 0 || !is_space(s[hi - 1]),
    ensures
        spec_trim_end(s) == s.subrange(0, hi),
    decreases s.len(),
{
    if hi == s.len() {
        assert(s.subrange(0, s.len() as int) =~= s);
    } else {
        let t = s.subrange(0, s.len() - 1);
        lemma_trim_end_range(t, hi);
        assert(t.subrange(0, hi) =~= s.subrange(0, hi));
    }
}

fn is_space_char(c: char) -> (r: bool)
    ensures
        r == is_space(c),
{
    c == '\u{9}' || c == '\u{a}' || c == '\u{b}' || c == '\u{c}' || c == '\u{d}' || c == ' '
        || c == '\u{85}' || c == '\u{a0}' || c == '\u{1680}' || c == '\u{2000}' || c
        == '\u{2001}' || c == '\u{2002}' || c == '\u{2003}' || c == '\u{2004}' || c == '\u{2005}'
        || c == '\u{2006}' || c == '\u{2007}' || c == '\u{2008}' || c == '\u{2009}' || c
        == '\u{200a}' || c == '\u{2028}' || c == '\u{2029}' || c == '\u{202f}' || c == '\u{205f}'
        || c == '\u{3000}'
}

/// Removes leading and trailing whitespace.
pub fn trim_spaces(s: &str) -> (r: String)
    ensures
        r@ == spec_trim(s@),
{
    let n = s.unicode_len();
    let mut lo: usize = 0;
    while lo < n && is_space_char(s.get_char(lo))
        invariant
            lo <= n,
            n == s@.len(),
            forall|j: int| 0 <= j < lo ==> is_space(s@[j]),
        decreases n - lo,
    {
        lo += 1;
    }
    proof {
        lemma_trim_start_range(s@, lo as int);
    }
    if lo == n {
        proof {
            assert(s@.subrange(lo as int, n as int) =~= Seq::<char>::empty());
        }
        return String::new();
    }
    let mut hi: usize = n;
    while hi > lo && is_space_char(s.get_char(hi - 1))
        invariant
            lo <= hi <= n,
            n == s@.len(),
            forall|j: int| hi <= j < n ==> is_space(s@[j]),
        decreases hi,
    {
        hi -= 1;
    }
    let ghost t = s@.subrange(lo as int, n as int);
    proof {
        assert(!is_space(t[0]));
        assert forall|j: int| hi - lo <= j < t.len() implies is_space(t[j]) by {
            assert(t[j] == s@[lo + j]);
        }
        if hi > lo {
            assert(t[hi - lo - 1] == s@[hi - 1]);
        }
        lemma_trim_end_range(t, hi - lo);
        assert(t.subrange(0, hi - lo) =~= s@.subrange(lo as int, hi as int));
    }
    let r = s.substring_char(lo, hi);
    r.to_owned()
}

pub(crate) fn vec_contains_string(v: &Vec<String>, s: &String) -> (r: bool)
    ensures
        r == v.deep_view().contains(s@),
{
    let mut i: usize = 0;
    while i < v.len()
        invariant
            i <= v.len(),
            forall|j: int| 0 <= j < i ==> v.deep_view()[j] != s@,
        decreases v.len() - i,
    {
        if v[i].eq(s) {
            proof {
                assert(v.deep_view()[i as int] == s@);
            }
            return true;
        }
        i += 1;
    }
    proof {
        if v.deep_view().contains(s@) {
            let j = choose|j: int| 0 <= j < v.deep_view().len() && v.deep_view()[j] == s@;
            assert(v.deep_view()[j] == s@);
        }
    }
    false
}

/// Whether two strings are equal.
pub fn str_eq(a: &str, b: &str) -> (r: bool)
    ensures
        r == (a@ == b@),
{
    let n = a.unicode_len();
    let m = b.unicode_len();
    if n != m {
        return false;
    }
    let mut i: usize = 0;
    while i < n
        invariant
            i <= n,
            n == a@.len(),
            n == b@.len(),
            forall|j: int| 0 <= j < i ==> a@[j] == b@[j],
        decreases n - i,
    {
        if a.get_char(i) != b.get_char(i) {
            return false;
        }
        i += 1;
    }
    proof {
        assert(a@ =~= b@);
    }
    true
}

/// Joining the tokens of a split restores the string.
pub proof fn lemma_join_split(s: Seq<char>, c: char)
    ensures
        spec_join(spec_split(s, c), c) == s,
    decreases s.len(),
{
    let i = find_char(s, c);
    lemma_find_char(s, c);
    if 0 <= i < s.len() {
        let rest = s.subrange(i + 1, s.len() as int);
        lemma_join_split(rest, c);
        lemma_split_len(rest, c);
        let parts = spec_split(s, c);
        let tail = parts.subrange(1, parts.len() as int);
        assert(tail =~= spec_split(rest, c));
        assert(parts.len() >= 2);
        assert(parts[0] == s.subrange(0, i));
        assert(spec_join(parts, c) == parts[0] + seq![c] + spec_join(tail, c));
        assert(s.subrange(0, i) + seq![c] + rest =~= s);
    }
}

/// Whether two byte slices hold the same bytes.
pub fn bytes_eq(a: &[u8], b: &[u8]) -> (r: bool)
    ensures
        r == (a@ == b@),
{
    if a.len() != b.len() {
        proof {
            assert(a@.len() != b@.len());
        }
        return false;
    }
    let mut i: usize = 0;
    while i < a.len()
        invariant
            i <= a@.len(),
            a@.len() == b@.len(),
            forall|j: int| 0 <= j < i ==> a@[j] == b@[j],
        decreases a@.len() - i,
    {
        if a[i] != b[i] {
            return false;
        }
        i += 1;
    }
    proof {
        assert(a@ =~= b@);
    }
    true
}

/// Whether `s` contains the character `c`.
pub fn contains_char(s: &str, c: char) -> (r: bool)
    ensures
        r == !sep_free(s@, c),
{
    let n = s.unicode_len();
    let mut i: usize = 0;
    while i < n
        invariant
            i <= n,
            n == s@.len(),
            forall|j: int| 0 <= j < i ==> s@[j] != c,
        decreases n - i,
    {
        if s.get_char(i) == c {
            return true;
        }
        i += 1;
    }
    false
}

} // verus!
