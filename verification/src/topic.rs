//! Topic level grammar and wildcard matching.
//!
//! A topic string is a sequence of levels separated by `/`.  A filter level
//! may be the single-level wildcard `+` or, as the last level only, the
//! multi-level wildcard `#`.  A filter whose first level is a wildcard never
//! matches a topic whose first level starts with `$`.

use vstd::prelude::*;

verus! {

/// Index of the first `/` in `s`, or `-1` if there is none.
pub open spec fn first_sep(s: Seq<char>) -> int
    decreases s.len(),
{
    if s.len() == 0 {
        -1
    } else if s[0] == '/' {
        0
    } else {
        let r = first_sep(s.skip(1));
        if r < 0 {
            -1
        } else {
            r + 1
        }
    }
}

pub proof fn lemma_first_sep_bounds(s: Seq<char>)
    ensures
        -1 <= first_sep(s) < s.len(),
        first_sep(s) >= 0 ==> s[first_sep(s)] == '/',
        forall|j: int| 0 <= j < first_sep(s) ==> s[j] != '/',
        first_sep(s) == -1 ==> forall|j: int| 0 <= j < s.len() ==> s[j] != '/',
    decreases s.len(),
{
    if s.len() == 0 {
    } else if s[0] == '/' {
    } else {
        lemma_first_sep_bounds(s.skip(1));
        assert forall|j: int| 0 <= j < first_sep(s) implies s[j] != '/' by {
            if j > 0 {
                assert(s.skip(1)[j - 1] != '/');
            }
        }
        if first_sep(s) == -1 {
            assert forall|j: int| 0 <= j < s.len() implies s[j] != '/' by {
                if j > 0 {
                    assert(s.skip(1)[j - 1] != '/');
                }
            }
        }
    }
}

/// The levels of a topic string: maximal `/`-free substrings, in order.
/// An empty string has one empty level; `a//b` has the levels `a`, ``, `b`.
pub open spec fn levels_of(s: Seq<char>) -> Seq<Seq<char>>
    decreases s.len(),
    via levels_of_decreases
{
    let i = first_sep(s);
    if i < 0 {
        seq![s]
    } else {
        seq![s.take(i)] + levels_of(s.skip(i + 1))
    }
}

#[via_fn]
proof fn levels_of_decreases(s: Seq<char>) {
    lemma_first_sep_bounds(s);
}

/// If the first `/` of `s` stands at `k`, the first level is `s` up to `k`
/// and the remaining levels are those of the rest.
pub proof fn lemma_levels_of_step(s: Seq<char>, k: int)
    requires
        0 <= k < s.len(),
        s[k] == '/',
        forall|j: int| 0 <= j < k ==> s[j] != '/',
    ensures
        levels_of(s) == seq![s.take(k)] + levels_of(s.skip(k + 1)),
{
    lemma_first_sep_bounds(s);
    if first_sep(s) < k {
        assert(s[first_sep(s)] == '/');
    }
    if first_sep(s) > k {
        assert(s[k] != '/');
    }
    assert(first_sep(s) == k);
}

pub proof fn lemma_levels_of_whole(s: Seq<char>)
    requires
        forall|j: int| 0 <= j < s.len() ==> s[j] != '/',
    ensures
        levels_of(s) == seq![s],
{
    lemma_first_sep_bounds(s);
    if first_sep(s) >= 0 {
        assert(s[first_sep(s)] == '/');
    }
}

/// The single-level wildcard, as a level.
pub open spec fn wild_one() -> Seq<char> {
    seq!['+']
}

/// The multi-level wildcard, as a level.
pub open spec fn wild_many() -> Seq<char> {
    seq!['#']
}

/// Level-wise matching: a literal level matches only itself, `+` matches any
/// one level, and `#` matches the parent level and everything below it.
pub open spec fn levels_match(f: Seq<Seq<char>>, t: Seq<Seq<char>>) -> bool
    decreases f.len(),
{
    if f.len() == 0 {
        t.len() == 0
    } else if f[0] == wild_many() {
        true
    } else if t.len() == 0 {
        false
    } else if f[0] == wild_one() || f[0] == t[0] {
        levels_match(f.skip(1), t.skip(1))
    } else {
        false
    }
}

/// A filter whose first level is a wildcard does not match a topic whose
/// first level starts with `$` (system topics).
pub open spec fn dollar_guard(f: Seq<Seq<char>>, t: Seq<Seq<char>>) -> bool {
    !(t.len() > 0 && t[0].len() > 0 && t[0][0] == '$' && f.len() > 0 && (f[0] == wild_one()
        || f[0] == wild_many()))
}

/// Whether the filter string `f` matches the concrete topic string `t`.
pub open spec fn filter_matches(f: Seq<char>, t: Seq<char>) -> bool {
    dollar_guard(levels_of(f), levels_of(t)) && levels_match(levels_of(f), levels_of(t))
}

/// A filter level is valid when a wildcard character occupies it entirely.
pub open spec fn valid_level(l: Seq<char>) -> bool {
    forall|j: int| 0 <= j < l.len() ==> ((l[j] == '#' || l[j] == '+') ==> l.len() == 1)
}

/// A valid filter has only valid levels and `#` only as its last level.
pub open spec fn valid_filter_levels(f: Seq<Seq<char>>) -> bool {
    forall|i: int|
        0 <= i < f.len() ==> (valid_level(#[trigger] f[i]) && (f[i] == wild_many() ==> i == f.len()
            - 1))
}

pub open spec fn valid_filter(f: Seq<char>) -> bool {
    valid_filter_levels(levels_of(f))
}

/// A concrete topic contains no wildcard characters.
pub open spec fn valid_topic(t: Seq<char>) -> bool {
    forall|j: int| 0 <= j < t.len() ==> (t[j] != '#' && t[j] != '+')
}

/// Splits a topic or filter string into its levels.
pub fn split_levels(s: &str) -> (r: Vec<String>)
    ensures
        r.deep_view() == levels_of(s@),
{
    let n = s.unicode_len();
    let mut r: Vec<String> = Vec::new();
    let mut start: usize = 0;
    let mut i: usize = 0;
    proof {
        assert(s@.skip(0) =~= s@);
        assert(r.deep_view() + levels_of(s@) =~= levels_of(s@));
    }
    while i < n
        invariant
            start <= i <= n,
            n == s@.len(),
            forall|j: int| start <= j < i ==> s@[j] != '/',
            r.deep_view() + levels_of(s@.skip(start as int)) == levels_of(s@),
        decreases n - i,
    {
        if s.get_char(i) == '/' {
            let level = s.substring_char(start, i).to_owned();
            proof {
                let tail = s@.skip(start as int);
                assert forall|j: int| 0 <= j < i - start implies tail[j] != '/' by {
                    assert(tail[j] == s@[start + j]);
                }
                assert(tail[i - start] == '/');
                lemma_levels_of_step(tail, i - start);
                assert(tail.take(i - start) =~= s@.subrange(start as int, i as int));
                assert(tail.skip(i - start + 1) =~= s@.skip(i + 1 as int));
                assert((r.deep_view() + seq![level@]) + levels_of(s@.skip(i + 1 as int)) =~= r.deep_view()
                    + levels_of(s@.skip(start as int)));
                assert(r.deep_view().push(level@) =~= r.deep_view() + seq![level@]);
            }
            r.push(level);
            start = i + 1;
        }
        i = i + 1;
    }
    let last = s.substring_char(start, n).to_owned();
    proof {
        let tail = s@.skip(start as int);
        assert forall|j: int| 0 <= j < tail.len() implies tail[j] != '/' by {
            assert(tail[j] == s@[start + j]);
        }
        lemma_levels_of_whole(tail);
        assert(tail =~= s@.subrange(start as int, n as int));
        assert(r.deep_view().push(last@) =~= r.deep_view() + seq![last@]);
    }
    r.push(last);
    r
}

/// Whether a level string is exactly the given wildcard character.
fn is_char_level(s: &String, c: char) -> (b: bool)
    ensures
        b == (s@ == seq![c]),
{
    let n = s.as_str().unicode_len();
    if n == 1 {
        let got = s.as_str().get_char(0) == c;
        proof {
            if got {
                assert(s@ =~= seq![c]);
            }
        }
        got
    } else {
        false
    }
}

/// Whether a level string starts with `$`.
fn starts_with_dollar(s: &String) -> (b: bool)
    ensures
        b == (s@.len() > 0 && s@[0] == '$'),
{
    let n = s.as_str().unicode_len();
    n > 0 && s.as_str().get_char(0) == '$'
}

/// Level-wise matching on split level lists.
pub fn levels_match_exec(f: &Vec<String>, t: &Vec<String>) -> (b: bool)
    ensures
        b == levels_match(f.deep_view(), t.deep_view()),
{
    let ghost fv = f.deep_view();
    let ghost tv = t.deep_view();
    let mut i: usize = 0;
    proof {
        assert(fv.skip(0) =~= fv);
        assert(tv.skip(0) =~= tv);
    }
    loop
        invariant
            i <= f.len(),
            i <= t.len(),
            fv == f.deep_view(),
            tv == t.deep_view(),
            fv.len() == f.len(),
            tv.len() == t.len(),
            levels_match(fv, tv) == levels_match(fv.skip(i as int), tv.skip(i as int)),
        decreases f.len() - i,
    {
        if i == f.len() {
            return t.len() == i;
        }
        if is_char_level(&f[i], '#') {
            return true;
        }
        if i == t.len() {
            return false;
        }
        let step = is_char_level(&f[i], '+') || f[i] == t[i];
        if !step {
            return false;
        }
        proof {
            assert(fv.skip(i as int)[0] == fv[i as int]);
            assert(tv.skip(i as int)[0] == tv[i as int]);
            assert(fv.skip(i as int).skip(1) =~= fv.skip(i + 1 as int));
            assert(tv.skip(i as int).skip(1) =~= tv.skip(i + 1 as int));
        }
        i = i + 1;
    }
}

/// Whether the filter (given split into levels) matches the topic (likewise),
/// under the wildcard and `$`-guard rules.
pub fn match_levels(f: &Vec<String>, t: &Vec<String>) -> (b: bool)
    ensures
        b == (dollar_guard(f.deep_view(), t.deep_view()) && levels_match(
            f.deep_view(),
            t.deep_view(),
        )),
{
    if t.len() > 0 && f.len() > 0 && starts_with_dollar(&t[0]) && (is_char_level(&f[0], '+')
        || is_char_level(&f[0], '#')) {
        return false;
    }
    levels_match_exec(f, t)
}

/// Whether the filter string matches the concrete topic string.
pub fn topic_matches(filter: &str, topic: &str) -> (b: bool)
    ensures
        b == filter_matches(filter@, topic@),
{
    let f = split_levels(filter);
    let t = split_levels(topic);
    match_levels(&f, &t)
}

/// Checks the wildcard grammar of a filter string.
pub fn check_filter(filter: &Vec<String>) -> (b: bool)
    ensures
        b == valid_filter_levels(filter.deep_view()),
{
    let ghost fv = filter.deep_view();
    let n = filter.len();
    let mut i: usize = 0;
    while i < n
        invariant
            i <= n,
            n == filter.len(),
            fv == filter.deep_view(),
            fv.len() == n,
            forall|k: int|
                0 <= k < i ==> (valid_level(#[trigger] fv[k]) && (fv[k] == wild_many() ==> k == n
                    - 1)),
        decreases n - i,
    {
        let level = &filter[i];
        let m = level.as_str().unicode_len();
        let mut j: usize = 0;
        while j < m
            invariant
                j <= m,
                m == level@.len(),
                fv == filter.deep_view(),
                fv.len() == n,
                i < n,
                level@ == fv[i as int],
                forall|k: int| 0 <= k < j ==> ((level@[k] == '#' || level@[k] == '+') ==> m == 1),
            decreases m - j,
        {
            let c = level.as_str().get_char(j);
            if (c == '#' || c == '+') && m != 1 {
                proof {
                    assert(!valid_level(fv[i as int]));
                    assert(!valid_filter_levels(fv));
                }
                return false;
            }
            j = j + 1;
        }
        if is_char_level(level, '#') && i != n - 1 {
            proof {
                assert(fv[i as int] == wild_many() && i != n - 1);
                assert(!valid_filter_levels(fv));
            }
            return false;
        }
        i = i + 1;
    }
    true
}

/// Checks that a topic string is concrete: free of wildcard characters.
pub fn check_topic(topic: &str) -> (b: bool)
    ensures
        b == valid_topic(topic@),
{
    let n = topic.unicode_len();
    let mut i: usize = 0;
    while i < n
        invariant
            i <= n,
            n == topic@.len(),
            forall|j: int| 0 <= j < i ==> (topic@[j] != '#' && topic@[j] != '+'),
        decreases n - i,
    {
        let c = topic.get_char(i);
        if c == '#' || c == '+' {
            return false;
        }
        i = i + 1;
    }
    true
}

} // verus!
