//! Character-level text primitives shared by the other modules: occurrence
//! search, prefixes and conversion of `&str` into an indexable character vector.
use vstd::prelude::*;
use vstd::string::*;

verus! {

broadcast use vstd::string::group_string_axioms;

/// The views of a sequence of strings.
pub open spec fn string_views(v: Seq<String>) -> Seq<Seq<char>> {
    v.map_values(|s: String| s@)
}

/// The view of an optional string.
pub open spec fn opt_view(o: Option<String>) -> Option<Seq<char>> {
    match o {
        Some(s) => Some(s@),
        None => None,
    }
}

/// The view of an optional vector of strings.
pub open spec fn opt_string_views(o: Option<Vec<String>>) -> Option<Seq<Seq<char>>> {
    match o {
        Some(v) => Some(string_views(v@)),
        None => None,
    }
}

/// `pat` occurs in `s` starting at index `i`.
pub open spec fn occurs_at(s: Seq<char>, pat: Seq<char>, i: int) -> bool {
    &&& 0 <= i
    &&& i + pat.len() <= s.len()
    &&& s.subrange(i, i + pat.len()) == pat
}

/// `i` is the leftmost index at which `pat` occurs in `s`.
pub open spec fn is_first_occurrence(s: Seq<char>, pat: Seq<char>, i: int) -> bool {
    &&& occurs_at(s, pat, i)
    &&& forall|j: int| 0 <= j < i ==> !#[trigger] occurs_at(s, pat, j)
}

/// The leftmost index at which `pat` occurs in `s`, as `str::find` reports it
/// (counted in characters rather than bytes).
pub open spec fn first_occurrence(s: Seq<char>, pat: Seq<char>) -> Option<int> {
    if exists|i: int| occurs_at(s, pat, i) {
        Some(choose|i: int| is_first_occurrence(s, pat, i))
    } else {
        None
    }
}

proof fn lemma_least_occurrence_below(s: Seq<char>, pat: Seq<char>, k: int)
    requires
        occurs_at(s, pat, k),
    ensures
        exists|i: int| is_first_occurrence(s, pat, i),
    decreases k,
{
    if exists|j: int| 0 <= j < k && occurs_at(s, pat, j) {
        let j = choose|j: int| 0 <= j < k && occurs_at(s, pat, j);
        lemma_least_occurrence_below(s, pat, j);
    } else {
        assert(is_first_occurrence(s, pat, k));
    }
}

/// What `first_occurrence` gives back: the leftmost occurrence, or nothing
/// when `pat` never occurs.
pub proof fn lemma_first_occurrence(s: Seq<char>, pat: Seq<char>)
    ensures
        match first_occurrence(s, pat) {
            Some(i) => is_first_occurrence(s, pat, i),
            None => forall|i: int| !#[trigger] occurs_at(s, pat, i),
        },
{
    if exists|i: int| occurs_at(s, pat, i) {
        let k = choose|i: int| occurs_at(s, pat, i);
        lemma_least_occurrence_below(s, pat, k);
    }
}

/// A leftmost occurrence is the one `first_occurrence` names.
pub proof fn lemma_first_occurrence_is(s: Seq<char>, pat: Seq<char>, i: int)
    requires
        is_first_occurrence(s, pat, i),
    ensures
        first_occurrence(s, pat) == Some(i),
{
    lemma_first_occurrence(s, pat);
    let k = first_occurrence(s, pat)->0;
    if k < i {
        assert(!occurs_at(s, pat, k));
    } else if i < k {
        assert(!occurs_at(s, pat, i));
    }
}

/// The leftmost index, not before `from`, at which `pat` occurs in `s`, as
/// `str::find` on the text from `from` on reports it (shifted back by `from`).
pub open spec fn first_occurrence_from(s: Seq<char>, pat: Seq<char>, from: int) -> Option<int> {
    match first_occurrence(s.skip(from), pat) {
        Some(k) => Some(from + k),
        None => None,
    }
}

pub proof fn lemma_occurs_in_skip(s: Seq<char>, pat: Seq<char>, from: int, k: int)
    requires
        0 <= from <= s.len(),
        0 <= k,
    ensures
        occurs_at(s.skip(from), pat, k) == occurs_at(s, pat, from + k),
{
    if k + pat.len() <= s.len() - from {
        assert(s.skip(from).subrange(k, k + pat.len()) =~= s.subrange(from + k, from + k + pat.len()));
    }
}

/// What `first_occurrence_from` gives back: the leftmost occurrence not before
/// `from`, or nothing when none starts there or later.
pub proof fn lemma_first_occurrence_from(s: Seq<char>, pat: Seq<char>, from: int)
    requires
        0 <= from <= s.len(),
    ensures
        match first_occurrence_from(s, pat, from) {
            Some(e) => {
                &&& from <= e
                &&& occurs_at(s, pat, e)
                &&& forall|j: int| from <= j < e ==> !#[trigger] occurs_at(s, pat, j)
            },
            None => forall|j: int| from <= j ==> !#[trigger] occurs_at(s, pat, j),
        },
{
    lemma_first_occurrence(s.skip(from), pat);
    match first_occurrence(s.skip(from), pat) {
        Some(k) => {
            lemma_occurs_in_skip(s, pat, from, k);
            assert forall|j: int| from <= j < from + k implies !#[trigger] occurs_at(s, pat, j) by {
                lemma_occurs_in_skip(s, pat, from, j - from);
            }
        },
        None => {
            assert forall|j: int| from <= j implies !#[trigger] occurs_at(s, pat, j) by {
                lemma_occurs_in_skip(s, pat, from, j - from);
            }
        },
    }
}

/// The leftmost occurrence not before `from` is the one `first_occurrence_from`
/// names.
pub proof fn lemma_first_occurrence_from_is(s: Seq<char>, pat: Seq<char>, from: int, e: int)
    requires
        0 <= from <= e,
        from <= s.len(),
        occurs_at(s, pat, e),
        forall|j: int| from <= j < e ==> !#[trigger] occurs_at(s, pat, j),
    ensures
        first_occurrence_from(s, pat, from) == Some(e),
{
    lemma_occurs_in_skip(s, pat, from, e - from);
    assert forall|k: int| 0 <= k < e - from implies !#[trigger] occurs_at(s.skip(from), pat, k) by {
        lemma_occurs_in_skip(s, pat, from, k);
    }
    lemma_first_occurrence_is(s.skip(from), pat, e - from);
}

/// No occurrence starts at or after `from`.
pub proof fn lemma_no_occurrence_from(s: Seq<char>, pat: Seq<char>, from: int)
    requires
        0 <= from <= s.len(),
        forall|j: int| from <= j ==> !#[trigger] occurs_at(s, pat, j),
    ensures
        first_occurrence_from(s, pat, from) is None,
{
    lemma_first_occurrence_from(s, pat, from);
}

/// The characters of `s`, in order.
pub fn chars_of(s: &str) -> (v: Vec<char>)
    ensures
        v@ == s@,
{
    let mut v: Vec<char> = Vec::new();
    for c in it: s.chars()
        invariant
            v@ == it.seq().take(it.index()),
            it.seq() == s@,
    {
        v.push(c);
    }
    v
}

/// Whether `pat` occurs in `s` at index `i`, checked character by character.
fn matches_at(s: &Vec<char>, pat: &Vec<char>, i: usize) -> (r: bool)
    requires
        i + pat@.len() <= s@.len(),
    ensures
        r == occurs_at(s@, pat@, i as int),
{
    let m = pat.len();
    let mut k: usize = 0;
    while k < m
        invariant
            k <= m,
            m == pat@.len(),
            i + m <= s.len(),
            forall|t: int| 0 <= t < k ==> s@[i + t] == pat@[t],
        decreases m - k,
    {
        if s[i + k] != pat[k] {
            assert(s@.subrange(i as int, i + m)[k as int] != pat@[k as int]);
            return false;
        }
        k = k + 1;
    }
    assert(s@.subrange(i as int, i + m) =~= pat@);
    true
}

/// The leftmost index at which `pat` occurs in `s`, or `None`.
pub fn find_chars(s: &Vec<char>, pat: &Vec<char>) -> (r: Option<usize>)
    ensures
        match r {
            Some(i) => first_occurrence(s@, pat@) == Some(i as int),
            None => first_occurrence(s@, pat@) is None,
        },
{
    let n = s.len();
    let m = pat.len();
    if m > n {
        proof {
            lemma_first_occurrence(s@, pat@);
        }
        return None;
    }
    if m == 0 {
        assert(s@.subrange(0, 0) =~= pat@);
        proof {
            lemma_first_occurrence_is(s@, pat@, 0);
        }
        return Some(0);
    }
    let mut i: usize = 0;
    while i <= n && m <= n - i
        invariant
            n == s@.len(),
            m == pat@.len(),
            1 <= m <= n,
            i <= n,
            forall|j: int| 0 <= j < i ==> !#[trigger] occurs_at(s@, pat@, j),
        decreases n - i,
    {
        if matches_at(s, pat, i) {
            proof {
                lemma_first_occurrence_is(s@, pat@, i as int);
            }
            return Some(i);
        }
        i = i + 1;
    }
    proof {
        lemma_first_occurrence(s@, pat@);
        if let Some(k) = first_occurrence(s@, pat@) {
            assert(occurs_at(s@, pat@, k));
        }
    }
    None
}

/// Whether `prefix` starts the characters `s[start..end]`.
pub fn has_prefix_in(s: &Vec<char>, start: usize, end: usize, prefix: &Vec<char>) -> (r: bool)
    requires
        start <= end <= s@.len(),
    ensures
        r == prefix@.is_prefix_of(s@.subrange(start as int, end as int)),
{
    let m = prefix.len();
    if m > end - start {
        return false;
    }
    let r = matches_at(s, prefix, start);
    assert(s@.subrange(start as int, start + m) =~= s@.subrange(start as int, end as int).subrange(0, m as int));
    r
}

/// The leftmost index, not before `from`, at which `pat` occurs in `s`.
pub fn find_chars_from(s: &Vec<char>, pat: &Vec<char>, from: usize) -> (r: Option<usize>)
    requires
        from <= s@.len(),
    ensures
        match r {
            Some(i) => first_occurrence_from(s@, pat@, from as int) == Some(i as int),
            None => first_occurrence_from(s@, pat@, from as int) is None,
        },
{
    let n = s.len();
    let m = pat.len();
    let mut i: usize = from;
    while i <= n && m <= n - i
        invariant
            n == s@.len(),
            m == pat@.len(),
            from <= i <= n,
            forall|j: int| from <= j < i ==> !#[trigger] occurs_at(s@, pat@, j),
        decreases n - i,
    {
        if matches_at(s, pat, i) {
            proof {
                lemma_first_occurrence_from_is(s@, pat@, from as int, i as int);
            }
            return Some(i);
        }
        if m == 0 {
            assert(s@.subrange(i as int, i as int) =~= pat@);
            assert(false);
        }
        i = i + 1;
    }
    proof {
        assert forall|j: int| from <= j implies !#[trigger] occurs_at(s@, pat@, j) by {
            if i <= j && occurs_at(s@, pat@, j) {
                assert(j + m <= n);
            }
        }
        lemma_no_occurrence_from(s@, pat@, from as int);
    }
    None
}

} // verus!
