//! Laws of `merge_block` over the managed block.
use vstd::prelude::*;
use crate::decimal::decimal_digits;
use crate::gtk_css::{BLOCK_BEGIN, BLOCK_END, block_body, managed_block_text, merged, managed_span};
use crate::text::{
    first_occurrence, first_occurrence_from, is_first_occurrence, lemma_first_occurrence,
    lemma_first_occurrence_from, lemma_first_occurrence_from_is, lemma_first_occurrence_is,
    lemma_occurs_in_skip, occurs_at,
};


verus! {

broadcast use vstd::string::group_string_axioms;

/// No character among the first `n` of `s` equals `c`.
spec fn lacks_char(s: Seq<char>, c: char, n: nat) -> bool
    decreases n,
{
    n == 0 || (s[n - 1] != c && lacks_char(s, c, (n - 1) as nat))
}

proof fn lemma_lacks_char(s: Seq<char>, c: char, n: nat)
    requires
        lacks_char(s, c, n),
    ensures
        forall|j: int| 0 <= j < n ==> s[j] != c,
    decreases n,
{
    if n > 0 {
        lemma_lacks_char(s, c, (n - 1) as nat);
    }
}

proof fn lemma_markers_lack_newline()
    ensures
        BLOCK_BEGIN@.len() == 62,
        BLOCK_END@.len() == 31,
        forall|j: int| 0 <= j < BLOCK_BEGIN@.len() ==> BLOCK_BEGIN@[j] != '\n',
        forall|j: int| 0 <= j < BLOCK_END@.len() ==> BLOCK_END@[j] != '\n',
{
    reveal_strlit("/* === web-app-hub (BEGIN) — managed block, do not edit === */");
    reveal_strlit("/* === web-app-hub (END) === */");
    assert(lacks_char(BLOCK_BEGIN@, '\n', 62)) by {
        reveal_with_fuel(lacks_char, 63);
    }
    assert(lacks_char(BLOCK_END@, '\n', 31)) by {
        reveal_with_fuel(lacks_char, 32);
    }
    lemma_lacks_char(BLOCK_BEGIN@, '\n', 62);
    lemma_lacks_char(BLOCK_END@, '\n', 31);
}


/// `block` opens with the begin marker, closes with the end marker, and holds
/// no end marker anywhere before its closing one.
pub open spec fn is_framed_block(block: Seq<char>) -> bool {
    &&& block.len() >= BLOCK_BEGIN@.len() + BLOCK_END@.len()
    &&& block.take(BLOCK_BEGIN@.len() as int) == BLOCK_BEGIN@
    &&& block.skip(block.len() - BLOCK_END@.len()) == BLOCK_END@
    &&& forall|i: int| 0 <= i < block.len() - BLOCK_END@.len()
        ==> !#[trigger] occurs_at(block, BLOCK_END@, i)
}

/// The inputs on which merging the same block twice changes nothing more: no
/// begin marker occurs, or an end marker starts at or after the first one.
pub open spec fn merge_settles(existing: Seq<char>) -> bool {
    match first_occurrence(existing, BLOCK_BEGIN@) {
        Some(start) => first_occurrence_from(existing, BLOCK_END@, start) is Some,
        None => true,
    }
}

/// A left-to-right search for non-overlapping matches of `pat` in `s` (the
/// one `str::matches` makes) finds exactly one: there is a first occurrence,
/// and none starts at or after its end.
pub open spec fn matched_once(s: Seq<char>, pat: Seq<char>) -> bool {
    match first_occurrence(s, pat) {
        Some(i) => forall|j: int| i + pat.len() <= j ==> !#[trigger] occurs_at(s, pat, j),
        None => false,
    }
}

/// The text holds no marker, or exactly one managed block: each marker matched
/// once, the end marker starting after the begin marker ends.
pub open spec fn holds_at_most_one_block(existing: Seq<char>) -> bool {
    ||| first_occurrence(existing, BLOCK_BEGIN@) is None && first_occurrence(existing, BLOCK_END@)
        is None
    ||| {
        &&& matched_once(existing, BLOCK_BEGIN@)
        &&& matched_once(existing, BLOCK_END@)
        &&& first_occurrence(existing, BLOCK_END@)->0 >= first_occurrence(existing, BLOCK_BEGIN@)->0
            + BLOCK_BEGIN@.len()
    }
}

proof fn lemma_occurs_agree(s1: Seq<char>, s2: Seq<char>, pat: Seq<char>, i: int, n: int)
    requires
        n <= s1.len(),
        n <= s2.len(),
        s1.take(n) == s2.take(n),
        0 <= i,
        i + pat.len() <= n,
    ensures
        occurs_at(s1, pat, i) == occurs_at(s2, pat, i),
{
    assert forall|k: int| i <= k < i + pat.len() implies s1[k] == s2[k] by {
        assert(s1.take(n)[k] == s1[k]);
        assert(s2.take(n)[k] == s2[k]);
        assert(s1.take(n)[k] == s2.take(n)[k]);
    }
    assert(s1.subrange(i, i + pat.len()) =~= s2.subrange(i, i + pat.len()));
}

proof fn lemma_occurs_inside(prefix: Seq<char>, middle: Seq<char>, suffix: Seq<char>, pat: Seq<char>, j: int)
    requires
        prefix.len() <= j,
        j + pat.len() <= prefix.len() + middle.len(),
    ensures
        occurs_at(prefix + middle + suffix, pat, j) == occurs_at(middle, pat, j - prefix.len()),
{
    let r = prefix + middle + suffix;
    let p = prefix.len() as int;
    assert(r.subrange(j, j + pat.len()) =~= middle.subrange(j - p, j - p + pat.len()));
}

/// Occurrences of `pat` in `r` from `a` on are those of `x` from `b` on when
/// the two texts agree from there.
proof fn lemma_occurs_shift(r: Seq<char>, x: Seq<char>, pat: Seq<char>, a: int, b: int, j: int)
    requires
        0 <= a <= r.len(),
        0 <= b <= x.len(),
        r.skip(a) == x.skip(b),
        a <= j,
    ensures
        occurs_at(r, pat, j) == occurs_at(x, pat, j - a + b),
{
    lemma_occurs_in_skip(r, pat, a, j - a);
    lemma_occurs_in_skip(x, pat, b, j - a);
}

/// An occurrence of a marker that starts inside `x` lies wholly inside `x`
/// when `x` ends a line (or is empty), or when the text after it starts one.
proof fn lemma_no_crossing(x: Seq<char>, rest: Seq<char>, pat: Seq<char>, j: int)
    requires
        forall|k: int| 0 <= k < pat.len() ==> pat[k] != '\n',
        pat.len() > 0,
        x.len() == 0 || x.last() == '\n' || (rest.len() > 0 && rest[0] == '\n'),
        0 <= j < x.len(),
        occurs_at(x + rest, pat, j),
    ensures
        j + pat.len() <= x.len(),
        occurs_at(x, pat, j),
{
    let r = x + rest;
    let n = x.len() as int;
    let m = pat.len() as int;
    assert(r.subrange(j, j + m)[0] == pat[0]);
    if j + m > n {
        if x.last() == '\n' {
            assert(r.subrange(j, j + m)[n - 1 - j] == r[n - 1]);
            assert(false);
        } else {
            assert(r.subrange(j, j + m)[n - j] == r[n]);
            assert(r[n] == rest[0]);
            assert(false);
        }
    }
    assert(x.subrange(j, j + m) =~= r.subrange(j, j + m));
}

proof fn lemma_decimal_46()
    ensures
        decimal_digits(46) == seq!['4', '6'],
{
    assert(decimal_digits(4) == seq!['4']);
    assert(decimal_digits(46) =~= seq!['4', '6']);
}

/// The managed block is a framed block.
pub proof fn lemma_managed_block_is_framed()
    ensures
        is_framed_block(managed_block_text()),
{
    reveal_strlit("/* === web-app-hub (BEGIN) — managed block, do not edit === */");
    reveal_strlit("/* === web-app-hub (END) === */");
    reveal_strlit("\nheaderbar, .titlebar { min-height: ");
    reveal_strlit("px; }\n");
    lemma_decimal_46();
    let body = "\nheaderbar, .titlebar { min-height: 46px; }\n";
    reveal_strlit("\nheaderbar, .titlebar { min-height: 46px; }\n");
    assert(block_body() =~= body@);
    let b = managed_block_text();
    assert(b =~= BLOCK_BEGIN@ + body@ + BLOCK_END@);
    assert(b.len() == 137);
    assert(b.take(62) =~= BLOCK_BEGIN@);
    assert(b.skip(106) =~= BLOCK_END@);
    assert(lacks_char(BLOCK_BEGIN@, 'D', 62)) by {
        reveal_with_fuel(lacks_char, 63);
    }
    assert(lacks_char(body@, 'D', 44)) by {
        reveal_with_fuel(lacks_char, 45);
    }
    assert(lacks_char(BLOCK_END@, 'D', 22)) by {
        reveal_with_fuel(lacks_char, 23);
    }
    lemma_lacks_char(BLOCK_BEGIN@, 'D', 62);
    lemma_lacks_char(body@, 'D', 44);
    lemma_lacks_char(BLOCK_END@, 'D', 22);
    assert forall|j: int| 0 <= j < 128 implies b[j] != 'D' by {
        if j < 62 {
            assert(b[j] == BLOCK_BEGIN@[j]);
        } else if j < 106 {
            assert(b[j] == body@[j - 62]);
        } else {
            assert(b[j] == BLOCK_END@[j - 106]);
        }
    }
    assert(BLOCK_END@[22] == 'D');
    assert forall|i: int| 0 <= i < b.len() - BLOCK_END@.len()
        implies !#[trigger] occurs_at(b, BLOCK_END@, i) by {
        if occurs_at(b, BLOCK_END@, i) {
            assert(b.subrange(i, i + 31)[22] == b[i + 22]);
        }
    }
}

/// The managed block is 137 characters long, and its only `G` is the one of
/// `BEGIN` in the begin marker.
proof fn lemma_managed_block_letters()
    ensures
        managed_block_text().len() == 137,
        BLOCK_BEGIN@[22] == 'G',
        forall|k: int| 0 <= k < 137 && managed_block_text()[k] == 'G' ==> k == 22,
{
    reveal_strlit("/* === web-app-hub (BEGIN) — managed block, do not edit === */");
    reveal_strlit("/* === web-app-hub (END) === */");
    reveal_strlit("\nheaderbar, .titlebar { min-height: ");
    reveal_strlit("px; }\n");
    lemma_decimal_46();
    let body = "\nheaderbar, .titlebar { min-height: 46px; }\n";
    reveal_strlit("\nheaderbar, .titlebar { min-height: 46px; }\n");
    assert(block_body() =~= body@);
    let b = managed_block_text();
    assert(b =~= BLOCK_BEGIN@ + body@ + BLOCK_END@);
    let rest = BLOCK_BEGIN@.skip(23);
    assert(lacks_char(BLOCK_BEGIN@, 'G', 22)) by {
        reveal_with_fuel(lacks_char, 23);
    }
    assert(lacks_char(rest, 'G', 39)) by {
        reveal_with_fuel(lacks_char, 40);
    }
    assert(lacks_char(body@, 'G', 44)) by {
        reveal_with_fuel(lacks_char, 45);
    }
    assert(lacks_char(BLOCK_END@, 'G', 31)) by {
        reveal_with_fuel(lacks_char, 32);
    }
    lemma_lacks_char(BLOCK_BEGIN@, 'G', 22);
    lemma_lacks_char(rest, 'G', 39);
    lemma_lacks_char(body@, 'G', 44);
    lemma_lacks_char(BLOCK_END@, 'G', 31);
    assert forall|k: int| 0 <= k < 137 && b[k] == 'G' implies k == 22 by {
        if k < 22 {
            assert(b[k] == BLOCK_BEGIN@[k]);
        } else if 22 < k < 62 {
            assert(b[k] == rest[k - 23]);
        } else if 62 <= k < 106 {
            assert(b[k] == body@[k - 62]);
        } else if k >= 106 {
            assert(b[k] == BLOCK_END@[k - 106]);
        }
    }
}

/// `x`, with a newline added unless it is empty or already ends a line.
pub open spec fn line_ended(x: Seq<char>) -> Seq<char> {
    if x.len() == 0 || x.last() == '\n' {
        x
    } else {
        x.push('\n')
    }
}

/// An occurrence of a marker in the line-ended text is one in the text itself.
proof fn lemma_line_occurrence_in_text(x: Seq<char>, pat: Seq<char>, j: int)
    requires
        forall|k: int| 0 <= k < pat.len() ==> pat[k] != '\n',
        pat.len() > 0,
        occurs_at(line_ended(x), pat, j),
    ensures
        occurs_at(x, pat, j),
{
    let line = line_ended(x);
    let m = pat.len() as int;
    if !(x.len() == 0 || x.last() == '\n') {
        let n = x.len() as int;
        if j + m > n {
            assert(line.subrange(j, j + m)[n - j] == line[n]);
            assert(false);
        }
        assert(x.subrange(j, j + m) =~= line.subrange(j, j + m));
    }
}

/// In `line_ended(x) + rest`, an occurrence of a marker that starts before
/// `rest` is one in `x`.
proof fn lemma_occurrence_before_rest(x: Seq<char>, rest: Seq<char>, pat: Seq<char>, j: int)
    requires
        forall|k: int| 0 <= k < pat.len() ==> pat[k] != '\n',
        pat.len() > 0,
        0 <= j < line_ended(x).len(),
        occurs_at(line_ended(x) + rest, pat, j),
    ensures
        occurs_at(x, pat, j),
{
    lemma_no_crossing(line_ended(x), rest, pat, j);
    lemma_line_occurrence_in_text(x, pat, j);
}

/// A leftmost occurrence in `x` stays the leftmost once text is added after `x`.
proof fn lemma_first_occurrence_extended(x: Seq<char>, rest: Seq<char>, pat: Seq<char>, i: int)
    requires
        is_first_occurrence(x, pat, i),
    ensures
        first_occurrence(x + rest, pat) == Some(i),
{
    let r = x + rest;
    let n = x.len() as int;
    assert(r.take(n) =~= x.take(n));
    lemma_occurs_agree(r, x, pat, i, n);
    assert forall|j: int| 0 <= j < i implies !#[trigger] occurs_at(r, pat, j) by {
        lemma_occurs_agree(r, x, pat, j, n);
    }
    lemma_first_occurrence_is(r, pat, i);
}

/// In the text that appending a framed block yields, a marker that the given
/// text lacks is first found in the block.
proof fn lemma_first_occurrence_in_appended(x: Seq<char>, b: Seq<char>, pat: Seq<char>, k: int)
    requires
        forall|c: int| 0 <= c < pat.len() ==> pat[c] != '\n',
        pat.len() > 0,
        forall|j: int| !#[trigger] occurs_at(x, pat, j),
        is_first_occurrence(b, pat, k),
    ensures
        first_occurrence(line_ended(x) + b + seq!['\n'], pat) == Some(line_ended(x).len() + k),
{
    let line = line_ended(x);
    let nl = seq!['\n'];
    let r = line + b + nl;
    let p = line.len() as int;
    lemma_occurs_inside(line, b, nl, pat, p + k);
    assert forall|j: int| 0 <= j < p + k implies !#[trigger] occurs_at(r, pat, j) by {
        if j < p {
            if occurs_at(r, pat, j) {
                assert(line + (b + nl) =~= r);
                lemma_occurrence_before_rest(x, b + nl, pat, j);
            }
        } else {
            lemma_occurs_inside(line, b, nl, pat, j);
        }
    }
    lemma_first_occurrence_is(r, pat, p + k);
}

/// The first end marker of a framed block is its closing one, and it opens
/// with the begin marker.
proof fn lemma_framed_firsts(b: Seq<char>)
    requires
        is_framed_block(b),
    ensures
        is_first_occurrence(b, BLOCK_BEGIN@, 0),
        is_first_occurrence(b, BLOCK_END@, b.len() - BLOCK_END@.len()),
{
    let le = BLOCK_END@.len() as int;
    let lb = BLOCK_BEGIN@.len() as int;
    let close = b.len() - le;
    assert(b.subrange(close, close + le) =~= b.skip(close));
    assert(b.subrange(0, lb) =~= b.take(lb));
}

/// Merging a framed block where a managed span exists replaces the span; in
/// the result the begin marker stays where it was and the span is exactly the
/// new block.
proof fn lemma_replaced(x: Seq<char>, b: Seq<char>)
    requires
        is_framed_block(b),
        managed_span(x) is Some,
    ensures
        ({
            let (s, stop) = managed_span(x)->0;
            let r = merged(x, b);
            &&& 0 <= s
            &&& s + BLOCK_BEGIN@.len() <= x.len()
            &&& s <= stop - BLOCK_END@.len()
            &&& stop <= x.len()
            &&& r == x.take(s) + b + x.skip(stop)
            &&& r.take(s + BLOCK_BEGIN@.len()) == x.take(s + BLOCK_BEGIN@.len())
            &&& first_occurrence(r, BLOCK_BEGIN@) == Some(s)
            &&& first_occurrence_from(r, BLOCK_END@, s) == Some(s + b.len() - BLOCK_END@.len())
            &&& managed_span(r) == Some((s, s + b.len()))
            &&& merged(r, b) == r
        }),
{
    lemma_framed_firsts(b);
    let bg = BLOCK_BEGIN@;
    let en = BLOCK_END@;
    let lb = bg.len() as int;
    let le = en.len() as int;
    let (s, stop) = managed_span(x)->0;
    lemma_first_occurrence(x, bg);
    lemma_first_occurrence_from(x, en, s);
    let r = merged(x, b);
    let head = x.take(s);
    let tail = x.skip(stop);
    assert(r == head + b + tail);
    assert(r.take(s + lb) =~= x.take(s + lb)) by {
        assert forall|k: int| 0 <= k < s + lb implies r[k] == x[k] by {
            if k >= s {
                assert(b.take(lb)[k - s] == b[k - s]);
                assert(x.subrange(s, s + lb)[k - s] == x[k]);
            }
        }
    }
    assert(occurs_at(r, bg, s)) by {
        assert(r.subrange(s, s + lb) =~= b.take(lb));
    }
    assert forall|j: int| 0 <= j < s implies !#[trigger] occurs_at(r, bg, j) by {
        lemma_occurs_agree(r, x, bg, j, s + lb);
    }
    lemma_first_occurrence_is(r, bg, s);
    let close = b.len() - le;
    let f = s + close;
    lemma_occurs_inside(head, b, tail, en, f);
    assert forall|j: int| s <= j < f implies !#[trigger] occurs_at(r, en, j) by {
        lemma_occurs_inside(head, b, tail, en, j);
    }
    lemma_first_occurrence_from_is(r, en, s, f);
    assert(managed_span(r) == Some((s, s + b.len())));
    assert(merged(r, b) =~= r);
}

/// Merging a framed block a second time changes nothing, on the inputs of
/// `merge_settles`.
proof fn lemma_merge_framed_idempotent(x: Seq<char>, b: Seq<char>)
    requires
        merge_settles(x),
        is_framed_block(b),
    ensures
        merged(merged(x, b), b) == merged(x, b),
{
    lemma_markers_lack_newline();
    lemma_framed_firsts(b);
    lemma_first_occurrence(x, BLOCK_BEGIN@);
    if managed_span(x) is Some {
        lemma_replaced(x, b);
    } else {
        let bg = BLOCK_BEGIN@;
        let en = BLOCK_END@;
        let le = en.len() as int;
        let r = merged(x, b);
        let line = line_ended(x);
        let nl = seq!['\n'];
        let p = line.len() as int;
        assert(first_occurrence(x, bg) is None);
        assert(r =~= line + b + nl);
        lemma_first_occurrence_in_appended(x, b, bg, 0);
        let close = b.len() - le;
        let f = p + close;
        lemma_occurs_inside(line, b, nl, en, f);
        assert forall|j: int| p <= j < f implies !#[trigger] occurs_at(r, en, j) by {
            lemma_occurs_inside(line, b, nl, en, j);
        }
        lemma_first_occurrence_from_is(r, en, p, f);
        assert(managed_span(r) == Some((p, p + b.len())));
        assert(merged(r, b) =~= r);
    }
}

/// Merging a framed block a second time lengthens the text, on the inputs
/// outside `merge_settles`.
proof fn lemma_merge_framed_unsettled(x: Seq<char>, b: Seq<char>)
    requires
        !merge_settles(x),
        is_framed_block(b),
    ensures
        merged(merged(x, b), b).len() != merged(x, b).len(),
{
    lemma_markers_lack_newline();
    lemma_framed_firsts(b);
    let bg = BLOCK_BEGIN@;
    let en = BLOCK_END@;
    let le = en.len() as int;
    lemma_first_occurrence(x, bg);
    let s = first_occurrence(x, bg)->0;
    lemma_first_occurrence_from(x, en, s);
    assert(managed_span(x) is None);
    let r = merged(x, b);
    let line = line_ended(x);
    let nl = seq!['\n'];
    let p = line.len() as int;
    assert(r =~= line + b + nl);
    assert(r =~= x + (line.skip(x.len() as int) + b + nl));
    lemma_first_occurrence_extended(x, line.skip(x.len() as int) + b + nl, bg, s);
    let close = b.len() - le;
    let f = p + close;
    lemma_occurs_inside(line, b, nl, en, f);
    assert forall|j: int| s <= j < f implies !#[trigger] occurs_at(r, en, j) by {
        if j < p {
            if occurs_at(r, en, j) {
                assert(line + (b + nl) =~= r);
                lemma_occurrence_before_rest(x, b + nl, en, j);
            }
        } else {
            lemma_occurs_inside(line, b, nl, en, j);
        }
    }
    lemma_first_occurrence_from_is(r, en, s, f);
    assert(managed_span(r) == Some((s, p + b.len())));
    assert(merged(r, b).len() == s + b.len() + 1);
}

/// Merging the managed block into text that it has already been merged into
/// changes nothing exactly when the given text holds no begin marker, or an
/// end marker starts at or after its first begin marker.
pub proof fn merge_block_is_idempotent(existing: Seq<char>)
    ensures
        (merged(merged(existing, managed_block_text()), managed_block_text()) == merged(
            existing,
            managed_block_text(),
        )) <==> merge_settles(existing),
{
    lemma_managed_block_is_framed();
    if merge_settles(existing) {
        lemma_merge_framed_idempotent(existing, managed_block_text());
    } else {
        lemma_merge_framed_unsettled(existing, managed_block_text());
    }
}

/// Appending the managed block to a text without markers leaves each marker
/// matched once.
proof fn lemma_one_block_appended(x: Seq<char>)
    requires
        first_occurrence(x, BLOCK_BEGIN@) is None,
        first_occurrence(x, BLOCK_END@) is None,
    ensures
        matched_once(merged(x, managed_block_text()), BLOCK_BEGIN@),
        matched_once(merged(x, managed_block_text()), BLOCK_END@),
{
    let b = managed_block_text();
    let bg = BLOCK_BEGIN@;
    let en = BLOCK_END@;
    lemma_managed_block_is_framed();
    lemma_managed_block_letters();
    lemma_markers_lack_newline();
    lemma_framed_firsts(b);
    lemma_first_occurrence(x, bg);
    lemma_first_occurrence(x, en);
    let r = merged(x, b);
    let line = line_ended(x);
    let nl = seq!['\n'];
    let p = line.len() as int;
    assert(r =~= line + b + nl);
    lemma_first_occurrence_in_appended(x, b, bg, 0);
    lemma_first_occurrence_in_appended(x, b, en, 106);
    assert forall|j: int| p + 62 <= j implies !#[trigger] occurs_at(r, bg, j) by {
        if occurs_at(r, bg, j) {
            if j + 62 <= p + 137 {
                lemma_occurs_inside(line, b, nl, bg, j);
                assert(b.subrange(j - p, j - p + 62)[22] == b[j - p + 22]);
            } else {
                assert(r.subrange(j, j + 62)[p + 137 - j] == r[p + 137]);
            }
        }
    }
    assert forall|j: int| p + 137 <= j implies !#[trigger] occurs_at(r, en, j) by {
        if occurs_at(r, en, j) {
            assert(r.subrange(j, j + 31)[p + 137 - j] == r[p + 137]);
        }
    }
}

/// Replacing the one managed block of a text leaves each marker matched once.
proof fn lemma_one_block_replaced(x: Seq<char>)
    requires
        matched_once(x, BLOCK_BEGIN@),
        matched_once(x, BLOCK_END@),
        first_occurrence(x, BLOCK_END@)->0 >= first_occurrence(x, BLOCK_BEGIN@)->0
            + BLOCK_BEGIN@.len(),
    ensures
        managed_span(x) is Some,
        matched_once(merged(x, managed_block_text()), BLOCK_BEGIN@),
        matched_once(merged(x, managed_block_text()), BLOCK_END@),
{
    let b = managed_block_text();
    let bg = BLOCK_BEGIN@;
    let en = BLOCK_END@;
    lemma_managed_block_is_framed();
    lemma_managed_block_letters();
    lemma_markers_lack_newline();
    lemma_first_occurrence(x, bg);
    lemma_first_occurrence(x, en);
    let r = merged(x, b);
    let s = first_occurrence(x, bg)->0;
    let e = first_occurrence(x, en)->0;
    lemma_first_occurrence_from_is(x, en, s, e);
    assert(managed_span(x) == Some((s, e + 31)));
    lemma_replaced(x, b);
    let head = x.take(s);
    let tail = x.skip(e + 31);
    assert(r == head + b + tail);
    assert(r.skip(s + 106) =~= x.skip(e)) by {
        assert(x.subrange(e, e + 31) =~= en);
    }
    assert forall|j: int| s + 62 <= j implies !#[trigger] occurs_at(r, bg, j) by {
        if occurs_at(r, bg, j) {
            if j + 22 < s + 137 {
                assert(r.subrange(j, j + 62)[22] == r[j + 22]);
                assert(r[j + 22] == b[j - s + 22]);
            } else {
                lemma_occurs_shift(r, x, bg, s + 106, e, j);
            }
        }
    }
    assert(first_occurrence_from(r, en, s) == Some(s + 106));
    lemma_first_occurrence_from(r, en, s);
    assert forall|j: int| 0 <= j < s + 106 implies !#[trigger] occurs_at(r, en, j) by {
        if j < s {
            lemma_occurs_agree(r, x, en, j, s + 62);
        }
    }
    lemma_first_occurrence_is(r, en, s + 106);
    assert forall|j: int| s + 137 <= j implies !#[trigger] occurs_at(r, en, j) by {
        lemma_occurs_shift(r, x, en, s + 106, e, j);
    }
}

/// A text with no marker, or with exactly one managed block, holds exactly one
/// managed block once the managed block is merged in (each marker matched
/// once), and merging again changes nothing.
pub proof fn merge_block_leaves_one_block(existing: Seq<char>)
    requires
        holds_at_most_one_block(existing),
    ensures
        merged(merged(existing, managed_block_text()), managed_block_text()) == merged(
            existing,
            managed_block_text(),
        ),
        matched_once(merged(existing, managed_block_text()), BLOCK_BEGIN@),
        matched_once(merged(existing, managed_block_text()), BLOCK_END@),
{
    lemma_managed_block_is_framed();
    if first_occurrence(existing, BLOCK_BEGIN@) is None && first_occurrence(existing, BLOCK_END@)
        is None {
        lemma_one_block_appended(existing);
    } else {
        lemma_one_block_replaced(existing);
    }
    lemma_merge_framed_idempotent(existing, managed_block_text());
}

/// Content outside the markers is left untouched, and the block is written in:
/// a managed span is replaced in place, keeping what precedes and what
/// follows it; otherwise the whole text is kept and the block follows it on a
/// line of its own, ending with a newline.
pub proof fn merge_block_keeps_outside_content(existing: Seq<char>, block: Seq<char>)
    ensures
        match managed_span(existing) {
            Some((start, end)) => {
                &&& merged(existing, block).take(start) == existing.take(start)
                &&& occurs_at(merged(existing, block), block, start)
                &&& merged(existing, block).skip(start + block.len()) == existing.skip(end)
            },
            None => {
                &&& merged(existing, block).take(existing.len() as int) == existing
                &&& occurs_at(merged(existing, block), block, line_ended(existing).len() as int)
                &&& merged(existing, block).last() == '\n'
            },
        },
{
    lemma_first_occurrence(existing, BLOCK_BEGIN@);
    let r = merged(existing, block);
    match managed_span(existing) {
        Some((start, end)) => {
            lemma_first_occurrence_from(existing, BLOCK_END@, start);
            let head = existing.take(start);
            let tail = existing.skip(end);
            assert(r == head + block + tail);
            assert(r.take(start) =~= head);
            assert(r.subrange(start, start + block.len()) =~= block);
            assert(r.skip(start + block.len()) =~= tail);
        },
        None => {
            let line = line_ended(existing);
            assert(r =~= line + block + seq!['\n']);
            assert(r.take(existing.len() as int) =~= existing);
            assert(r.subrange(line.len() as int, (line.len() + block.len()) as int) =~= block);
        },
    }
}

} // verus!
