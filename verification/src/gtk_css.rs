//! The managed block that gives Chromium `--app` windows a title bar as tall as
//! a native libadwaita header bar, and its merge into a user's `gtk.css`.
//!
//! Content outside the markers is left untouched: an existing block is
//! replaced in place, otherwise a new one is appended.
use vstd::prelude::*;
use vstd::string::*;
use crate::decimal::{decimal_digits, push_decimal_u64};
use crate::text::{
    chars_of, find_chars, find_chars_from, first_occurrence, first_occurrence_from,
    lemma_first_occurrence, lemma_first_occurrence_from,
};

verus! {

broadcast use vstd::string::group_string_axioms;

/// Native libadwaita `HeaderBar` height. Real GTK apps already render at this
/// height, so using it as a floor is visually neutral for them.
pub const HEADER_BAR_MIN_HEIGHT_PX: u32 = 46;

/// The line that opens the managed block.
pub const BLOCK_BEGIN: &'static str = "/* === web-app-hub (BEGIN) — managed block, do not edit === */";

/// The line that closes the managed block.
pub const BLOCK_END: &'static str = "/* === web-app-hub (END) === */";

/// GTK config sub-directories that hold a `gtk.css`. Chromium reads the version
/// matching its `--gtk-version` flag; both are covered so the override applies
/// regardless of which version a browser ends up using.
pub const GTK_CONFIG_DIRS: [&'static str; 2] = ["gtk-4.0", "gtk-3.0"];

/// The text between the two markers of the managed block.
pub open spec fn block_body() -> Seq<char> {
    "\nheaderbar, .titlebar { min-height: "@ + decimal_digits(HEADER_BAR_MIN_HEIGHT_PX as nat)
        + "px; }\n"@
}

/// The managed block: begin marker, the header bar rule, end marker.
pub open spec fn managed_block_text() -> Seq<char> {
    BLOCK_BEGIN@ + block_body() + BLOCK_END@
}

/// `existing` with `block` added at its end on a line of its own, followed by
/// a newline.
pub open spec fn appended(existing: Seq<char>, block: Seq<char>) -> Seq<char> {
    if existing.len() == 0 {
        block.push('\n')
    } else if existing.last() == '\n' {
        existing + block.push('\n')
    } else {
        existing.push('\n') + block.push('\n')
    }
}

/// The span that `merge_block` replaces: from the first begin marker to the
/// end of the first end marker that starts at or after it, when there is one.
pub open spec fn managed_span(existing: Seq<char>) -> Option<(int, int)> {
    match first_occurrence(existing, BLOCK_BEGIN@) {
        Some(start) => match first_occurrence_from(existing, BLOCK_END@, start) {
            Some(end_marker) => Some((start, end_marker + BLOCK_END@.len())),
            None => None,
        },
        None => None,
    }
}

/// What `merge_block` produces.
pub open spec fn merged(existing: Seq<char>, block: Seq<char>) -> Seq<char> {
    match managed_span(existing) {
        Some((start, end)) => existing.take(start) + block + existing.skip(end),
        None => appended(existing, block),
    }
}

/// The managed block, as written into `gtk.css`.
pub fn managed_block() -> (r: String)
    ensures
        r@ == managed_block_text(),
{
    let mut r = String::from_str(BLOCK_BEGIN);
    r.append("\nheaderbar, .titlebar { min-height: ");
    push_decimal_u64(&mut r, HEADER_BAR_MIN_HEIGHT_PX as u64);
    r.append("px; }\n");
    r.append(BLOCK_END);
    assert(r@ =~= managed_block_text());
    r
}

/// Replace an existing managed block in `existing` (from its begin marker to
/// the first end marker after it), or append a new one. Content outside the
/// markers is left untouched.
pub fn merge_block(existing: &str, block: &str) -> (r: String)
    ensures
        r@ == merged(existing@, block@),
{
    let ex = chars_of(existing);
    let begin = chars_of(BLOCK_BEGIN);
    let end = chars_of(BLOCK_END);
    if let Some(start) = find_chars(&ex, &begin) {
        proof {
            lemma_first_occurrence(ex@, begin@);
        }
        if let Some(end_marker) = find_chars_from(&ex, &end, start) {
            proof {
                lemma_first_occurrence_from(ex@, end@, start as int);
            }
            let ex_len = ex.len();
            let end_len = end.len();
            assert(end_marker + end_len <= ex_len);
            let stop = end_marker + end_len;
            let mut result = String::new();
            result.append(existing.substring_char(0, start));
            result.append(block);
            result.append(existing.substring_char(stop, ex_len));
            assert(result@ =~= merged(existing@, block@));
            return result;
        }
    }
    proof {
        reveal_strlit("\n");
    }
    let n = ex.len();
    if n == 0 {
        let mut result = String::from_str(block);
        result.append("\n");
        assert(result@ =~= merged(existing@, block@));
        result
    } else if ex[n - 1] == '\n' {
        let mut result = String::from_str(existing);
        result.append(block);
        result.append("\n");
        assert(result@ =~= merged(existing@, block@));
        result
    } else {
        let mut result = String::from_str(existing);
        result.append("\n");
        result.append(block);
        result.append("\n");
        assert(result@ =~= merged(existing@, block@));
        result
    }
}

} // verus!
