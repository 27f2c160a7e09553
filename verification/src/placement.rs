//! Restoring the window geometry of an isolated Chromium app from the
//! `browser.app_window_placement` entry that Chromium saves in the profile's
//! `Preferences` on close.
use vstd::prelude::*;
use vstd::string::*;
use crate::decimal::{decimal_int, push_decimal_i64};
use crate::json::{
    JsonMember, JsonValue, get, has_key, json_bool, json_get, json_i64, json_of, member, member_value,
    parse_json,
};
use crate::text::{chars_of, has_prefix_in, opt_string_views, string_views};

verus! {

broadcast use vstd::string::group_string_axioms;

/// The first object in `value`, searched depth first with members in order,
/// that carries both a `left` and a `right` member.
pub open spec fn placement_of(value: JsonValue) -> Option<Seq<JsonMember>>
    decreases value,
{
    match value {
        JsonValue::Object(members) => {
            if has_key(members@, "left"@) && has_key(members@, "right"@) {
                Some(members@)
            } else {
                placement_among(members@)
            }
        },
        _ => None,
    }
}

/// The first placement found in the values of `members`, in order.
pub open spec fn placement_among(members: Seq<JsonMember>) -> Option<Seq<JsonMember>>
    decreases members,
{
    if members.len() == 0 {
        None
    } else {
        match placement_of(members[0].value) {
            Some(p) => Some(p),
            None => placement_among(members.drop_first()),
        }
    }
}

/// `app_window_placement` nests as `{ "<a>": { "<b>": { left, top, ... } } }`.
/// An isolated profile holds exactly one app, so this descends to the first
/// object that actually carries the geometry keys.
pub fn find_placement(value: &JsonValue) -> (r: Option<&Vec<JsonMember>>)
    ensures
        match r {
            Some(p) => placement_of(*value) == Some(p@),
            None => placement_of(*value) is None,
        },
    decreases value,
{
    match value {
        JsonValue::Object(members) => {
            if member(members, "left").is_some() && member(members, "right").is_some() {
                proof {
                    reveal_strlit("left");
                    reveal_strlit("right");
                }
                return Some(members);
            }
            let n = members.len();
            let mut i: usize = 0;
            assert(members@.skip(0) =~= members@);
            proof {
                reveal_strlit("left");
                reveal_strlit("right");
            }
            while i < n
                invariant
                    *value == JsonValue::Object(*members),
                    !(has_key(members@, "left"@) && has_key(members@, "right"@)),
                    n == members@.len(),
                    i <= n,
                    placement_among(members@.skip(i as int)) == placement_among(members@),
                decreases n - i,
            {
                let ghost rest = members@.skip(i as int);
                assert(rest[0] == members@[i as int]);
                assert(decreases_to!(*value => *members));
                assert(decreases_to!(*members => members@));
                assert(decreases_to!(members@ => members@[i as int]));
                assert(decreases_to!(members@[i as int] => members@[i as int].value));
                assert(decreases_to!(*value => members@[i as int].value));
                let found = find_placement(&members[i].value);
                if found.is_some() {
                    return found;
                }
                assert(rest.drop_first() =~= members@.skip(i + 1));
                i = i + 1;
            }
            None
        },
        _ => None,
    }
}

/// The flag that opens the browser window maximized.
pub const START_MAXIMIZED: &'static str = "--start-maximized";

/// The flag that sets the window size, followed by `=<width>,<height>`.
pub const WINDOW_SIZE: &'static str = "--window-size";

/// The flag that sets the window position, followed by `=<left>,<top>`.
pub const WINDOW_POSITION: &'static str = "--window-position";

/// The integer member `key` of a placement.
pub open spec fn placement_int(placement: Seq<JsonMember>, key: Seq<char>) -> Option<i64> {
    json_i64(member_value(placement, key))
}

/// The placement records a maximized window.
pub open spec fn is_maximized(placement: Seq<JsonMember>) -> bool {
    json_bool(member_value(placement, "maximized"@)) == Some(true)
}

/// `<flag>=<a>,<b>`.
pub open spec fn pair_flag(flag: Seq<char>, a: int, b: int) -> Seq<char> {
    flag + "="@ + decimal_int(a) + ","@ + decimal_int(b)
}

/// The geometry that a placement records: `(left, top, width, height)`, when
/// all four edges are integers.
pub open spec fn placement_geometry(placement: Seq<JsonMember>) -> Option<(int, int, int, int)> {
    match (
        placement_int(placement, "left"@),
        placement_int(placement, "top"@),
        placement_int(placement, "right"@),
        placement_int(placement, "bottom"@),
    ) {
        (Some(left), Some(top), Some(right), Some(bottom)) => Some(
            (left as int, top as int, right - left, bottom - top),
        ),
        _ => None,
    }
}

/// Computing the width or height of the placement overflows an `i64`, which
/// `flags_from_placement` does on a placement that is not maximized.
pub open spec fn placement_overflows(placement: Seq<JsonMember>) -> bool {
    &&& !is_maximized(placement)
    &&& match placement_geometry(placement) {
        Some((_, _, width, height)) => !(i64::MIN <= width <= i64::MAX) || !(i64::MIN <= height
            <= i64::MAX),
        None => false,
    }
}

/// The browser flags that restore a saved placement: `--start-maximized` for a
/// maximized window, else the size and position of a window with a positive
/// area; nothing when an edge is missing or the area is empty.
pub open spec fn placement_flags(placement: Seq<JsonMember>) -> Option<Seq<Seq<char>>> {
    if is_maximized(placement) {
        Some(seq![START_MAXIMIZED@])
    } else {
        match placement_geometry(placement) {
            Some((left, top, width, height)) => {
                if width <= 0 || height <= 0 {
                    None
                } else {
                    Some(
                        seq![
                            pair_flag(WINDOW_SIZE@, width, height),
                            pair_flag(WINDOW_POSITION@, left, top),
                        ],
                    )
                }
            },
            None => None,
        }
    }
}

/// `value.as_bool()` of a member.
fn as_bool(value: Option<&JsonValue>) -> (r: Option<bool>)
    ensures
        r == json_bool(
            match value {
                Some(v) => Some(*v),
                None => None,
            },
        ),
{
    match value {
        Some(JsonValue::Bool(b)) => Some(*b),
        _ => None,
    }
}

/// `value.as_i64()` of a member.
fn as_i64(value: Option<&JsonValue>) -> (r: Option<i64>)
    ensures
        r == json_i64(
            match value {
                Some(v) => Some(*v),
                None => None,
            },
        ),
{
    match value {
        Some(JsonValue::Number(n)) => *n,
        _ => None,
    }
}

/// `<flag>=<a>,<b>`, as the browser reads it.
fn pair_flag_string(flag: &str, a: i64, b: i64) -> (r: String)
    ensures
        r@ == pair_flag(flag@, a as int, b as int),
{
    let mut r = String::from_str(flag);
    r.append("=");
    push_decimal_i64(&mut r, a);
    r.append(",");
    push_decimal_i64(&mut r, b);
    assert(r@ =~= pair_flag(flag@, a as int, b as int));
    r
}

/// Whether the width and height of `placement` can be computed without
/// overflow, that is, whether `flags_from_placement` may be called on it.
pub fn placement_fits(placement: &Vec<JsonMember>) -> (r: bool)
    ensures
        r == !placement_overflows(placement@),
{
    if as_bool(member(placement, "maximized")) == Some(true) {
        return true;
    }
    let left = as_i64(member(placement, "left"));
    let top = as_i64(member(placement, "top"));
    let right = as_i64(member(placement, "right"));
    let bottom = as_i64(member(placement, "bottom"));
    match (left, top, right, bottom) {
        (Some(left), Some(top), Some(right), Some(bottom)) => {
            right.checked_sub(left).is_some() && bottom.checked_sub(top).is_some()
        },
        _ => true,
    }
}

/// The browser flags that restore `placement`.
pub fn flags_from_placement(placement: &Vec<JsonMember>) -> (r: Option<Vec<String>>)
    requires
        !placement_overflows(placement@),
    ensures
        opt_string_views(r) == placement_flags(placement@),
{
    if as_bool(member(placement, "maximized")) == Some(true) {
        let mut flags: Vec<String> = Vec::new();
        flags.push(String::from_str(START_MAXIMIZED));
        assert(string_views(flags@) =~= seq![START_MAXIMIZED@]);
        return Some(flags);
    }
    let left = match as_i64(member(placement, "left")) {
        Some(v) => v,
        None => return None,
    };
    let top = match as_i64(member(placement, "top")) {
        Some(v) => v,
        None => return None,
    };
    let right = match as_i64(member(placement, "right")) {
        Some(v) => v,
        None => return None,
    };
    let bottom = match as_i64(member(placement, "bottom")) {
        Some(v) => v,
        None => return None,
    };
    let width = right - left;
    let height = bottom - top;
    if width <= 0 || height <= 0 {
        return None;
    }
    let mut flags: Vec<String> = Vec::new();
    flags.push(pair_flag_string(WINDOW_SIZE, width, height));
    flags.push(pair_flag_string(WINDOW_POSITION, left, top));
    assert(string_views(flags@) =~= seq![
        pair_flag(WINDOW_SIZE@, width as int, height as int),
        pair_flag(WINDOW_POSITION@, left as int, top as int),
    ]);
    Some(flags)
}

/// A browser argument that already fixes the window geometry.
pub open spec fn pins_geometry(arg: Seq<char>) -> bool {
    ||| arg == START_MAXIMIZED@
    ||| WINDOW_SIZE@.is_prefix_of(arg)
    ||| WINDOW_POSITION@.is_prefix_of(arg)
}

/// Some argument of the browser command already fixes the window geometry
/// (for instance the app's "start maximized" preference is on).
pub open spec fn command_pins_geometry(browser_cmd: Seq<Seq<char>>) -> bool {
    exists|k: int| 0 <= k < browser_cmd.len() && pins_geometry(#[trigger] browser_cmd[k])
}

/// The placement saved in a profile's preferences: the first object with
/// geometry keys under `browser.app_window_placement`.
pub open spec fn saved_placement(prefs: JsonValue) -> Option<Seq<JsonMember>> {
    match json_get(prefs, "browser"@) {
        Some(browser) => match json_get(browser, "app_window_placement"@) {
            Some(placements) => placement_of(placements),
            None => None,
        },
        None => None,
    }
}

/// The view of an optional text.
pub open spec fn opt_text(text: Option<&str>) -> Option<Seq<char>> {
    match text {
        Some(t) => Some(t@),
        None => None,
    }
}

/// The placement saved in the text of a profile's `Preferences`, when the
/// text is there and parses as JSON.
pub open spec fn preferences_placement(prefs_text: Option<Seq<char>>) -> Option<Seq<JsonMember>> {
    match prefs_text {
        Some(text) => match json_of(text) {
            Some(prefs) => saved_placement(prefs),
            None => None,
        },
        None => None,
    }
}

/// The flags that `geometry_flags` adds to the browser command.
pub open spec fn geometry_flags_for(browser_cmd: Seq<Seq<char>>, prefs_text: Option<Seq<char>>) -> Option<
    Seq<Seq<char>>,
> {
    if command_pins_geometry(browser_cmd) {
        None
    } else {
        match preferences_placement(prefs_text) {
            Some(placement) => placement_flags(placement),
            None => None,
        }
    }
}

/// `geometry_flags` can build its flags: the command pins the geometry, or the
/// saved placement (if any) has a width and height that fit in an `i64`.
pub open spec fn geometry_computable(browser_cmd: Seq<Seq<char>>, prefs_text: Option<Seq<char>>) -> bool {
    !command_pins_geometry(browser_cmd) ==> match preferences_placement(prefs_text) {
        Some(placement) => !placement_overflows(placement),
        None => true,
    }
}

/// Whether some argument of `browser_cmd` already fixes the window geometry.
pub fn geometry_pinned(browser_cmd: &Vec<String>) -> (r: bool)
    ensures
        r == command_pins_geometry(string_views(browser_cmd@)),
{
    let maximized = String::from_str(START_MAXIMIZED);
    let size = chars_of(WINDOW_SIZE);
    let position = chars_of(WINDOW_POSITION);
    let ghost cmd = string_views(browser_cmd@);
    let n = browser_cmd.len();
    let mut i: usize = 0;
    while i < n
        invariant
            n == browser_cmd@.len(),
            i <= n,
            cmd == string_views(browser_cmd@),
            maximized@ == START_MAXIMIZED@,
            size@ == WINDOW_SIZE@,
            position@ == WINDOW_POSITION@,
            forall|k: int| 0 <= k < i ==> !pins_geometry(#[trigger] cmd[k]),
        decreases n - i,
    {
        let arg = &browser_cmd[i];
        assert(cmd[i as int] == arg@);
        let chars = chars_of(arg.as_str());
        let len = chars.len();
        assert(chars@.subrange(0, len as int) =~= chars@);
        if *arg == maximized || has_prefix_in(&chars, 0, len, &size) || has_prefix_in(
            &chars,
            0,
            len,
            &position,
        ) {
            return true;
        }
        i = i + 1;
    }
    assert(cmd.len() == n);
    false
}

/// The placement saved in `prefs`, as
/// `find_placement(prefs.get("browser")?.get("app_window_placement")?)` finds it.
pub fn prefs_placement(prefs: &JsonValue) -> (r: Option<&Vec<JsonMember>>)
    ensures
        match r {
            Some(p) => saved_placement(*prefs) == Some(p@),
            None => saved_placement(*prefs) is None,
        },
{
    let browser = match get(prefs, "browser") {
        Some(b) => b,
        None => return None,
    };
    let placements = match get(browser, "app_window_placement") {
        Some(p) => p,
        None => return None,
    };
    find_placement(placements)
}

/// Build the geometry flags to restore the window from the text of the
/// profile's `Preferences` (`None` when it could not be read), or `None` when
/// there is nothing to restore or the caller already pinned the geometry (e.g.
/// the app's "start maximized" preference is on).
pub fn geometry_flags(browser_cmd: &Vec<String>, prefs_text: Option<&str>) -> (r: Option<Vec<String>>)
    requires
        geometry_computable(string_views(browser_cmd@), opt_text(prefs_text)),
    ensures
        opt_string_views(r) == geometry_flags_for(string_views(browser_cmd@), opt_text(prefs_text)),
{
    if geometry_pinned(browser_cmd) {
        return None;
    }
    let text = match prefs_text {
        Some(t) => t,
        None => return None,
    };
    let prefs = match parse_json(text) {
        Some(p) => p,
        None => return None,
    };
    let placement = match prefs_placement(&prefs) {
        Some(p) => p,
        None => return None,
    };
    flags_from_placement(placement)
}

/// `geometry_flags`, or `None` when the saved window's width or height does
/// not fit in an `i64`, where no flags can be built.
pub fn checked_geometry_flags(browser_cmd: &Vec<String>, prefs_text: Option<&str>) -> (r: Option<
    Option<Vec<String>>,
>)
    ensures
        match r {
            Some(flags) => {
                &&& geometry_computable(string_views(browser_cmd@), opt_text(prefs_text))
                &&& opt_string_views(flags) == geometry_flags_for(
                    string_views(browser_cmd@),
                    opt_text(prefs_text),
                )
            },
            None => !geometry_computable(string_views(browser_cmd@), opt_text(prefs_text)),
        },
{
    let computable = if geometry_pinned(browser_cmd) {
        true
    } else {
        match prefs_text {
            None => true,
            Some(text) => match parse_json(text) {
                None => true,
                Some(prefs) => match prefs_placement(&prefs) {
                    None => true,
                    Some(placement) => placement_fits(placement),
                },
            },
        }
    };
    if computable {
        Some(geometry_flags(browser_cmd, prefs_text))
    } else {
        None
    }
}

/// A browser command pins the geometry exactly when one of its arguments, at
/// whatever position, is `--start-maximized` or starts with `--window-size` or
/// `--window-position`; then no geometry flags are added, whatever the
/// preferences say.
pub proof fn pinning_argument_anywhere_blocks_flags(
    browser_cmd: Seq<Seq<char>>,
    prefs_text: Option<Seq<char>>,
)
    ensures
        command_pins_geometry(browser_cmd) <==> exists|k: int|
            0 <= k < browser_cmd.len() && {
                ||| #[trigger] browser_cmd[k] == "--start-maximized"@
                ||| "--window-size"@.is_prefix_of(browser_cmd[k])
                ||| "--window-position"@.is_prefix_of(browser_cmd[k])
            },
        command_pins_geometry(browser_cmd) ==> geometry_flags_for(browser_cmd, prefs_text) is None,
{
}

/// `members` has a member with key `key`, at some position.
pub open spec fn has_member(members: Seq<JsonMember>, key: Seq<char>) -> bool {
    exists|i: int| 0 <= i < members.len() && (#[trigger] members[i]).key@ == key
}

proof fn lemma_member_value_found(members: Seq<JsonMember>, key: Seq<char>)
    ensures
        has_member(members, key) <==> member_value(members, key) is Some,
    decreases members.len(),
{
    if members.len() > 0 {
        let rest = members.drop_first();
        lemma_member_value_found(rest, key);
        if has_member(members, key) && members[0].key@ != key {
            let i = choose|i: int| 0 <= i < members.len() && (#[trigger] members[i]).key@ == key;
            assert(rest[i - 1] == members[i]);
        }
        if has_member(rest, key) {
            let i = choose|i: int| 0 <= i < rest.len() && (#[trigger] rest[i]).key@ == key;
            assert(members[i + 1] == rest[i]);
        }
        if members[0].key@ == key {
            assert(members[0].key@ == key);
        }
    }
}

/// An object that has a `left` and a `right` member is the placement, whatever
/// other members it has.
pub proof fn object_with_left_and_right_is_placement(members: Vec<JsonMember>)
    requires
        has_member(members@, "left"@),
        has_member(members@, "right"@),
    ensures
        placement_of(JsonValue::Object(members)) == Some(members@),
{
    lemma_member_value_found(members@, "left"@);
    lemma_member_value_found(members@, "right"@);
}

proof fn lemma_placement_among_found(members: Seq<JsonMember>, k: int)
    requires
        0 <= k < members.len(),
        placement_of(members[k].value) is Some,
    ensures
        placement_among(members) is Some,
    decreases members.len(),
{
    if k > 0 && placement_of(members[0].value) is None {
        let rest = members.drop_first();
        assert(rest[k - 1] == members[k]);
        lemma_placement_among_found(rest, k - 1);
    }
}

/// A placement inside any member of an object is found from the object: the
/// search never comes back empty-handed when some member holds one.
pub proof fn nested_placement_is_found(members: Vec<JsonMember>, k: int)
    requires
        0 <= k < members@.len(),
        placement_of(members@[k].value) is Some,
    ensures
        placement_of(JsonValue::Object(members)) is Some,
{
    lemma_placement_among_found(members@, k);
}

proof fn lemma_placement_sound(value: JsonValue)
    ensures
        placement_of(value) matches Some(p) ==> has_member(p, "left"@) && has_member(p, "right"@),
    decreases value,
{
    match value {
        JsonValue::Object(members) => {
            lemma_member_value_found(members@, "left"@);
            lemma_member_value_found(members@, "right"@);
            if !(has_key(members@, "left"@) && has_key(members@, "right"@)) {
                assert(decreases_to!(value => members));
                lemma_placement_among_sound(members@);
            }
        },
        _ => {},
    }
}

proof fn lemma_placement_among_sound(members: Seq<JsonMember>)
    ensures
        placement_among(members) matches Some(p) ==> has_member(p, "left"@) && has_member(
            p,
            "right"@,
        ),
    decreases members,
{
    if members.len() > 0 {
        assert(decreases_to!(members => members[0]));
        assert(decreases_to!(members[0] => members[0].value));
        lemma_placement_sound(members[0].value);
        lemma_placement_among_sound(members.drop_first());
    }
}

/// What the search finds is an object with a `left` and a `right` member.
pub proof fn found_placement_has_left_and_right(value: JsonValue)
    ensures
        placement_of(value) matches Some(p) ==> has_member(p, "left"@) && has_member(p, "right"@),
{
    lemma_placement_sound(value);
}

/// A saved window that is not maximized, with integer edges enclosing a
/// positive area, is restored at its size (`right - left` by `bottom - top`)
/// and position (`left`, `top`), whatever its proportions.
pub proof fn placement_with_area_restores_size_and_position(
    placement: Seq<JsonMember>,
    left: i64,
    top: i64,
    right: i64,
    bottom: i64,
)
    requires
        json_bool(member_value(placement, "maximized"@)) != Some(true),
        json_i64(member_value(placement, "left"@)) == Some(left),
        json_i64(member_value(placement, "top"@)) == Some(top),
        json_i64(member_value(placement, "right"@)) == Some(right),
        json_i64(member_value(placement, "bottom"@)) == Some(bottom),
        left < right,
        top < bottom,
    ensures
        placement_flags(placement) == Some(
            seq![
                "--window-size="@ + decimal_int(right - left) + ","@ + decimal_int(bottom - top),
                "--window-position="@ + decimal_int(left as int) + ","@ + decimal_int(top as int),
            ],
        ),
{
    reveal_strlit("--window-size");
    reveal_strlit("--window-size=");
    reveal_strlit("--window-position");
    reveal_strlit("--window-position=");
    reveal_strlit("=");
    assert("--window-size"@ + "="@ =~= "--window-size="@);
    assert("--window-position"@ + "="@ =~= "--window-position="@);
}

/// A saved window that is maximized is restored maximized, whatever its edges.
pub proof fn maximized_placement_restores_maximized(placement: Seq<JsonMember>)
    requires
        json_bool(member_value(placement, "maximized"@)) == Some(true),
    ensures
        placement_flags(placement) == Some(seq!["--start-maximized"@]),
{
}

/// A saved window that is not maximized and encloses no area, or lacks an
/// integer edge, restores nothing.
pub proof fn placement_without_area_restores_nothing(placement: Seq<JsonMember>)
    requires
        json_bool(member_value(placement, "maximized"@)) != Some(true),
        match (
            json_i64(member_value(placement, "left"@)),
            json_i64(member_value(placement, "top"@)),
            json_i64(member_value(placement, "right"@)),
            json_i64(member_value(placement, "bottom"@)),
        ) {
            (Some(left), Some(top), Some(right), Some(bottom)) => right <= left || bottom <= top,
            _ => true,
        },
    ensures
        placement_flags(placement) is None,
{
}

} // verus!
