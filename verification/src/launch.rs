//! The self-invoked `launch` subcommand of isolated Chromium web apps:
//! splitting its arguments, reading the PID out of a stale `SingletonLock`,
//! and telling whether a process command line belongs to a profile.
use vstd::prelude::*;
use vstd::string::*;
use crate::decimal::{decimal_digits, lemma_decimal_digits_roundtrip, lemma_parse_decimal_u32, parse_u32, parse_u32_spec};
use crate::text::{chars_of, has_prefix_in, opt_view, string_views};

verus! {

broadcast use vstd::string::group_string_axioms;

/// The subcommand under which desktop files invoke the launcher.
pub const SUBCOMMAND: &'static str = "launch";

/// The flag whose value names the isolated browser profile.
pub const PROFILE_FLAG: &'static str = "--profile";

/// Separates the launcher's own flags from the browser command line.
pub const ARGS_SEPARATOR: &'static str = "--";

/// How `--profile <dir> -- <browser> [args...]` splits, reading `args` with
/// `profile` as the profile seen so far: each `--profile` takes the next
/// argument (or clears the profile when none follows), the first `--` that is
/// not such a value hands everything after it to the browser command, and
/// any other argument before it is ignored.
pub open spec fn parse_args_from(args: Seq<Seq<char>>, profile: Option<Seq<char>>) -> (
    Option<Seq<char>>,
    Seq<Seq<char>>,
)
    decreases args.len(),
{
    if args.len() == 0 {
        (profile, Seq::empty())
    } else if args[0] == PROFILE_FLAG@ {
        if args.len() == 1 {
            (None, Seq::empty())
        } else {
            parse_args_from(args.skip(2), Some(args[1]))
        }
    } else if args[0] == ARGS_SEPARATOR@ {
        (profile, args.skip(1))
    } else {
        parse_args_from(args.skip(1), profile)
    }
}

/// Split `--profile <dir> -- <browser> [args...]` into the profile path and the
/// browser command line. Unknown flags before `--` are ignored.
pub fn parse_args(args: Vec<String>) -> (r: (Option<String>, Vec<String>))
    ensures
        (opt_view(r.0), string_views(r.1@)) == parse_args_from(string_views(args@), None),
{
    let ghost all = string_views(args@);
    let flag = String::from_str(PROFILE_FLAG);
    let separator = String::from_str(ARGS_SEPARATOR);
    let mut profile: Option<String> = None;
    let n = args.len();
    let mut i: usize = 0;
    assert(all.skip(0) =~= all);
    while i < n
        invariant
            n == args@.len(),
            i <= n,
            all == string_views(args@),
            flag@ == PROFILE_FLAG@,
            separator@ == ARGS_SEPARATOR@,
            parse_args_from(all.skip(i as int), opt_view(profile)) == parse_args_from(all, None),
        decreases n - i,
    {
        let ghost rest = all.skip(i as int);
        assert(rest[0] == args@[i as int]@);
        if args[i] == flag {
            if i + 1 < n {
                assert(rest.skip(2) =~= all.skip(i + 2));
                assert(rest[1] == args@[i + 1]@);
                profile = Some(args[i + 1].clone());
                i = i + 2;
            } else {
                profile = None;
                i = n;
                assert(all.skip(i as int) =~= Seq::<Seq<char>>::empty());
            }
        } else if args[i] == separator {
            let mut browser_cmd: Vec<String> = Vec::new();
            let mut k: usize = i + 1;
            while k < n
                invariant
                    n == args@.len(),
                    i < k <= n,
                    string_views(browser_cmd@) == all.subrange(i + 1, k as int),
                    all == string_views(args@),
                decreases n - k,
            {
                let ghost before = browser_cmd@;
                browser_cmd.push(args[k].clone());
                assert(browser_cmd@ == before.push(args@[k as int]));
                assert(all[k as int] == args@[k as int]@);
                assert(all.len() == n);
                assert(string_views(before).len() == before.len());
                assert(before.len() == k - i - 1);
                assert forall|t: int| 0 <= t < browser_cmd@.len() implies
                    string_views(browser_cmd@)[t] == all.subrange(i + 1, k + 1)[t] by {
                    if t < before.len() {
                        assert(string_views(before)[t] == all.subrange(i + 1, k as int)[t]);
                    }
                }
                assert(string_views(browser_cmd@) =~= all.subrange(i + 1, k + 1));
                k = k + 1;
            }
            assert(rest.skip(1) =~= all.subrange(i + 1, n as int));
            return (profile, browser_cmd);
        } else {
            assert(rest.skip(1) =~= all.skip(i + 1));
            i = i + 1;
        }
    }
    assert(all.skip(i as int) =~= Seq::<Seq<char>>::empty());
    let empty: Vec<String> = Vec::new();
    assert(string_views(empty@) =~= Seq::<Seq<char>>::empty());
    (profile, empty)
}

/// `--profile <dir> -- <browser> [args...]` yields the profile `<dir>` and the
/// browser command line exactly as given.
pub proof fn parse_args_profile_then_command(dir: Seq<char>, cmd: Seq<Seq<char>>)
    ensures
        parse_args_from(seq![PROFILE_FLAG@, dir, ARGS_SEPARATOR@] + cmd, None) == (Some(dir), cmd),
{
    reveal_strlit("--profile");
    reveal_strlit("--");
    let args = seq![PROFILE_FLAG@, dir, ARGS_SEPARATOR@] + cmd;
    let rest = args.skip(2);
    assert(rest[0] == ARGS_SEPARATOR@);
    assert(ARGS_SEPARATOR@ != PROFILE_FLAG@) by {
        assert(ARGS_SEPARATOR@.len() != PROFILE_FLAG@.len());
    }
    assert(rest.skip(1) =~= cmd);
    assert(args[0] == PROFILE_FLAG@);
    assert(args[1] == dir);
    assert(parse_args_from(args, None) == parse_args_from(rest, Some(dir)));
    assert(parse_args_from(rest, Some(dir)) == (Some(dir), rest.skip(1)));
}

/// Arguments before the first `--` that are neither `--profile` nor `--` are
/// ignored, however many there are.
pub proof fn unknown_arguments_are_ignored(
    pre: Seq<Seq<char>>,
    rest: Seq<Seq<char>>,
    profile: Option<Seq<char>>,
)
    requires
        forall|k: int|
            0 <= k < pre.len() ==> #[trigger] pre[k] != PROFILE_FLAG@ && pre[k] != ARGS_SEPARATOR@,
    ensures
        parse_args_from(pre + rest, profile) == parse_args_from(rest, profile),
    decreases pre.len(),
{
    if pre.len() > 0 {
        let tail = pre.drop_first();
        assert forall|k: int| 0 <= k < tail.len() implies #[trigger] tail[k] != PROFILE_FLAG@
            && tail[k] != ARGS_SEPARATOR@ by {
            assert(tail[k] == pre[k + 1]);
        }
        unknown_arguments_are_ignored(tail, rest, profile);
        assert((pre + rest)[0] == pre[0]);
        assert((pre + rest).skip(1) =~= tail + rest);
    } else {
        assert(pre + rest =~= rest);
    }
}

/// Everything after the first `--` goes to the browser unchanged, and the
/// profile is the one seen before it.
pub proof fn separator_hands_over_the_rest(command: Seq<Seq<char>>, profile: Option<Seq<char>>)
    ensures
        parse_args_from(seq![ARGS_SEPARATOR@] + command, profile) == (profile, command),
{
    reveal_strlit("--profile");
    reveal_strlit("--");
    let args = seq![ARGS_SEPARATOR@] + command;
    assert(args[0] == ARGS_SEPARATOR@);
    assert(ARGS_SEPARATOR@ != PROFILE_FLAG@) by {
        assert(ARGS_SEPARATOR@.len() != PROFILE_FLAG@.len());
    }
    assert(args.skip(1) =~= command);
}

/// The browser command line is always the arguments after some point, taken
/// over unchanged and in order.
pub proof fn parse_args_command_is_suffix(args: Seq<Seq<char>>, profile: Option<Seq<char>>)
    ensures
        exists|k: int| 0 <= k <= args.len() && parse_args_from(args, profile).1 == args.skip(k),
    decreases args.len(),
{
    if args.len() == 0 {
        assert(parse_args_from(args, profile).1 =~= args.skip(0));
    } else if args[0] == PROFILE_FLAG@ {
        if args.len() == 1 {
            assert(parse_args_from(args, profile).1 =~= args.skip(1));
        } else {
            parse_args_command_is_suffix(args.skip(2), Some(args[1]));
            let k = choose|k: int|
                0 <= k <= args.skip(2).len() && parse_args_from(args.skip(2), Some(args[1])).1
                    == args.skip(2).skip(k);
            assert(args.skip(2).skip(k) =~= args.skip(k + 2));
        }
    } else if args[0] == ARGS_SEPARATOR@ {
        assert(parse_args_from(args, profile).1 == args.skip(1));
    } else {
        parse_args_command_is_suffix(args.skip(1), profile);
        let k = choose|k: int|
            0 <= k <= args.skip(1).len() && parse_args_from(args.skip(1), profile).1 == args.skip(
                1,
            ).skip(k);
        assert(args.skip(1).skip(k) =~= args.skip(k + 1));
    }
}

/// `k` is the index of the last `-` in `s`.
pub open spec fn is_last_hyphen(s: Seq<char>, k: int) -> bool {
    &&& 0 <= k < s.len()
    &&& s[k] == '-'
    &&& forall|j: int| k < j < s.len() ==> s[j] != '-'
}

/// The PID that a `SingletonLock` target `<hostname>-<pid>` names: the text
/// after the last `-`, read as a `u32`; nothing when there is no `-`.
pub open spec fn lock_pid(s: Seq<char>) -> Option<u32> {
    if exists|k: int| is_last_hyphen(s, k) {
        parse_u32_spec(s.skip((choose|k: int| is_last_hyphen(s, k)) + 1))
    } else {
        None
    }
}

/// A lock target `<hostname>-<pid>` names `pid`, whatever hyphens the
/// hostname holds.
pub proof fn lock_pid_of_hostname_and_pid(hostname: Seq<char>, pid: u32)
    ensures
        lock_pid(hostname + seq!['-'] + decimal_digits(pid as nat)) == Some(pid),
{
    let digits = decimal_digits(pid as nat);
    lemma_decimal_digits_roundtrip(pid as nat);
    lemma_parse_decimal_u32(pid);
    let s = hostname + seq!['-'] + digits;
    let k = hostname.len() as int;
    assert forall|j: int| k < j < s.len() implies s[j] != '-' by {
        assert(s[j] == digits[j - k - 1]);
        assert(crate::decimal::is_digit(digits[j - k - 1]));
    }
    assert(is_last_hyphen(s, k));
    let c = choose|c: int| is_last_hyphen(s, c);
    if c < k {
        assert(s[k] == '-');
    } else if k < c {
        assert(s[c] == '-');
    }
    assert(s.skip(k + 1) =~= digits);
}

/// `SingletonLock` points to `<hostname>-<pid>`; the hostname itself may
/// contain hyphens, so the PID is split off at the last one.
pub fn parse_lock_pid(lock_target: &str) -> (r: Option<u32>)
    ensures
        r == lock_pid(lock_target@),
{
    let cs = crate::text::chars_of(lock_target);
    let n = cs.len();
    let mut i: usize = n;
    while i > 0 && cs[i - 1] != '-'
        invariant
            i <= n,
            n == cs@.len(),
            forall|j: int| i <= j < n ==> cs@[j] != '-',
        decreases i,
    {
        i = i - 1;
    }
    if i == 0 {
        assert forall|k: int| !is_last_hyphen(cs@, k) by {
            if is_last_hyphen(cs@, k) {
                assert(cs@[k] == '-');
            }
        }
        return None;
    }
    let k = i - 1;
    assert(is_last_hyphen(cs@, k as int));
    proof {
        let c = choose|c: int| is_last_hyphen(cs@, c);
        if c < k {
            assert(cs@[k as int] == '-');
        } else if k < c {
            assert(cs@[c] == '-');
        }
    }
    let (_, pid_chars) = cs.as_slice().split_at(i);
    assert(pid_chars@ =~= cs@.skip(i as int));
    parse_u32(pid_chars)
}

/// The flag with which Chromium names the profile directory it runs on.
pub const USER_DATA_DIR_FLAG: &'static str = "--user-data-dir=";

/// The fields of `s` between occurrences of `sep`, as `str::split` yields
/// them: one more field than there are separators, empty ones included.
pub open spec fn split_fields(s: Seq<char>, sep: char) -> Seq<Seq<char>>
    decreases s.len(),
{
    if s.len() == 0 {
        seq![Seq::empty()]
    } else {
        let fields = split_fields(s.drop_last(), sep);
        if s.last() == sep {
            fields.push(Seq::empty())
        } else {
            fields.update(fields.len() - 1, fields.last().push(s.last()))
        }
    }
}

/// `std::path::Path` equality of the paths that two strings name.
pub uninterp spec fn same_path(a: Seq<char>, b: Seq<char>) -> bool;

/// Compares the paths `a` and `b` with `std::path::Path`'s `==`, which goes by
/// their components. Claimed: the result is `same_path` of the two strings, and
/// identical strings name equal paths (`Path` is `Eq`, hence reflexive). Which
/// distinct strings name equal paths is left to the name.
#[verifier::external_body]
fn paths_equal(a: &str, b: &str) -> (r: bool)
    ensures
        r == same_path(a@, b@),
        a@ == b@ ==> r,
{
    std::path::Path::new(a) == std::path::Path::new(b)
}

/// The command-line argument `field` is `--user-data-dir=<dir>` with `<dir>`
/// naming `profile`.
pub open spec fn names_profile(field: Seq<char>, profile: Seq<char>) -> bool {
    &&& USER_DATA_DIR_FLAG@.is_prefix_of(field)
    &&& same_path(field.skip(USER_DATA_DIR_FLAG@.len() as int), profile)
}

/// A NUL-separated command line holds an argument `--user-data-dir=<dir>` whose
/// `<dir>` is the path `profile`.
pub open spec fn cmdline_owns(cmdline: Seq<char>, profile: Seq<char>) -> bool {
    exists|k: int|
        0 <= k < split_fields(cmdline, '\0').len() && names_profile(
            #[trigger] split_fields(cmdline, '\0')[k],
            profile,
        )
}

/// Some argument of a NUL-separated command line is exactly
/// `--user-data-dir=<profile>`.
pub open spec fn cmdline_names_exact_profile(cmdline: Seq<char>, profile: Seq<char>) -> bool {
    exists|k: int|
        0 <= k < split_fields(cmdline, '\0').len() && #[trigger] split_fields(cmdline, '\0')[k]
            == USER_DATA_DIR_FLAG@ + profile
}

/// Whether the argument `cmdline[start..end]` names `profile`.
fn field_names_profile(
    cmdline: &str,
    chars: &Vec<char>,
    flag: &Vec<char>,
    start: usize,
    end: usize,
    profile: &str,
) -> (r: bool)
    requires
        chars@ == cmdline@,
        flag@ == USER_DATA_DIR_FLAG@,
        start <= end <= chars@.len(),
    ensures
        r == names_profile(cmdline@.subrange(start as int, end as int), profile@),
        cmdline@.subrange(start as int, end as int) == USER_DATA_DIR_FLAG@ + profile@ ==> r,
{
    let field = Ghost(cmdline@.subrange(start as int, end as int));
    if !has_prefix_in(chars, start, end, flag) {
        return false;
    }
    let dir = cmdline.substring_char(start + flag.len(), end);
    assert(dir@ =~= field@.skip(USER_DATA_DIR_FLAG@.len() as int));
    proof {
        if field@ == USER_DATA_DIR_FLAG@ + profile@ {
            assert(dir@ =~= profile@);
        }
    }
    paths_equal(dir, profile)
}

/// Whether a process with the NUL-separated command line `cmdline` runs on
/// `profile`, that is, was given `--user-data-dir=<profile>`. A dead PID, or
/// one reused since by an unrelated process, does not own the profile.
pub fn cmdline_owns_profile(cmdline: &str, profile: &str) -> (r: bool)
    ensures
        r == cmdline_owns(cmdline@, profile@),
        cmdline_names_exact_profile(cmdline@, profile@) ==> r,
{
    let chars = chars_of(cmdline);
    let flag = chars_of(USER_DATA_DIR_FLAG);
    let n = chars.len();
    let ghost s = cmdline@;
    let ghost mut done: Seq<Seq<char>> = Seq::empty();
    let mut found = false;
    let mut start: usize = 0;
    let mut i: usize = 0;
    assert(s.take(0) =~= Seq::<char>::empty());
    assert(split_fields(s.take(0), '\0') =~= done.push(s.subrange(0, 0)));
    while i < n
        invariant
            n == chars@.len(),
            chars@ == s,
            s == cmdline@,
            flag@ == USER_DATA_DIR_FLAG@,
            start <= i <= n,
            split_fields(s.take(i as int), '\0') == done.push(s.subrange(start as int, i as int)),
            found == exists|k: int| 0 <= k < done.len() && names_profile(#[trigger] done[k], profile@),
            (exists|k: int| 0 <= k < done.len() && #[trigger] done[k] == USER_DATA_DIR_FLAG@ + profile@)
                ==> found,
        decreases n - i,
    {
        let ghost prev = s.take(i as int);
        let ghost next = s.take(i + 1);
        assert(next.drop_last() =~= prev);
        assert(next.last() == s[i as int]);
        if chars[i] == '\0' {
            let here = field_names_profile(cmdline, &chars, &flag, start, i, profile);
            let ghost field = s.subrange(start as int, i as int);
            proof {
                let old_done = done;
                assert(next.last() == '\0');
                assert(split_fields(next, '\0') == split_fields(prev, '\0').push(Seq::empty()));
                done = done.push(field);
                assert(s.subrange(i + 1, i + 1) =~= Seq::<char>::empty());
                assert(split_fields(next, '\0') =~= done.push(s.subrange(i + 1, i + 1)));
                assert forall|k: int| 0 <= k < done.len() && names_profile(#[trigger] done[k], profile@)
                    implies (k < old_done.len() && names_profile(old_done[k], profile@)) || here by {
                    if k == old_done.len() {
                        assert(done[k] == field);
                    } else {
                        assert(done[k] == old_done[k]);
                    }
                }
                if here {
                    assert(done[old_done.len() as int] == field);
                }
                if found {
                    let k = choose|k: int| 0 <= k < old_done.len() && names_profile(#[trigger] old_done[k], profile@);
                    assert(done[k] == old_done[k]);
                }
                if exists|k: int| 0 <= k < done.len() && #[trigger] done[k] == USER_DATA_DIR_FLAG@ + profile@ {
                    let k = choose|k: int| 0 <= k < done.len() && #[trigger] done[k] == USER_DATA_DIR_FLAG@ + profile@;
                    if k < old_done.len() {
                        assert(old_done[k] == done[k]);
                    }
                }
            }
            found = found || here;
            start = i + 1;
        } else {
            proof {
                let fields = split_fields(prev, '\0');
                assert(fields.len() - 1 == done.len());
                assert(s.subrange(start as int, i + 1) =~= s.subrange(start as int, i as int).push(s[i as int]));
                assert(split_fields(next, '\0') =~= done.push(s.subrange(start as int, i + 1)));
            }
        }
        i = i + 1;
    }
    let last = field_names_profile(cmdline, &chars, &flag, start, n, profile);
    proof {
        assert(s.take(n as int) =~= s);
        let fields = split_fields(s, '\0');
        let field = s.subrange(start as int, n as int);
        assert(fields == done.push(field));
        if found && !last {
            let k = choose|k: int| 0 <= k < done.len() && names_profile(#[trigger] done[k], profile@);
            assert(fields[k] == done[k]);
        }
        if last {
            assert(fields[done.len() as int] == field);
        }
        if cmdline_names_exact_profile(s, profile@) {
            let k = choose|k: int| 0 <= k < fields.len() && #[trigger] fields[k] == USER_DATA_DIR_FLAG@ + profile@;
            if k < done.len() {
                assert(fields[k] == done[k]);
            }
        }
        if cmdline_owns(s, profile@) {
            let k = choose|k: int| 0 <= k < fields.len() && names_profile(#[trigger] fields[k], profile@);
            if k < done.len() {
                assert(fields[k] == done[k]);
            }
        }
    }
    found || last
}

/// The fields joined with `sep` between consecutive ones.
pub open spec fn join_fields(fields: Seq<Seq<char>>, sep: char) -> Seq<char>
    decreases fields.len(),
{
    if fields.len() == 0 {
        Seq::empty()
    } else if fields.len() == 1 {
        fields[0]
    } else {
        join_fields(fields.drop_last(), sep) + seq![sep] + fields.last()
    }
}

proof fn lemma_split_fields_nonempty(s: Seq<char>, sep: char)
    ensures
        split_fields(s, sep).len() >= 1,
    decreases s.len(),
{
    if s.len() > 0 {
        lemma_split_fields_nonempty(s.drop_last(), sep);
    }
}

proof fn lemma_split_fields_no_sep(m: Seq<char>, sep: char)
    requires
        !m.contains(sep),
    ensures
        split_fields(m, sep) == seq![m],
    decreases m.len(),
{
    if m.len() > 0 {
        let d = m.drop_last();
        assert(!d.contains(sep)) by {
            if d.contains(sep) {
                let i = choose|i: int| 0 <= i < d.len() && d[i] == sep;
                assert(m[i] == sep);
            }
        }
        lemma_split_fields_no_sep(d, sep);
        assert(m.last() != sep) by {
            assert(m[m.len() - 1] == m.last());
        }
        assert(d.push(m.last()) =~= m);
        assert(split_fields(m, sep) =~= seq![m]);
    } else {
        assert(m =~= Seq::<char>::empty());
    }
}

proof fn lemma_split_fields_concat(x: Seq<char>, y: Seq<char>, sep: char)
    ensures
        split_fields(x + seq![sep] + y, sep) == split_fields(x, sep) + split_fields(y, sep),
    decreases y.len(),
{
    let s = x + seq![sep] + y;
    if y.len() == 0 {
        assert(s.drop_last() =~= x);
        assert(split_fields(y, sep) =~= seq![Seq::<char>::empty()]);
        assert(split_fields(s, sep) =~= split_fields(x, sep) + split_fields(y, sep));
    } else {
        let yd = y.drop_last();
        assert(s.drop_last() =~= x + seq![sep] + yd);
        lemma_split_fields_concat(x, yd, sep);
        lemma_split_fields_nonempty(yd, sep);
        lemma_split_fields_nonempty(x, sep);
        let a = split_fields(x, sep);
        let b = split_fields(yd, sep);
        assert(s.last() == y.last());
        if y.last() == sep {
            assert(split_fields(s, sep) =~= a + b.push(Seq::empty()));
        } else {
            let ab = a + b;
            assert(ab.update(ab.len() - 1, ab.last().push(y.last())) =~= a + b.update(
                b.len() - 1,
                b.last().push(y.last()),
            ));
        }
    }
}

/// Splitting fields that hold no separator, joined with it, gives back the
/// fields: `str::split` undoes the join, whatever the number of fields.
pub proof fn split_fields_of_joined(fields: Seq<Seq<char>>, sep: char)
    requires
        fields.len() >= 1,
        forall|k: int| 0 <= k < fields.len() ==> !(#[trigger] fields[k]).contains(sep),
    ensures
        split_fields(join_fields(fields, sep), sep) == fields,
    decreases fields.len(),
{
    if fields.len() == 1 {
        lemma_split_fields_no_sep(fields[0], sep);
        assert(seq![fields[0]] =~= fields);
    } else {
        let init = fields.drop_last();
        assert forall|k: int| 0 <= k < init.len() implies !(#[trigger] init[k]).contains(sep) by {
            assert(init[k] == fields[k]);
        }
        split_fields_of_joined(init, sep);
        lemma_split_fields_concat(join_fields(init, sep), fields.last(), sep);
        assert(!fields[fields.len() - 1].contains(sep));
        lemma_split_fields_no_sep(fields.last(), sep);
        assert(init + seq![fields.last()] =~= fields);
    }
}

/// The fields hold no separator, and joining them with it gives back the text.
pub proof fn split_fields_join_back(s: Seq<char>, sep: char)
    ensures
        forall|k: int|
            0 <= k < split_fields(s, sep).len() ==> !(#[trigger] split_fields(s, sep)[k]).contains(
                sep,
            ),
        join_fields(split_fields(s, sep), sep) == s,
    decreases s.len(),
{
    if s.len() == 0 {
        assert(split_fields(s, sep) =~= seq![Seq::<char>::empty()]);
        assert(s =~= Seq::<char>::empty());
        assert forall|k: int| 0 <= k < split_fields(s, sep).len() implies !(
        #[trigger] split_fields(s, sep)[k]).contains(sep) by {
            assert(split_fields(s, sep)[k] =~= Seq::<char>::empty());
        }
    } else {
        let d = s.drop_last();
        let c = s.last();
        split_fields_join_back(d, sep);
        lemma_split_fields_nonempty(d, sep);
        let f = split_fields(d, sep);
        let n = f.len() as int;
        if c == sep {
            let g = f.push(Seq::empty());
            assert(g.drop_last() =~= f);
            assert(join_fields(g, sep) =~= s);
            assert forall|k: int| 0 <= k < g.len() implies !(#[trigger] g[k]).contains(sep) by {
                if k < n {
                    assert(g[k] == f[k]);
                } else {
                    assert(g[k] =~= Seq::<char>::empty());
                }
            }
        } else {
            let g = f.update(n - 1, f.last().push(c));
            assert forall|k: int| 0 <= k < g.len() implies !(#[trigger] g[k]).contains(sep) by {
                if k < n - 1 {
                    assert(g[k] == f[k]);
                } else {
                    assert(!f[n - 1].contains(sep));
                    if g[k].contains(sep) {
                        let i = choose|i: int| 0 <= i < g[k].len() && g[k][i] == sep;
                        if i < f[n - 1].len() {
                            assert(f[n - 1][i] == sep);
                        }
                    }
                }
            }
            if n == 1 {
                assert(join_fields(f, sep) == f[0]);
                assert(join_fields(g, sep) =~= s);
            } else {
                assert(g.drop_last() =~= f.drop_last());
                assert(g.last() == f.last().push(c));
                assert(join_fields(f, sep) == join_fields(f.drop_last(), sep) + seq![sep] + f.last());
                assert(join_fields(g, sep) == join_fields(f.drop_last(), sep) + seq![sep] + g.last());
                assert(s =~= d.push(c));
                assert(join_fields(g, sep) =~= s);
            }
        }
    }
}

/// A command line made of NUL-free arguments runs on `profile` exactly when
/// one of its arguments, at whatever position, is `--user-data-dir=<dir>`
/// with `<dir>` naming `profile`.
pub proof fn cmdline_owns_by_arguments(args: Seq<Seq<char>>, profile: Seq<char>)
    requires
        args.len() >= 1,
        forall|k: int| 0 <= k < args.len() ==> !(#[trigger] args[k]).contains('\0'),
    ensures
        cmdline_owns(join_fields(args, '\0'), profile) <==> exists|k: int|
            0 <= k < args.len() && names_profile(#[trigger] args[k], profile),
{
    split_fields_of_joined(args, '\0');
}

/// A command line made of NUL-free arguments, one of which (at whatever
/// position) is exactly `--user-data-dir=<profile>`, owns `profile`, so
/// `cmdline_owns_profile` answers true on it.
pub proof fn cmdline_with_profile_argument_owns(args: Seq<Seq<char>>, k: int, profile: Seq<char>)
    requires
        0 <= k < args.len(),
        forall|j: int| 0 <= j < args.len() ==> !(#[trigger] args[j]).contains('\0'),
        args[k] == USER_DATA_DIR_FLAG@ + profile,
    ensures
        cmdline_names_exact_profile(join_fields(args, '\0'), profile),
{
    split_fields_of_joined(args, '\0');
    assert(split_fields(join_fields(args, '\0'), '\0')[k] == USER_DATA_DIR_FLAG@ + profile);
}

} // verus!
