//! Choosing the translation to use for the user's language: the exact locale
//! when it is supported, else its language code when some supported locale
//! shares it (`en_GB` falls back to `en`).
use vstd::prelude::*;
use vstd::string::*;
use crate::text::{chars_of, find_chars, first_occurrence, lemma_first_occurrence, string_views};

verus! {

broadcast use vstd::string::group_string_axioms;

/// The locale of the running application and the one it falls back to.
pub struct Locale {
    pub current: String,
    pub default: String,
}

/// The locale every translation falls back to.
pub const DEFAULT_LOCALE: &'static str = "en";

impl Locale {
    /// The locale `current`, falling back to the default locale.
    pub fn new(current: String) -> (r: Locale)
        ensures
            r.current@ == current@,
            r.default@ == DEFAULT_LOCALE@,
    {
        Locale { current, default: String::from_str(DEFAULT_LOCALE) }
    }
}

/// The language code of a locale: the text before its first `_`, or all of it.
pub open spec fn language_stem(locale: Seq<char>) -> Seq<char> {
    match first_occurrence(locale, seq!['_']) {
        Some(i) => locale.take(i),
        None => locale,
    }
}

/// The locale to use for `language` among `supported`: `language` itself when
/// supported, else its language code when some supported locale has the same
/// language code, else nothing (the empty string).
pub open spec fn chosen_locale(language: Seq<char>, supported: Seq<Seq<char>>) -> Seq<char> {
    if exists|k: int| 0 <= k < supported.len() && #[trigger] supported[k] == language {
        language
    } else if exists|k: int|
        0 <= k < supported.len() && language_stem(#[trigger] supported[k]) == language_stem(
            language,
        ) {
        language_stem(language)
    } else {
        Seq::empty()
    }
}

/// The language code of `locale`.
pub fn locale_stem(locale: &str) -> (r: String)
    ensures
        r@ == language_stem(locale@),
{
    let chars = chars_of(locale);
    let underscore = vec!['_'];
    assert(underscore@ =~= seq!['_']);
    match find_chars(&chars, &underscore) {
        Some(i) => {
            proof {
                lemma_first_occurrence(chars@, underscore@);
            }
            String::from_str(locale.substring_char(0, i))
        },
        None => String::from_str(locale),
    }
}

/// Create the fallback for `language` among the `supported` locales (e.g.
/// `en_GB` -> `en` when `en_GB` does not exist); empty when none fits.
pub fn select_locale(language: &str, supported: &Vec<String>) -> (r: String)
    ensures
        r@ == chosen_locale(language@, string_views(supported@)),
{
    let ghost all = string_views(supported@);
    let wanted = String::from_str(language);
    let wanted_stem = locale_stem(language);
    let mut locale = String::new();
    let n = supported.len();
    let mut i: usize = 0;
    while i < n
        invariant
            n == supported@.len(),
            i <= n,
            all == string_views(supported@),
            wanted@ == language@,
            wanted_stem@ == language_stem(language@),
            forall|k: int| 0 <= k < i ==> #[trigger] all[k] != language@,
            locale@ == (if exists|k: int|
                0 <= k < i && language_stem(#[trigger] all[k]) == language_stem(language@) {
                language_stem(language@)
            } else {
                Seq::<char>::empty()
            }),
        decreases n - i,
    {
        let lang = &supported[i];
        assert(all[i as int] == lang@);
        if *lang == wanted {
            assert(0 <= i < all.len() && all[i as int] == language@);
            return lang.clone();
        }
        let lang_stem = locale_stem(lang.as_str());
        if lang_stem == wanted_stem {
            locale = lang_stem;
        }
        proof {
            if exists|k: int|
                0 <= k < i + 1 && language_stem(#[trigger] all[k]) == language_stem(language@) {
                if language_stem(all[i as int]) != language_stem(language@) {
                    let k = choose|k: int|
                        0 <= k < i + 1 && language_stem(#[trigger] all[k]) == language_stem(
                            language@,
                        );
                    assert(k < i);
                }
            } else {
                assert(language_stem(all[i as int]) != language_stem(language@));
            }
        }
        i = i + 1;
    }
    assert(all.len() == n);
    locale
}

/// The language code of a locale is the text before its first `_`: a prefix
/// of the locale holding no `_`, followed in the locale by `_` unless it is
/// the whole locale.
pub proof fn language_stem_is_text_before_underscore(locale: Seq<char>)
    ensures
        language_stem(locale).is_prefix_of(locale),
        !language_stem(locale).contains('_'),
        language_stem(locale).len() < locale.len() ==> locale[language_stem(locale).len() as int]
            == '_',
{
    lemma_first_occurrence(locale, seq!['_']);
    let stem = language_stem(locale);
    match first_occurrence(locale, seq!['_']) {
        Some(i) => {
            assert(locale.subrange(i, i + 1)[0] == locale[i]);
            assert(stem.is_prefix_of(locale)) by {
                assert(stem =~= locale.subrange(0, stem.len() as int));
            }
            if stem.contains('_') {
                let j = choose|j: int| 0 <= j < stem.len() && stem[j] == '_';
                assert(locale.subrange(j, j + 1) =~= seq!['_']);
                assert(crate::text::occurs_at(locale, seq!['_'], j));
            }
        },
        None => {
            assert(stem.is_prefix_of(locale)) by {
                assert(stem =~= locale.subrange(0, stem.len() as int));
            }
            if stem.contains('_') {
                let j = choose|j: int| 0 <= j < stem.len() && stem[j] == '_';
                assert(locale.subrange(j, j + 1) =~= seq!['_']);
                assert(crate::text::occurs_at(locale, seq!['_'], j));
            }
        },
    }
}

/// A supported language is used as it is.
pub proof fn supported_language_is_chosen(language: Seq<char>, supported: Seq<Seq<char>>)
    requires
        supported.contains(language),
    ensures
        chosen_locale(language, supported) == language,
{
}

/// A language that is not supported falls back to its language code whenever
/// some supported locale, a bare language code included, has that same
/// language code (`en_US` gets `en` when `en` or `en_GB` is supported).
pub proof fn unsupported_language_falls_back_to_its_code(
    language: Seq<char>,
    supported: Seq<Seq<char>>,
    k: int,
)
    requires
        !supported.contains(language),
        0 <= k < supported.len(),
        language_stem(supported[k]) == language_stem(language),
    ensures
        chosen_locale(language, supported) == language_stem(language),
{
    if exists|j: int| 0 <= j < supported.len() && #[trigger] supported[j] == language {
        let j = choose|j: int| 0 <= j < supported.len() && #[trigger] supported[j] == language;
        assert(supported.contains(language));
    }
}

/// A language whose language code no supported locale shares gets nothing.
pub proof fn unrelated_language_gets_nothing(language: Seq<char>, supported: Seq<Seq<char>>)
    requires
        forall|k: int| 0 <= k < supported.len() ==> language_stem(#[trigger] supported[k]) != language_stem(language),
    ensures
        chosen_locale(language, supported) == Seq::<char>::empty(),
{
    if exists|j: int| 0 <= j < supported.len() && #[trigger] supported[j] == language {
        let j = choose|j: int| 0 <= j < supported.len() && #[trigger] supported[j] == language;
        assert(language_stem(supported[j]) == language_stem(language));
    }
}

} // verus!
