use web_app_hub::locale::{locale_stem, select_locale, Locale};

fn strings(items: &[&str]) -> Vec<String> {
    items.iter().map(|s| s.to_string()).collect()
}

#[test]
fn exact_locale_is_preferred() {
    assert_eq!(select_locale("en_GB", &strings(&["en", "en_GB", "nl"])), "en_GB");
}

#[test]
fn language_code_is_the_fallback() {
    assert_eq!(select_locale("en_US", &strings(&["nl", "en_GB", "en"])), "en");
    assert_eq!(select_locale("nl_BE", &strings(&["nl_NL"])), "nl");
}

#[test]
fn unsupported_language_selects_nothing() {
    assert_eq!(select_locale("fr_FR", &strings(&["en", "nl"])), "");
    assert_eq!(select_locale("fr", &strings(&[])), "");
}

#[test]
fn stem_is_text_before_first_underscore() {
    assert_eq!(locale_stem("sr_RS_latin"), "sr");
    assert_eq!(locale_stem("de"), "de");
    assert_eq!(locale_stem("_x"), "");
}

#[test]
fn locale_defaults_to_english() {
    let locale = Locale::new("nl".to_string());
    assert_eq!(locale.current, "nl");
    assert_eq!(locale.default, "en");
}
