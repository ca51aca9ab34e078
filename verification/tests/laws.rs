//! Concrete cases of the properties the library proves, and of the edge cases it handles.

use negotiator::{
    preferred_charsets, preferred_encodings, preferred_languages, preferred_media_types, Negotiator,
};

#[test]
fn chosen_options_are_acceptable_provided_options() {
    let got = preferred_charsets(
        Some("utf-8;q=0.5, iso-8859-1;q=0, ascii"),
        Some(&["latin1", "UTF-8", "iso-8859-1", "ascii"]),
    );
    assert_eq!(got, ["ascii", "UTF-8"]);
}

#[test]
fn chosen_options_come_in_preference_order() {
    let got = preferred_languages(
        Some("fr;q=0.2, de;q=0.9, en"),
        Some(&["fr", "de", "en"]),
    );
    assert_eq!(got, ["en", "de", "fr"]);
}

#[test]
fn absent_header_accepts_every_charset() {
    assert_eq!(
        preferred_charsets(None, Some(&["a", "b", "c"])),
        ["a", "b", "c"]
    );
}

#[test]
fn absent_header_accepts_every_language_tag() {
    assert_eq!(
        preferred_languages(None, Some(&["en", "de-AT", "-x"])),
        ["en", "de-AT"]
    );
}

#[test]
fn absent_header_accepts_every_media_type() {
    assert_eq!(
        preferred_media_types(None, Some(&["text/html", "nonsense", "image/png"])),
        ["text/html", "image/png"]
    );
}

#[test]
fn empty_header_lists_nothing() {
    assert!(preferred_media_types(Some(""), None).is_empty());
    assert!(preferred_charsets(Some(""), None).is_empty());
    assert!(preferred_languages(Some(""), None).is_empty());
    assert!(preferred_languages(Some(""), Some(&["en"])).is_empty());
}

#[test]
fn missing_encoding_header_leaves_identity() {
    assert_eq!(preferred_encodings(None, None, None), ["identity"]);
    assert_eq!(preferred_encodings(Some(""), None, None), ["identity"]);
    assert_eq!(
        preferred_encodings(None, Some(&["gzip", "IDENTITY", "br"]), None),
        ["IDENTITY"]
    );
}

#[test]
fn identity_always_considered() {
    assert_eq!(
        preferred_encodings(Some("gzip"), None, None),
        ["gzip", "identity"]
    );
    // An explicit identity entry replaces the implicit one.
    assert_eq!(
        preferred_encodings(Some("gzip, identity;q=0.5"), None, None),
        ["gzip", "identity"]
    );
    // So does `*`.
    assert_eq!(preferred_encodings(Some("*;q=0.5"), None, None), ["*"]);
    // An explicit identity;q=0 refuses identity.
    assert!(preferred_encodings(Some("identity;q=0"), Some(&["identity"]), None).is_empty());
}

#[test]
fn implicit_identity_takes_least_quality() {
    assert_eq!(
        preferred_encodings(Some("gzip;q=0.5, br;q=0.8"), None, None),
        ["br", "gzip", "identity"]
    );
    // 0 and unparsable qualities count as 1 for the implicit identity.
    assert_eq!(
        preferred_encodings(Some("gzip;q=0, br;q=x"), Some(&["identity", "gzip", "br"]), None),
        ["identity"]
    );
}

#[test]
fn preferred_list_orders_listed_encodings() {
    assert_eq!(
        preferred_encodings(Some("gzip, br"), None, Some(&["br"])),
        ["br", "gzip", "identity"]
    );
    assert_eq!(
        preferred_encodings(
            Some("gzip;q=0.8, br, deflate"),
            Some(&["gzip", "deflate", "br"]),
            Some(&["gzip", "deflate"])
        ),
        ["deflate", "br", "gzip"]
    );
}

#[test]
fn quality_values_compare_numerically() {
    assert_eq!(
        preferred_charsets(Some("a;q=1e-1, b;q=0.2, c;q=.15, d;q=5.e-2"), None),
        ["b", "c", "a", "d"]
    );
    assert_eq!(
        preferred_charsets(Some("a;q=0.5, b;q=Infinity, c;q=+0.7"), None),
        ["b", "c", "a"]
    );
}

#[test]
fn quality_values_read_a_leading_number() {
    // "0.5x" reads 0.5; "1e" reads 1 (the exponent is not well-formed); "1e+" too.
    assert_eq!(
        preferred_charsets(Some("a;q=0.5x, b;q=1e, c;q=0.7, d;q=1e+"), None),
        ["b", "d", "c", "a"]
    );
}

#[test]
fn unacceptable_qualities_are_dropped() {
    assert_eq!(
        preferred_charsets(Some("a;q=-1, b;q=abc, c;q=0, d;q=-0, e;q, f"), None),
        ["f"]
    );
}

#[test]
fn charset_first_q_wins_language_last_q_wins() {
    assert_eq!(
        preferred_charsets(Some("a;q=0.1;q=0.9, b;q=0.5"), None),
        ["b", "a"]
    );
    assert_eq!(
        preferred_languages(Some("fr;q=0.1;q=0.9, de;q=0.5"), None),
        ["fr", "de"]
    );
}

#[test]
fn media_parameters_must_match() {
    assert_eq!(
        preferred_media_types(
            Some("text/html;level=1"),
            Some(&["text/html", "text/html;level=1", "text/html;LEVEL=1"])
        ),
        ["text/html;level=1", "text/html;LEVEL=1"]
    );
    assert_eq!(
        preferred_media_types(Some("text/html;level=*"), Some(&["text/html;level=2"])),
        ["text/html;level=2"]
    );
}

#[test]
fn media_more_specific_wins() {
    assert_eq!(
        preferred_media_types(
            Some("text/*;q=0.3, text/html;q=0.7, text/html;level=1, */*;q=0.5"),
            Some(&["image/jpeg", "text/html", "text/plain", "text/html;level=1"])
        ),
        ["text/html;level=1", "text/html", "image/jpeg", "text/plain"]
    );
}

#[test]
fn quoted_commas_stay_inside_a_media_range() {
    assert_eq!(
        preferred_media_types(Some("text/html;foo=\"a,b\", text/plain;q=0.5"), None),
        ["text/html", "text/plain"]
    );
    assert_eq!(
        preferred_media_types(Some("text/html;q=\"0.4\", text/plain;q=0.5"), None),
        ["text/plain", "text/html"]
    );
}

#[test]
fn matching_ignores_ascii_case_and_keeps_provided_spelling() {
    assert_eq!(
        preferred_media_types(Some("TEXT/HTML"), Some(&["text/html"])),
        ["text/html"]
    );
    assert_eq!(
        preferred_languages(Some("EN-us"), Some(&["en-US"])),
        ["en-US"]
    );
}

#[test]
fn language_prefix_rules() {
    // The entry's prefix names the option.
    assert_eq!(preferred_languages(Some("en-US"), Some(&["en"])), ["en"]);
    // Another region does not match.
    assert!(preferred_languages(Some("en-US"), Some(&["en-GB"])).is_empty());
    // A full tag beats a prefix match.
    assert_eq!(
        preferred_languages(Some("en, en-GB"), Some(&["en-GB"])),
        ["en-GB"]
    );
}

#[test]
fn javascript_whitespace_is_trimmed() {
    assert_eq!(
        preferred_charsets(Some("\u{00A0}utf-8\u{3000};q=0.5 ,\tascii"), None),
        ["ascii", "utf-8"]
    );
}

#[test]
fn malformed_entries_are_skipped() {
    assert_eq!(preferred_media_types(Some("text, /html, text/, */*"), None), ["*/*"]);
    assert_eq!(preferred_languages(Some("en-, -US, fr x, de"), None), ["de"]);
    assert_eq!(preferred_charsets(Some(";q=1, utf-8 x, ascii"), None), ["ascii"]);
}

#[test]
fn negotiator_picks_the_first_choice() {
    let n = Negotiator::new()
        .accept("text/html, application/json;q=0.9, */*;q=0.1")
        .accept_language("en-US, fr;q=0.8")
        .accept_encoding("gzip, br;q=0.9")
        .accept_charset("utf-8");
    assert_eq!(
        n.media_type(Some(&["application/json", "text/html"])).as_deref(),
        Some("text/html")
    );
    assert_eq!(n.language(Some(&["fr", "en"])).as_deref(), Some("en"));
    assert_eq!(n.encoding(Some(&["gzip", "br"]), None).as_deref(), Some("gzip"));
    assert_eq!(n.charset(Some(&["latin1"])), None);
    assert_eq!(n.media_types(None), ["text/html", "application/json", "*/*"]);
    assert_eq!(n.encodings(None, None), ["gzip", "br", "identity"]);
    assert_eq!(n.languages(None), ["en-US", "fr"]);
    assert_eq!(n.charsets(None), ["utf-8"]);
    let d = Negotiator::default();
    assert_eq!(d, Negotiator::new());
}

#[test]
fn free_functions_with_and_without_a_list() {
    assert_eq!(
        preferred_languages(Some("en-US, en;q=0.9, fr;q=0.8"), Some(&["en", "fr"])),
        ["en", "fr"]
    );
}

#[test]
fn line_terminator_in_parameters_skips_the_entry() {
    let none: [&str; 0] = [];
    assert_eq!(preferred_languages(Some("en;a\nb"), Some(&["en"])), none);
    assert_eq!(preferred_charsets(Some("utf-8;a\nb"), Some(&["utf-8"])), none);
    assert_eq!(preferred_media_types(Some("text/html;a\rb"), Some(&["text/html"])), none);
    assert_eq!(preferred_encodings(Some("gzip;a\u{2028}b"), Some(&["gzip"]), None), none);
    assert_eq!(preferred_languages(Some("en-US;q=1\u{2029}"), Some(&["en-US"])), ["en-US"]);
    assert_eq!(preferred_languages(Some("fr;x\ny, en;q=0.5"), None), ["en"]);
}

#[test]
fn line_terminators_around_an_entry_are_trimmed() {
    assert_eq!(preferred_charsets(Some("\nutf-8;q=0.5\r\n, ascii"), None), ["ascii", "utf-8"]);
}

#[test]
fn removing_an_option_keeps_the_others_in_order() {
    let header = Some("text/html, application/json;q=0.9, text/plain;q=0.5");
    assert_eq!(
        preferred_media_types(header, Some(&["text/plain", "application/json", "text/html"])),
        ["text/html", "application/json", "text/plain"]
    );
    assert_eq!(
        preferred_media_types(header, Some(&["text/plain", "text/html"])),
        ["text/html", "text/plain"]
    );
    assert_eq!(
        preferred_charsets(Some("utf-8;q=0"), Some(&["utf-8", "ascii"])),
        preferred_charsets(Some("utf-8;q=0"), Some(&["ascii"]))
    );
}

#[test]
fn preferred_list_only_reorders_ties() {
    let mut with =
        preferred_encodings(Some("gzip, br, deflate;q=0.5"), None, Some(&["deflate", "br"]));
    let without = preferred_encodings(Some("gzip, br, deflate;q=0.5"), None, None);
    assert_eq!(with, ["br", "gzip", "deflate", "identity"]);
    assert_eq!(without, ["gzip", "br", "deflate", "identity"]);
    with.sort();
    let mut sorted = without.clone();
    sorted.sort();
    assert_eq!(with, sorted);
    assert_eq!(
        preferred_encodings(Some("gzip, br"), Some(&["br", "gzip"]), Some(&[])),
        preferred_encodings(Some("gzip, br"), Some(&["br", "gzip"]), None)
    );
}

#[test]
fn quality_values_round_to_doubles() {
    let none: [&str; 0] = [];
    assert_eq!(preferred_media_types(Some("a/b;q=1e-400"), None), none);
    assert_eq!(preferred_charsets(Some("a;q=1e-400"), Some(&["a"])), none);
    assert_eq!(preferred_languages(Some("en;q=1e-400"), Some(&["en"])), none);
    assert_eq!(
        preferred_charsets(Some("a;q=0.1, b;q=0.10000000000000000001"), None),
        ["a", "b"]
    );
    assert_eq!(preferred_charsets(Some("a;q=1e400, b;q=Infinity"), None), ["a", "b"]);
    assert_eq!(
        preferred_charsets(Some("a;q=1.7976931348623159e308, b;q=Infinity"), None),
        ["a", "b"]
    );
    assert_eq!(
        preferred_charsets(Some("a;q=1.7976931348623157e308, b;q=Infinity"), None),
        ["b", "a"]
    );
    assert_eq!(
        preferred_charsets(Some("a;q=9007199254740993, b;q=9007199254740992"), None),
        ["a", "b"]
    );
    assert_eq!(
        preferred_charsets(Some("a;q=9007199254740995, b;q=9007199254740994"), None),
        ["a", "b"]
    );
}

#[test]
fn smallest_qualities_round_to_zero_or_the_least_double() {
    assert_eq!(preferred_charsets(Some("a;q=2e-324, b;q=3e-324, c;q=5e-324"), None), ["b", "c"]);
    assert_eq!(preferred_charsets(Some("a;q=4e-324, b;q=1e-323"), None), ["b", "a"]);
}

#[test]
fn encoding_quality_that_rounds_to_zero_counts_as_one_for_identity() {
    assert_eq!(preferred_encodings(Some("gzip;q=1e-400"), None, None), ["identity"]);
    assert_eq!(
        preferred_encodings(Some("gzip;q=1e-400, br;q=0.5"), None, None),
        ["br", "identity"]
    );
}
