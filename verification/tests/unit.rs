use negotiator::{
    preferred_charsets, preferred_encodings, preferred_languages, preferred_media_types, Negotiator,
};

#[test]
fn media_type_basic() {
    assert_eq!(
        preferred_media_types(Some("text/html, application/json;q=0.9"), None),
        vec!["text/html", "application/json"]
    );
    assert_eq!(
        preferred_media_types(
            Some("text/*;q=0.5, text/html"),
            Some(&["text/html", "text/plain"])
        ),
        vec!["text/html", "text/plain"]
    );
}

#[test]
fn media_type_wildcards_and_quality() {
    // q ordering: html (1) over json (0.9) over anything (0.1)
    let n = preferred_media_types(
        Some("*/*;q=0.1, application/json;q=0.9, text/html"),
        Some(&["image/png", "application/json", "text/html"]),
    );
    assert_eq!(n, vec!["text/html", "application/json", "image/png"]);
}

#[test]
fn charset_default_is_star() {
    assert_eq!(
        preferred_charsets(None, Some(&["utf-8", "iso-8859-1"])),
        vec!["utf-8", "iso-8859-1"]
    );
    assert_eq!(
        preferred_charsets(
            Some("utf-8;q=0, iso-8859-1"),
            Some(&["utf-8", "iso-8859-1"])
        ),
        vec!["iso-8859-1"]
    );
}

#[test]
fn encoding_injects_identity() {
    // identity is implicitly acceptable when absent from the header.
    assert_eq!(
        preferred_encodings(Some("gzip"), Some(&["identity", "gzip"]), None),
        vec!["gzip", "identity"]
    );
    // gzip not offered, only identity remains acceptable.
    assert_eq!(
        preferred_encodings(Some("gzip"), Some(&["identity"]), None),
        vec!["identity"]
    );
}

#[test]
fn encoding_preferred_order_breaks_ties() {
    // gzip and br both q=1; `preferred` puts br first.
    assert_eq!(
        preferred_encodings(
            Some("gzip, br"),
            Some(&["gzip", "br"]),
            Some(&["br", "gzip"])
        ),
        vec!["br", "gzip"]
    );
}

#[test]
fn language_prefix_matching() {
    assert_eq!(
        preferred_languages(Some("en-US, en;q=0.8"), Some(&["en", "en-US", "fr"])),
        vec!["en-US", "en"]
    );
    // a prefix request `en` matches a specific `en-US` offering
    assert_eq!(
        preferred_languages(Some("en"), Some(&["en-US"])),
        vec!["en-US"]
    );
}

#[test]
fn negotiator_struct() {
    let n = Negotiator::new().accept("text/html").accept_language("fr");
    assert_eq!(
        n.media_type(Some(&["text/html", "text/plain"])).as_deref(),
        Some("text/html")
    );
    assert_eq!(n.language(Some(&["en", "fr"])).as_deref(), Some("fr"));
    assert_eq!(n.charset(Some(&["utf-8"])).as_deref(), Some("utf-8")); // no header → *
}

#[test]
fn empty_header_accepts_nothing() {
    assert!(preferred_media_types(Some(""), Some(&["text/html"])).is_empty());
    assert!(preferred_charsets(Some(""), Some(&["utf-8"])).is_empty());
}
