use radiant::error::ErrorCode;
use radiant::media::{accept_choice, names_a_language, AcceptChoice, MediaType};
use radiant::paths::not_acceptable;

#[test]
fn accept_ranges_name_template_media_types() {
    assert_eq!(accept_choice("text/html"), AcceptChoice::Media(MediaType::Html));
    assert_eq!(accept_choice("application/xhtml+xml"), AcceptChoice::Media(MediaType::Html));
    assert_eq!(accept_choice("application/json"), AcceptChoice::Media(MediaType::Json));
    assert_eq!(accept_choice("text/xml"), AcceptChoice::Media(MediaType::Xml));
    assert_eq!(accept_choice("application/xml"), AcceptChoice::Media(MediaType::Xml));
    assert_eq!(accept_choice("text/plain"), AcceptChoice::Media(MediaType::Text));
    assert_eq!(accept_choice("*/*"), AcceptChoice::Wildcard);
    assert_eq!(accept_choice("text/*"), AcceptChoice::Wildcard);
    assert_eq!(accept_choice("image/png"), AcceptChoice::Unsupported);
}

#[test]
fn language_ranges_must_name_a_language() {
    assert!(names_a_language("fr-CA"));
    assert!(!names_a_language("*"));
    assert!(!names_a_language(""));
}

#[test]
fn unsupported_accept_headers_are_not_acceptable() {
    let e = not_acceptable();
    assert_eq!(e.code, ErrorCode::NotAcceptable);
    assert_eq!(e.message, "the Accept header has no supported media type");
}
