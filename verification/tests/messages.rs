use radiant::error::ErrorCode;
use radiant::messages::{render_message, validate_message, MessageBundle};

fn bundle() -> MessageBundle {
    MessageBundle::builder("msg")
        .default_locale("en")
        .message("en", "hello", "Hello {0} — use {{braces}}")
        .message("fr", "hello", "Bonjour {0} — utilisez {{accolades}}")
        .message("en", "bye", "Bye")
        .build()
        .unwrap()
}

#[test]
fn localized_messages_follow_render_locale_with_fallback() {
    let messages = bundle();
    let rendered = messages
        .render(Some("fr-CA"), "hello", &["Mina".to_string()])
        .unwrap();
    assert_eq!(rendered.as_deref(), Some("Bonjour Mina — utilisez {accolades}"));
}

#[test]
fn lookups_try_the_locale_its_language_then_the_default() {
    let messages = bundle();
    assert_eq!(messages.namespace(), "msg");
    assert_eq!(messages.message_for(Some("fr"), "hello").as_deref(), Some("Bonjour {0} — utilisez {{accolades}}"));
    assert_eq!(messages.message_for(Some("fr_BE"), "hello").as_deref(), Some("Bonjour {0} — utilisez {{accolades}}"));
    assert_eq!(messages.message_for(Some("fr-CA"), "bye").as_deref(), Some("Bye"));
    assert_eq!(messages.message_for(None, "hello").as_deref(), Some("Hello {0} — use {{braces}}"));
    assert!(messages.message_for(Some("de"), "missing").is_none());
    assert_eq!(messages.render(Some("de"), "missing", &[]).unwrap(), None);
}

#[test]
fn placeholders_are_checked_when_a_bundle_is_built() {
    assert!(validate_message("a {0} b {{ c }}").is_ok());
    assert_eq!(
        validate_message("a } b"),
        Err("unmatched closing brace; use `}}` for a literal brace")
    );
    assert!(validate_message("a {0").is_err());
    assert!(validate_message("a {name}").is_err());
    let e = MessageBundle::builder("msg")
        .message("en", "bad", "{x}")
        .build()
        .err()
        .unwrap();
    assert_eq!(e.code, ErrorCode::Extension);
    let e = MessageBundle::builder("").build().err().unwrap();
    assert_eq!(e.code, ErrorCode::Extension);
    assert_eq!(e.message, "message namespace and default locale must not be empty");
}

#[test]
fn rendering_fails_only_on_missing_arguments_once_checked() {
    assert_eq!(render_message("{{{0}}}", &["x".to_string()]).unwrap(), "{x}");
    let e = render_message("{1}", &["x".to_string()]).unwrap_err();
    assert_eq!(e.code, ErrorCode::Extension);
    assert_eq!(e.message, "message argument 1 is missing");
    assert_eq!(render_message("{", &[]).unwrap_err().message, "unclosed message placeholder");
    assert_eq!(render_message("{a}", &[]).unwrap_err().message, "invalid message placeholder");
}

#[test]
fn a_builder_holding_valid_messages_builds_with_the_default_locale_en() {
    let bundle = MessageBundle::builder("msg").message("en", "hi", "Hello").build().unwrap();
    assert_eq!(bundle.namespace(), "msg");
    assert_eq!(bundle.message_for(None, "hi").as_deref(), Some("Hello"));
    assert_eq!(bundle.message_for(Some("de"), "hi").as_deref(), Some("Hello"));
    let replaced = MessageBundle::builder("msg")
        .message("en", "hi", "{x}")
        .message("en", "hi", "Hello")
        .build();
    assert!(replaced.is_ok());
}
