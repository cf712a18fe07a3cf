use radiant::error::ErrorCode;
use radiant::escape::{html, json, write_escaped, RenderValue, SafeHtml, SafeJsonString};
use radiant::media::MediaType;
use radiant::paths::{normalize_id, template_candidates};

fn rendered<T: RenderValue + ?Sized>(value: &T, media_type: MediaType) -> String {
    let mut out = String::new();
    value.render_value(media_type, &mut out);
    out
}

#[test]
fn html_escaping_leaves_no_markup() {
    let mut out = String::from("x");
    html("<a href=\"q\">Tom & Jerry's</a>", &mut out);
    assert_eq!(out, "x&lt;a href=&quot;q&quot;&gt;Tom &amp; Jerry&#x27;s&lt;/a&gt;");
    assert!(!out[1..].contains('<') && !out.contains('>') && !out.contains('"') && !out.contains('\''));
}

#[test]
fn json_escaping_stays_inside_the_string() {
    let mut out = String::new();
    json("say \"hi\"\\\n\t\r\u{1}", &mut out);
    assert_eq!(out, "say \\\"hi\\\"\\\\\\n\\t\\r\\u0001");
}

#[test]
fn each_media_type_escapes_its_own_way() {
    let mut out = String::new();
    write_escaped("<&>", MediaType::Xml, &mut out);
    write_escaped("<&>", MediaType::Text, &mut out);
    write_escaped("\"", MediaType::Json, &mut out);
    assert_eq!(out, "&lt;&amp;&gt;<&>\\\"");
}

#[test]
fn safe_wrappers_are_verbatim_only_in_their_own_media_type() {
    let markup = SafeHtml::new("<b>x</b>");
    assert_eq!(rendered(&markup, MediaType::Html), "<b>x</b>");
    assert_eq!(rendered(&markup, MediaType::Xml), "&lt;b&gt;x&lt;/b&gt;");
    let body = SafeJsonString::new("a\\\"b");
    assert_eq!(rendered(&body, MediaType::Json), "a\\\"b");
    assert_eq!(rendered(&true, MediaType::Html), "true");
    assert_eq!(rendered(&-42i64, MediaType::Json), "-42");
    assert_eq!(rendered("<", MediaType::Html), "&lt;");
}

#[test]
fn template_suffixes_select_media_types() {
    assert_eq!(MediaType::from_template_id("page.html"), MediaType::Html);
    assert_eq!(MediaType::from_template_id("page.htm"), MediaType::Html);
    assert_eq!(MediaType::from_template_id("feed.xml"), MediaType::Xml);
    assert_eq!(MediaType::from_template_id("data.json"), MediaType::Json);
    assert_eq!(MediaType::from_template_id("notes.txt"), MediaType::Text);
    assert_eq!(MediaType::from_template_id("page"), MediaType::Text);
    assert_eq!(MediaType::Json.content_type(), "application/json; charset=utf-8");
    assert_eq!(MediaType::Xml.suffix(), ".xml");
}

#[test]
fn template_ids_are_normalized_below_the_root() {
    assert_eq!(normalize_id("./pages//a.html").unwrap(), "pages/a.html");
    let e = normalize_id("../secret").unwrap_err();
    assert_eq!(e.code, ErrorCode::MissingTemplate);
    assert_eq!(e.message, "invalid template ID `../secret`");
    assert!(normalize_id("/etc/passwd").is_err());
    assert!(normalize_id("").is_err());
}

#[test]
fn variants_are_tried_most_specific_first() {
    assert_eq!(
        template_candidates("page", Some(MediaType::Html), Some("fr-CA")).unwrap(),
        vec!["page.fr-CA.html", "page.fr.html", "page.html"]
    );
    assert_eq!(
        template_candidates("page.txt", Some(MediaType::Html), Some("fr")).unwrap(),
        vec!["page.txt"]
    );
    assert!(template_candidates("../x", None, None).is_err());
}
