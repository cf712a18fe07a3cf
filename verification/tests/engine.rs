use radiant::compiler::{analyze, parse, BinaryOp, Node, Section, Template};
use radiant::engine::eval::{
    binary_exact, elvis_takes_right, logical_shortcut, missing_argument, negate_exact, not_callable,
    resolve_builtin, resolve_index, unresolved_argument, unresolved_operand, unresolved_output,
    write_value,
};
use radiant::engine::loading::{
    already_registered, embedded_conflict, embedding, reload_failure, Embedding, FileLoader, RenderOptions,
};
use radiant::engine::nesting::{
    include_step, IncludeStep,
    check_policy, depth_exceeded, find_fragment, include_too_deep, output_over_limit, fragment_request, include_key, include_target,
    is_isolated, missing_fragment, namespace_denied, output_exceeded, recursive_include,
    include_request, split_first_dollar, split_last_dollar, IncludeTarget,
};
use radiant::engine::plan::{
    binding_arguments, else_block, fragment_visibility, if_step, insert_name, insert_source, tag_bindings, InsertSource, tag_scope, IfStep,
    Visibility, loop_alias, loop_source,
    override_block, section_kind, when_arms, SectionKind, WhenArm,
};
use radiant::engine::scope::{loop_items, loop_scope, RenderState};
use radiant::engine::settings::EngineSettings;
use radiant::engine::value::{map_get, map_insert, Entry, Float, Resolution, Value};
use radiant::error::ErrorCode;
use radiant::media::MediaType;

fn text(s: &str) -> Value {
    Value::String(s.to_string())
}

fn dict(pairs: Vec<(&str, Value)>) -> Value {
    let mut entries: Vec<Entry> = Vec::new();
    for (k, v) in pairs {
        map_insert(&mut entries, k.to_string(), v);
    }
    Value::Dict(entries)
}

fn float(v: f64) -> Value {
    Value::Float(Float { bits: v.to_bits(), text: v.to_string() })
}

fn names(v: &Value) -> Vec<String> {
    match v {
        Value::Dict(es) => es.iter().map(|e| e.name.clone()).collect(),
        _ => panic!("expected a map"),
    }
}

fn integer(r: Resolution<Value>) -> Option<i64> {
    match r {
        Resolution::Value(Value::Integer(i)) => Some(i),
        _ => None,
    }
}

fn string(r: Resolution<Value>) -> Option<String> {
    match r {
        Resolution::Value(Value::String(s)) => Some(s),
        _ => None,
    }
}

fn template(source: &str) -> Template {
    parse("t", source).expect("template should parse")
}

fn analyzed_section(source: &str) -> Section {
    for node in analyze("t", source).template.nodes {
        if let Node::Section(s) = node {
            return s;
        }
    }
    panic!("no section");
}

fn first_section(source: &str) -> Section {
    let t = template(source);
    for node in t.nodes {
        if let Node::Section(s) = node {
            return s;
        }
    }
    panic!("no section");
}

#[test]
fn truthiness_follows_zero_and_emptiness() {
    assert!(!Value::Null.is_truthy());
    assert!(!Value::Integer(0).is_truthy());
    assert!(Value::Integer(-3).is_truthy());
    assert!(!float(0.0).is_truthy());
    assert!(!float(-0.0).is_truthy());
    assert!(float(f64::NAN).is_truthy());
    assert!(float(0.5).is_truthy());
    assert!(!text("").is_truthy());
    assert!(text("x").is_truthy());
    assert!(!Value::Sequence(Vec::new()).is_truthy());
    assert!(!dict(vec![]).is_truthy());
    assert!(dict(vec![("a", Value::Null)]).is_truthy());
}

#[test]
fn kind_names_and_plain_text() {
    assert_eq!(Value::SafeJsonString(String::new()).kind_name(), "safe JSON string");
    assert_eq!(float(1.5).kind_name(), "float");
    assert_eq!(Value::Integer(-42).plain_text(), "-42");
    assert_eq!(Value::Bool(true).plain_text(), "true");
    assert_eq!(float(2.5).plain_text(), "2.5");
    assert_eq!(Value::Sequence(vec![]).plain_text(), "[sequence]");
    assert_eq!(dict(vec![]).plain_text(), "[map]");
    assert_eq!(Value::Null.plain_text(), "");
}

#[test]
fn map_insert_keeps_names_sorted_and_replaces_in_place() {
    let mut es: Vec<Entry> = Vec::new();
    map_insert(&mut es, "b".into(), Value::Integer(1));
    map_insert(&mut es, "a".into(), Value::Integer(2));
    map_insert(&mut es, "c".into(), Value::Integer(3));
    map_insert(&mut es, "b".into(), Value::Integer(4));
    let v = Value::Dict(es);
    assert_eq!(names(&v), vec!["a", "b", "c"]);
    if let Value::Dict(es) = &v {
        assert!(matches!(map_get(es, "b"), Some(Value::Integer(4))));
        assert!(matches!(map_get(es, "a"), Some(Value::Integer(2))));
        assert!(map_get(es, "z").is_none());
    }
}

#[test]
fn index_reads_maps_by_name_and_sequences_by_position() {
    let seq = Value::Sequence(vec![text("a"), text("b")]);
    assert_eq!(string(resolve_index(&seq, &Value::Integer(1))), Some("b".into()));
    assert!(matches!(resolve_index(&seq, &Value::Integer(2)), Resolution::NotFound));
    assert!(matches!(resolve_index(&seq, &Value::Integer(-1)), Resolution::NotFound));
    let m = dict(vec![("k", Value::Integer(7))]);
    assert_eq!(integer(resolve_index(&m, &text("k"))), Some(7));
    assert!(matches!(resolve_index(&m, &Value::Integer(0)), Resolution::NotFound));
}

#[test]
fn builtin_members_of_sequences_strings_and_maps() {
    let seq = Value::Sequence(vec![Value::Integer(5), Value::Integer(6), Value::Integer(7)]);
    assert_eq!(integer(resolve_builtin(&seq, "size", &[])), Some(3));
    assert_eq!(integer(resolve_builtin(&seq, "last", &[])), Some(7));
    assert_eq!(integer(resolve_builtin(&seq, "get", &[Value::Integer(1)])), Some(6));
    assert!(matches!(resolve_builtin(&seq, "get", &[text("1")]), Resolution::NotFound));
    assert!(matches!(resolve_builtin(&seq, "isEmpty", &[]), Resolution::Value(Value::Bool(false))));
    let s = text("héllo");
    assert_eq!(integer(resolve_builtin(&s, "length", &[])), Some(5));
    assert_eq!(string(resolve_builtin(&s, "toUpperCase", &[])), Some("HÉLLO".into()));
    assert_eq!(string(resolve_builtin(&text("ABC"), "lower", &[])), Some("abc".into()));
    // A map answers every member name with its entry of that name.
    let m = dict(vec![("name", text("x"))]);
    assert_eq!(string(resolve_builtin(&m, "name", &[])), Some("x".into()));
    assert!(matches!(resolve_builtin(&m, "size", &[]), Resolution::NotFound));
    assert!(matches!(resolve_builtin(&m, "name", &[Value::Null]), Resolution::NotFound));
}

#[test]
fn integer_operators_are_checked() {
    let r = binary_exact(BinaryOp::Add, &Value::Integer(2), &Value::Integer(3));
    assert!(matches!(r, Some(Ok(Value::Integer(5)))));
    match binary_exact(BinaryOp::Add, &Value::Integer(i64::MAX), &Value::Integer(1)) {
        Some(Err(e)) => {
            assert_eq!(e.code, ErrorCode::Arithmetic);
            assert_eq!(e.message, "integer overflow");
        }
        _ => panic!("expected overflow"),
    }
    match binary_exact(BinaryOp::Divide, &Value::Integer(1), &Value::Integer(0)) {
        Some(Err(e)) => assert_eq!(e.message, "invalid integer arithmetic (overflow or division by zero)"),
        _ => panic!("expected division error"),
    }
    assert!(matches!(
        binary_exact(BinaryOp::Remainder, &Value::Integer(-7), &Value::Integer(2)),
        Some(Ok(Value::Integer(-1)))
    ));
    assert!(matches!(
        binary_exact(BinaryOp::Divide, &Value::Integer(-7), &Value::Integer(2)),
        Some(Ok(Value::Integer(-3)))
    ));
}

#[test]
fn strings_concatenate_and_compare_and_other_pairs_are_type_errors() {
    match binary_exact(BinaryOp::Add, &text("n="), &Value::Integer(4)) {
        Some(Ok(Value::String(s))) => assert_eq!(s, "n=4"),
        _ => panic!("expected concatenation"),
    }
    assert!(matches!(
        binary_exact(BinaryOp::Less, &text("apple"), &text("banana")),
        Some(Ok(Value::Bool(true)))
    ));
    assert!(matches!(
        binary_exact(BinaryOp::GreaterEqual, &text("b"), &text("b")),
        Some(Ok(Value::Bool(true)))
    ));
    match binary_exact(BinaryOp::Less, &text("a"), &Value::Integer(1)) {
        Some(Err(e)) => {
            assert_eq!(e.code, ErrorCode::Type);
            assert_eq!(e.message, "cannot compare string and integer");
        }
        _ => panic!("expected a type error"),
    }
    match binary_exact(BinaryOp::Multiply, &Value::Bool(true), &Value::Null) {
        Some(Err(e)) => assert_eq!(e.message, "cannot perform arithmetic on boolean and null"),
        _ => panic!("expected a type error"),
    }
    match binary_exact(BinaryOp::Add, &Value::Null, &Value::Bool(false)) {
        Some(Err(e)) => assert_eq!(e.message, "cannot add null and boolean"),
        _ => panic!("expected a type error"),
    }
}

#[test]
fn floating_point_work_is_left_to_the_caller() {
    assert!(binary_exact(BinaryOp::Add, &float(1.5), &Value::Integer(1)).is_none());
    assert!(binary_exact(BinaryOp::Equal, &Value::Integer(1), &Value::Integer(1)).is_none());
    assert!(binary_exact(BinaryOp::Less, &Value::Integer(1), &float(2.0)).is_none());
    assert!(binary_exact(BinaryOp::Equal, &Value::Sequence(vec![float(1.0)]), &Value::Null).is_none());
    assert!(negate_exact(&float(1.0)).is_none());
    assert!(matches!(
        binary_exact(BinaryOp::Equal, &text("a"), &text("a")),
        Some(Ok(Value::Bool(true)))
    ));
    assert!(matches!(
        binary_exact(BinaryOp::NotEqual, &Value::Sequence(vec![Value::Integer(1)]), &Value::Sequence(vec![Value::Integer(1)])),
        Some(Ok(Value::Bool(false)))
    ));
    assert!(matches!(negate_exact(&Value::Integer(4)), Some(Ok(Value::Integer(-4)))));
    match negate_exact(&Value::Integer(i64::MIN)) {
        Some(Err(e)) => assert_eq!(e.message, "integer overflow"),
        _ => panic!("expected overflow"),
    }
    match negate_exact(&text("x")) {
        Some(Err(e)) => assert_eq!(e.message, "cannot negate string"),
        _ => panic!("expected a type error"),
    }
}

#[test]
fn values_are_written_escaped_for_the_media_type() {
    let mut out = String::new();
    write_value(&text("<b>&</b>"), MediaType::Html, &mut out).unwrap();
    assert_eq!(out, "&lt;b&gt;&amp;&lt;/b&gt;");
    let mut out = String::new();
    write_value(&Value::SafeHtml("<i>ok</i>".into()), MediaType::Html, &mut out).unwrap();
    write_value(&Value::SafeHtml("<i>".into()), MediaType::Text, &mut out).unwrap();
    assert_eq!(out, "<i>ok</i><i>");
    let mut out = String::new();
    write_value(&text("a\"b"), MediaType::Json, &mut out).unwrap();
    assert_eq!(out, "a\\\"b");
    let mut out = String::from("x");
    let e = write_value(&Value::Sequence(vec![]), MediaType::Text, &mut out).unwrap_err();
    assert_eq!(e.message, "cannot render sequence directly");
    assert_eq!(out, "x");
}

#[test]
fn names_resolve_from_the_innermost_scope() {
    let mut state = RenderState::new(dict(vec![("name", text("root"))]), "page".into(), MediaType::Text, None);
    state.push_scope(dict(vec![("name", text("inner")), ("other", Value::Integer(1))]));
    assert_eq!(string(state.lookup("name")), Some("inner".into()));
    assert_eq!(string(state.lookup_root("name")), Some("root".into()));
    assert!(matches!(state.lookup("this"), Resolution::Value(Value::Dict(_))));
    assert!(matches!(state.lookup("missing"), Resolution::NotFound));
    state.pop_scope();
    assert_eq!(string(state.lookup("name")), Some("root".into()));
    assert!(matches!(state.lookup("other"), Resolution::NotFound));
}

#[test]
fn loops_iterate_sequences_map_entries_and_null() {
    let items = loop_items(dict(vec![("b", Value::Integer(2)), ("a", Value::Integer(1))])).unwrap();
    assert_eq!(items.len(), 2);
    assert_eq!(names(&items[0]), vec!["key", "value"]);
    if let Value::Dict(es) = &items[0] {
        assert!(matches!(map_get(es, "key"), Some(Value::String(ref s)) if s == "a"));
    }
    assert!(loop_items(Value::Null).unwrap().is_empty());
    let counted = loop_items(Value::Integer(3)).unwrap();
    assert!(matches!(counted.as_slice(), [Value::Integer(1), Value::Integer(2), Value::Integer(3)]));
    let e = loop_items(Value::Integer(0)).unwrap_err();
    assert_eq!(e.code, ErrorCode::Type);
    assert_eq!(e.message, "cannot iterate over integer");
    assert!(loop_items(Value::Bool(true)).is_err());
}

#[test]
fn loop_scopes_expose_position_metadata() {
    let scope = loop_scope("item", text("x"), 1, 3);
    assert_eq!(
        names(&scope),
        vec!["item", "item_count", "item_hasNext", "item_index", "item_isFirst", "item_isLast", "item_odd"]
    );
    if let Value::Dict(es) = &scope {
        assert!(matches!(map_get(es, "item_index"), Some(Value::Integer(1))));
        assert!(matches!(map_get(es, "item_count"), Some(Value::Integer(2))));
        assert!(matches!(map_get(es, "item_odd"), Some(Value::Bool(true))));
        assert!(matches!(map_get(es, "item_hasNext"), Some(Value::Bool(true))));
        assert!(matches!(map_get(es, "item_isFirst"), Some(Value::Bool(false))));
    }
}

#[test]
fn sections_choose_their_blocks() {
    assert_eq!(section_kind("each"), SectionKind::Loop);
    assert_eq!(section_kind("switch"), SectionKind::Switch);
    assert_eq!(section_kind("card"), SectionKind::Tag);
    let s = first_section("{#if a}yes{#else}no{/if}");
    assert_eq!(if_step(&s, &vec![]), IfStep::TestSection);
    assert_eq!(if_step(&s, &vec![true]), IfStep::Render(0));
    assert_eq!(if_step(&s, &vec![false]), IfStep::Render(1));
    assert_eq!(else_block(&s), Some(1));
    let s = first_section("{#if a}yes{/if}");
    assert_eq!(if_step(&s, &vec![false]), IfStep::Nothing);
    assert_eq!(else_block(&s), None);
    let s = first_section("{#when v}{#is 1}one{#is 2}two{#else}other{/when}");
    assert_eq!(when_arms(&s), vec![WhenArm::Case(1), WhenArm::Case(2), WhenArm::Otherwise(3)]);
}

#[test]
fn fragments_hide_and_overrides_pick_the_last_block() {
    assert_eq!(fragment_visibility(&first_section("{#fragment f _hidden=true}x{/fragment}")), Visibility::Hidden);
    assert_eq!(fragment_visibility(&first_section("{#fragment f _hidden}x{/fragment}")), Visibility::Hidden);
    assert_eq!(fragment_visibility(&first_section("{#fragment f rendered=false}x{/fragment}")), Visibility::When(1));
    assert_eq!(fragment_visibility(&first_section("{#fragment f rendered=show}x{/fragment}")), Visibility::When(1));
    assert_eq!(fragment_visibility(&first_section("{#fragment f}x{/fragment}")), Visibility::Shown);
    let s = first_section("{#include base}body{#title}A{/title}{#footer}B{/footer}{/include}");
    assert_eq!(override_block(&s, "title"), Some(1));
    assert_eq!(override_block(&s, "footer"), Some(2));
    assert_eq!(override_block(&s, ""), Some(0));
    assert_eq!(override_block(&s, "header"), None);
    let s = first_section("{#include base /}");
    assert_eq!(override_block(&s, ""), None);
    assert_eq!(insert_name(&first_section("{#insert header}d{/insert}")), "header");
    assert_eq!(insert_name(&first_section("{#insert}d{/insert}")), "");
}

#[test]
fn inserts_render_the_including_override_else_their_default() {
    let including = first_section("{#include base}body{#title}A{/title}{/include}");
    let titled = first_section("{#insert title}default{/insert}");
    let footer = first_section("{#insert footer}default{/insert}");
    let empty = first_section("{#insert footer /}");
    assert_eq!(insert_source(Some(&including), &titled), InsertSource::Supplied(1));
    assert_eq!(insert_source(Some(&including), &footer), InsertSource::Default);
    assert_eq!(insert_source(None, &titled), InsertSource::Default);
    assert_eq!(insert_source(Some(&including), &empty), InsertSource::Nothing);
}

#[test]
fn loops_name_their_items_and_sources() {
    let s = first_section("{#for item in items}{item}{/for}");
    assert_eq!(loop_alias(&s), "item");
    assert_eq!(loop_source(&s), Some(1));
    let s = first_section("{#each items alias=row}{row}{/each}");
    assert_eq!(loop_alias(&s), "row");
    assert_eq!(loop_source(&s), Some(0));
    let s = first_section("{#let a=1 _b=2 c=3}{/let}");
    assert_eq!(binding_arguments(&s.arguments, false), vec![0, 1, 2]);
    assert_eq!(binding_arguments(&s.arguments, true), vec![0, 2]);
}

#[test]
fn include_targets_keys_and_isolation() {
    let s = first_section("{#include 'pages/home' /}");
    assert!(matches!(include_target(&s, false), Ok(IncludeTarget::Named(ref t)) if t == "pages/home"));
    let s = first_section("{#include base _id=chosen /}");
    assert!(matches!(include_target(&s, false), Ok(IncludeTarget::Dynamic(1))));
    let s = first_section("{#card x /}");
    assert!(matches!(include_target(&s, true), Ok(IncludeTarget::Named(ref t)) if t == "tags/card"));
    assert!(is_isolated(&s, true));
    let s = first_section("{#include base _isolated=true /}");
    assert!(is_isolated(&s, false));
    let s = first_section("{#include base _isolated=false /}");
    assert!(!is_isolated(&s, false));
    let s = first_section("{#include a=1 /}");
    assert!(matches!(include_target(&s, false), Ok(IncludeTarget::Named(ref t)) if t == "a=1"));
    let s = analyzed_section("{#include /}");
    let e = include_target(&s, false).unwrap_err();
    assert_eq!(e.message, "include requires a template ID");
    assert_eq!(include_key("parts.html", "card"), "parts.html$card");
}

#[test]
fn template_ids_split_at_dollar_signs() {
    assert_eq!(split_first_dollar("a$b$c"), ("a".to_string(), Some("b$c".to_string())));
    assert_eq!(split_last_dollar("a$b$c"), ("a$b".to_string(), Some("c".to_string())));
    assert_eq!(split_first_dollar("plain"), ("plain".to_string(), None));
    assert_eq!(split_last_dollar("x$"), ("x".to_string(), Some(String::new())));
}

#[test]
fn recursive_includes_report_the_stack() {
    let stack = vec!["page".to_string(), "part".to_string()];
    assert!(recursive_include(&stack, "other", false).is_none());
    let e = recursive_include(&stack, "page", false).unwrap();
    assert_eq!(e.code, ErrorCode::IncludeCycle);
    assert_eq!(e.message, "recursive include of `page`");
    assert_eq!(e.render_stack, vec!["page", "part", "page"]);
    let e = recursive_include(&vec!["p$f".to_string()], "p$f", true).unwrap();
    assert_eq!(e.message, "recursive include of fragment `p$f`");
    assert_eq!(depth_exceeded().message, "maximum include depth exceeded");
}

#[test]
fn fragments_are_found_by_name() {
    let t = template("a{#fragment card}<b>{text}</b>{/fragment}{#capture note}n{/capture}");
    assert_eq!(find_fragment(&t, "card").map(|s| s.name.as_str()), Some("fragment"));
    assert_eq!(find_fragment(&t, "note").map(|s| s.name.as_str()), Some("capture"));
    assert!(find_fragment(&t, "absent").is_none());
    let e = missing_fragment("absent", "parts.html");
    assert_eq!(e.code, ErrorCode::MissingTemplate);
    assert_eq!(e.message, "fragment `absent` not found in `parts.html`");
    assert_eq!(fragment_request("page", "card_1").unwrap(), "page$card_1");
    let e = fragment_request("page", "bad-name").unwrap_err();
    assert_eq!(e.message, "invalid fragment name `bad-name`");
    assert!(fragment_request("page", "").is_err());
}

#[test]
fn policies_refuse_sections_and_namespaces_outside_the_allow_lists() {
    let settings = EngineSettings::default();
    assert!(settings.strict);
    assert_eq!(settings.max_include_depth, 64);
    assert_eq!(settings.max_output_bytes, 8 * 1024 * 1024);
    let restricted = EngineSettings::default().restricted();
    assert_eq!(restricted.max_include_depth, 0);
    let t = template("{#if a}{#let b=1}{#include secret /}{/let}{/if}");
    assert!(check_policy(&t, &None).is_ok());
    let e = check_policy(&t, &restricted.allowed_sections).unwrap_err();
    assert_eq!(e.code, ErrorCode::UnknownSection);
    assert_eq!(e.message, "section `include` is not allowed by this engine");
    let widened = EngineSettings::default().restricted().allow_section("include");
    assert!(check_policy(&t, &widened.allowed_sections).is_ok());
    assert!(namespace_denied(&restricted.allowed_namespaces, "data").is_none());
    let e = namespace_denied(&restricted.allowed_namespaces, "msg").unwrap();
    assert_eq!(e.code, ErrorCode::Extension);
    assert_eq!(e.message, "namespace `msg` is not allowed");
    assert_eq!(output_exceeded(1024).message, "rendered output exceeded 1024 bytes");
}

#[test]
fn file_loaders_stay_under_their_root() {
    let loader = FileLoader::new("templates");
    assert_eq!(loader.path_of("pages/a.html"), Some("templates/pages/a.html".to_string()));
    assert_eq!(loader.path_of("../secret"), None);
    assert_eq!(loader.path_of("/etc/passwd"), None);
    assert_eq!(FileLoader::new("root/").path_of("x"), Some("root/x".to_string()));
    let options = RenderOptions::default();
    assert!(options.media_type.is_none() && options.language.is_none());
}

#[test]
fn safe_lookups_defaults_and_logical_shortcuts() {
    let missing = || Err(radiant::error::RenderError::new(ErrorCode::MissingValue, "m".to_string()));
    let typed = || Err(radiant::error::RenderError::new(ErrorCode::Type, "t".to_string()));
    assert!(elvis_takes_right(&Ok(Resolution::NotFound)));
    assert!(elvis_takes_right(&Ok(Resolution::Value(Value::Null))));
    assert!(elvis_takes_right(&missing()));
    assert!(!elvis_takes_right(&typed()));
    assert!(!elvis_takes_right(&Ok(Resolution::Value(Value::Bool(false)))));
    assert!(!elvis_takes_right(&Ok(Resolution::Value(text("")))));
    assert_eq!(logical_shortcut(BinaryOp::And, &Value::Integer(0)), Some(false));
    assert_eq!(logical_shortcut(BinaryOp::And, &Value::Integer(1)), None);
    assert_eq!(logical_shortcut(BinaryOp::Or, &text("x")), Some(true));
    assert_eq!(logical_shortcut(BinaryOp::Or, &Value::Null), None);
}

#[test]
fn limits_apply_only_once_reached() {
    assert!(include_too_deep(63, 64).is_none());
    let e = include_too_deep(64, 64).unwrap();
    assert_eq!(e.code, ErrorCode::IncludeCycle);
    assert_eq!(e.message, "maximum include depth exceeded");
    assert!(output_over_limit(1024, 1024).is_none());
    let e = output_over_limit(1025, 1024).unwrap();
    assert_eq!(e.code, ErrorCode::OutputLimit);
    assert_eq!(e.message, "rendered output exceeded 1024 bytes");
}

#[test]
fn missing_values_fail_in_strict_mode_only() {
    let e = unresolved_output(true).unwrap();
    assert_eq!(e.code, ErrorCode::MissingValue);
    assert_eq!(e.message, "expression could not be resolved");
    assert!(unresolved_output(false).is_none());
    let e = unresolved_argument(true).unwrap_err();
    assert_eq!(e.message, "section argument could not be resolved");
    assert!(matches!(unresolved_argument(false), Ok(Value::Null)));
    assert_eq!(missing_argument().code, ErrorCode::Type);
    assert_eq!(missing_argument().message, "section argument is missing");
    assert_eq!(unresolved_operand().code, ErrorCode::MissingValue);
    assert_eq!(unresolved_operand().message, "expression operand could not be resolved");
    assert_eq!(not_callable().message, "only namespace and member functions can be called");
}

#[test]
fn embedded_sources_are_added_kept_or_refused() {
    assert_eq!(embedding(None, "a"), Embedding::Add);
    assert_eq!(embedding(Some("a"), "a"), Embedding::Keep);
    assert_eq!(embedding(Some("a"), "b"), Embedding::Conflict);
    let e = embedded_conflict("page.html");
    assert_eq!(e.code, ErrorCode::DuplicateTemplate);
    assert_eq!(e.message, "template `page.html` is embedded with conflicting sources");
    let e = already_registered("page.html");
    assert_eq!(e.code, ErrorCode::DuplicateTemplate);
    assert_eq!(e.message, "template `page.html` is already registered");
    let e = reload_failure("page.html", "disk".to_string());
    assert_eq!(e.code, ErrorCode::Loader);
    assert_eq!(e.message, "could not reload template `page.html`");
    assert_eq!(e.source.as_deref(), Some("disk"));
}

#[test]
fn else_if_blocks_select_the_first_truthy_condition() {
    let s = first_section("{#if first}first{#else if second}second{#else if third}third{#else}last{/if}");
    assert_eq!(if_step(&s, &vec![]), IfStep::TestSection);
    assert_eq!(if_step(&s, &vec![false]), IfStep::TestBlock(1, 0));
    assert_eq!(if_step(&s, &vec![false, false]), IfStep::TestBlock(2, 0));
    assert_eq!(if_step(&s, &vec![false, false, true]), IfStep::Render(2));
    assert_eq!(if_step(&s, &vec![false, true]), IfStep::Render(1));
    assert_eq!(if_step(&s, &vec![false, false, false]), IfStep::Render(3));
    assert_eq!(if_step(&s, &vec![true]), IfStep::Render(0));
}

#[test]
fn user_tags_bind_positional_and_named_arguments() {
    let s = first_section("{#item item label='detail' /}");
    let (bindings, first) = tag_bindings(&s.arguments);
    let names: Vec<(&str, usize)> = bindings.iter().map(|b| (b.name.as_str(), b.position)).collect();
    assert_eq!(names, vec![("item", 0), ("label", 1)]);
    assert_eq!(first, Some(0));
    let mut entries: Vec<Entry> = Vec::new();
    map_insert(&mut entries, "item".to_string(), text("chair"));
    map_insert(&mut entries, "label".to_string(), text("detail"));
    let scope = tag_scope(entries, Some(text("chair")));
    let Value::Dict(es) = scope else { panic!("expected a map") };
    assert!(matches!(map_get(&es, "it"), Some(Value::String(v)) if v == "chair"));
    assert!(matches!(map_get(&es, "item"), Some(Value::String(v)) if v == "chair"));
    assert!(matches!(map_get(&es, "label"), Some(Value::String(v)) if v == "detail"));
    let Some(Value::Dict(args)) = map_get(&es, "_args") else { panic!("expected _args") };
    assert_eq!(args.len(), 2);
    assert!(matches!(map_get(&args, "item"), Some(Value::String(v)) if v == "chair"));
    assert!(matches!(map_get(&args, "label"), Some(Value::String(v)) if v == "detail"));
}

#[test]
fn fragment_includes_name_the_current_template_when_none_precedes_the_dollar() {
    assert_eq!(include_request("$card", "page.html"), ("page.html".to_string(), Some("card".to_string())));
    assert_eq!(include_request("parts$card", "page.html"), ("parts".to_string(), Some("card".to_string())));
    assert_eq!(include_request("parts", "page.html"), ("parts".to_string(), None));
}

#[test]
fn includes_restore_scopes_and_stacks() {
    let mut state = RenderState::new(Value::Dict(Vec::new()), "page".to_string(), MediaType::Html, None);
    let scopes = state.scopes.len();
    let saved = state.enter_include(Value::Null, "part".to_string(), true);
    assert_eq!(state.scopes.len(), 1);
    assert_eq!(state.include_stack, vec!["page", "part"]);
    let e = radiant::error::RenderError::new(ErrorCode::Type, "x".to_string());
    let r = state.leave_include(saved, Err(e), false);
    assert_eq!(state.scopes.len(), scopes);
    assert_eq!(state.include_stack, vec!["page"]);
    assert_eq!(r.unwrap_err().render_stack, vec!["page"]);
    let saved = state.enter_include(Value::Null, "p$f".to_string(), false);
    assert_eq!(state.scopes.len(), scopes + 1);
    let e = radiant::error::RenderError::new(ErrorCode::Type, "x".to_string());
    let r = state.leave_include(saved, Err(e), true);
    assert!(r.unwrap_err().render_stack.is_empty());
    assert_eq!(state.scopes.len(), scopes);
}

#[test]
fn resolvers_are_asked_by_priority_then_registration() {
    use_priority_order();
}

fn use_priority_order() {
    assert_eq!(radiant::engine::settings::priority_order(&vec![0, 5, 0, 7, 5]), vec![3, 1, 4, 0, 2]);
    assert!(radiant::engine::settings::priority_order(&vec![]).is_empty());
}

fn strings(items: &[&str]) -> Vec<String> {
    items.iter().map(|s| s.to_string()).collect()
}

#[test]
fn includes_check_depth_then_target_then_resolution_then_cycles() {
    let s = first_section("{#include base /}");
    let deep = include_step(&strings(&["a"]), 1, &s, false, "page.html", None, None);
    assert!(matches!(deep, IncludeStep::Fail(e) if e.code == ErrorCode::IncludeCycle));
    let step = include_step(&strings(&[]), 4, &s, false, "page.html", None, None);
    assert!(matches!(step, IncludeStep::Resolve(id) if id == "base"));
    let step = include_step(&strings(&["page.html"]), 4, &s, false, "page.html", None, Some("base.html"));
    assert!(matches!(step, IncludeStep::Enter { key, fragment: None, isolated: false } if key == "base.html"));
    let step = include_step(&strings(&["base.html"]), 4, &s, false, "page.html", None, Some("base.html"));
    assert!(matches!(step, IncludeStep::Fail(e) if e.code == ErrorCode::IncludeCycle && e.render_stack == strings(&["base.html", "base.html"])));
}

#[test]
fn include_steps_for_fragments_dynamic_targets_and_tags() {
    let s = first_section("{#include $frag /}");
    let step = include_step(&strings(&["page.html"]), 4, &s, false, "page.html", None, None);
    assert!(matches!(step, IncludeStep::Resolve(id) if id == "page.html"));
    let step = include_step(&strings(&["page.html"]), 4, &s, false, "page.html", None, Some("page.html"));
    assert!(matches!(step, IncludeStep::Enter { key, fragment: Some(f), isolated: false } if key == "page.html$frag" && f == "frag"));
    let s = first_section("{#include base _id=name /}");
    assert!(matches!(include_step(&strings(&[]), 4, &s, false, "p", None, None), IncludeStep::EvaluateTarget(1)));
    let step = include_step(&strings(&[]), 4, &s, false, "p", Some("other"), None);
    assert!(matches!(step, IncludeStep::Resolve(id) if id == "other"));
    let s = first_section("{#item item label='detail' /}");
    let step = include_step(&strings(&[]), 4, &s, true, "page.html", None, None);
    assert!(matches!(step, IncludeStep::Resolve(id) if id == "tags/item"));
    let step = include_step(&strings(&[]), 4, &s, true, "page.html", None, Some("tags/item.html"));
    assert!(matches!(step, IncludeStep::Enter { isolated: true, .. }));
}
