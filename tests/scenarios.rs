use json_sieve::event::{Config, JsonTokenOwned, ParseError, TokenSource};
use json_sieve::source::VecSource;
use json_sieve::state::{parse, parse_document, State};
use json_sieve::value::{insert_field, JsonValue};

use JsonTokenOwned::{EndArray, EndObject, JsNull, StartArray, StartObject};

fn key(k: &str) -> JsonTokenOwned {
    JsonTokenOwned::JsKey(k.to_string())
}

fn text(s: &str) -> JsonTokenOwned {
    JsonTokenOwned::JsString(s.to_string())
}

fn num(s: &str) -> JsonTokenOwned {
    JsonTokenOwned::JsNumber(s.to_string())
}

fn state_over(events: Vec<JsonTokenOwned>) -> State<VecSource> {
    State::new(VecSource::new(events), Config::new())
}

fn run_document(events: Vec<JsonTokenOwned>) -> (Result<JsonValue, ParseError>, u64, u64) {
    let mut st = state_over(events);
    let r = parse_document(&mut st);
    (r, st.events(), st.matches())
}

/// Parses one value with the given retention, after pulling its first event.
fn run_value(events: Vec<JsonTokenOwned>, store: bool) -> (Result<JsonValue, ParseError>, State<VecSource>) {
    let mut st = state_over(events);
    st.next_token().unwrap();
    let r = parse(&mut st, store, 64);
    (r, st)
}

fn s(v: &str) -> JsonValue {
    JsonValue::String(v.to_string())
}

fn obj(fields: Vec<(&str, JsonValue)>) -> JsonValue {
    JsonValue::Object(fields.into_iter().map(|(k, v)| (k.to_string(), v)).collect())
}

fn empty_obj() -> JsonValue {
    JsonValue::Object(Vec::new())
}

#[test]
fn cpt_under_in_network_counts_one_match() {
    let evs = vec![
        StartObject, key("in_network"), StartArray, StartObject, key("billing_code_type"),
        text("CPT"), key("rate"), num("1"), EndObject, EndArray, EndObject,
    ];
    let (r, events, matches) = run_document(evs);
    assert_eq!(r, Ok(empty_obj()));
    assert_eq!(matches, 1);
    assert_eq!(events, 11);
}

#[test]
fn retained_array_keeps_object_with_both_fields() {
    let evs = vec![
        StartArray, StartObject, key("billing_code_type"), text("CPT"), key("rate"), num("1"),
        EndObject, EndArray,
    ];
    let (r, st) = run_value(evs, true);
    let expected = JsonValue::Array(vec![obj(vec![
        ("billing_code_type", s("CPT")),
        ("rate", JsonValue::Number("1".to_string())),
    ])]);
    assert_eq!(r, Ok(expected));
    assert_eq!(st.matches(), 1);
    assert_eq!(st.token(), &JsonTokenOwned::JsEof);
}

#[test]
fn hcpcs_is_retained_but_not_a_match() {
    let evs = vec![
        StartObject, key("in_network"), StartArray, StartObject, key("billing_code_type"),
        text("HCPCS"), key("rate"), num("1"), EndObject, EndArray, EndObject,
    ];
    let (r, _, matches) = run_document(evs);
    assert_eq!(r, Ok(empty_obj()));
    assert_eq!(matches, 0);
    let inner = vec![
        StartArray, StartObject, key("billing_code_type"), text("HCPCS"), key("rate"), num("1"),
        EndObject, EndArray,
    ];
    let (r, st) = run_value(inner, true);
    let expected = JsonValue::Array(vec![obj(vec![
        ("billing_code_type", s("HCPCS")),
        ("rate", JsonValue::Number("1".to_string())),
    ])]);
    assert_eq!(r, Ok(expected));
    assert_eq!(st.matches(), 0);
}

#[test]
fn predicate_fires_without_retention() {
    let evs = vec![
        StartObject, key("other"), StartObject, key("billing_code_type"), text("CPT"), EndObject,
        EndObject,
    ];
    let (r, _, matches) = run_document(evs);
    assert_eq!(r, Ok(empty_obj()));
    assert_eq!(matches, 1);
}

#[test]
fn empty_document_object() {
    let (r, events, matches) = run_document(vec![StartObject, EndObject]);
    assert_eq!(r, Ok(empty_obj()));
    assert_eq!(matches, 0);
    assert_eq!(events, 2);
}

#[test]
fn nested_arrays_keep_retention() {
    let evs = vec![
        StartObject, key("in_network"), StartArray, StartArray, StartObject,
        key("billing_code_type"), text("CPT"), EndObject, EndArray, EndArray, EndObject,
    ];
    let (r, _, matches) = run_document(evs);
    assert_eq!(r, Ok(empty_obj()));
    assert_eq!(matches, 1);
    let inner = vec![
        StartObject, key("in_network"), StartArray, StartArray, StartObject,
        key("billing_code_type"), text("CPT"), EndObject, EndArray, EndArray, EndObject,
    ];
    let (r, _) = run_value(inner, true);
    let expected = obj(vec![(
        "in_network",
        JsonValue::Array(vec![JsonValue::Array(vec![obj(vec![("billing_code_type", s("CPT"))])])]),
    )]);
    assert_eq!(r, Ok(expected));
}

#[test]
fn unterminated_object_is_fatal() {
    let evs = vec![StartObject, key("in_network"), StartArray, StartObject, key("billing_code_type"), text("CPT")];
    let (r, _, _) = run_document(evs);
    assert_eq!(r, Err(ParseError::Protocol));
}

#[test]
fn value_where_key_expected_is_fatal() {
    let (r, _, _) = run_document(vec![StartObject, text("x"), EndObject]);
    assert_eq!(r, Err(ParseError::Protocol));
}

#[test]
fn closing_event_where_value_expected_is_fatal() {
    let (r, _) = run_value(vec![EndArray], false);
    assert_eq!(r, Err(ParseError::Protocol));
    let (r, _, _) = run_document(vec![StartArray, EndObject]);
    assert_eq!(r, Err(ParseError::Protocol));
}

#[test]
fn trailing_event_after_root_is_fatal() {
    let (r, _, _) = run_document(vec![JsNull, JsNull]);
    assert_eq!(r, Err(ParseError::Protocol));
}

#[test]
fn scalar_root_document() {
    let (r, events, _) = run_document(vec![num("-12.5e3")]);
    assert_eq!(r, Ok(JsonValue::Number("-12.5e3".to_string())));
    assert_eq!(events, 1);
}

struct Failing {
    left: Vec<JsonTokenOwned>,
}

impl TokenSource for Failing {
    fn next_event(&mut self) -> Result<JsonTokenOwned, String> {
        if self.left.is_empty() {
            Err("unexpected byte".to_string())
        } else {
            Ok(self.left.remove(0))
        }
    }

    fn report_progress(&mut self, _events: u64, _matches: u64) {}
}

#[test]
fn lexical_error_is_fatal() {
    let mut st = State::new(Failing { left: vec![StartObject, key("a")] }, Config::new());
    let r = parse_document(&mut st);
    assert_eq!(r, Err(ParseError::Lexical("unexpected byte".to_string())));
}

#[test]
fn lexical_error_after_complete_value_is_fatal() {
    let mut st = State::new(Failing { left: vec![StartObject, EndObject] }, Config::new());
    let r = parse_document(&mut st);
    assert_eq!(r, Err(ParseError::Lexical("unexpected byte".to_string())));
}

#[test]
fn duplicate_keys_last_wins_and_one_match() {
    let evs = vec![
        StartObject, key("billing_code_type"), text("CPT"), key("billing_code_type"), text("CPT"),
        key("rate"), num("1"), key("rate"), num("2"), EndObject,
    ];
    let (r, st) = run_value(evs, true);
    let expected = obj(vec![
        ("billing_code_type", s("CPT")),
        ("rate", JsonValue::Number("2".to_string())),
    ]);
    assert_eq!(r, Ok(expected));
    assert_eq!(st.matches(), 1);
}

#[test]
fn nested_predicate_field_does_not_match_parent() {
    let evs = vec![
        StartObject, key("child"), StartObject, key("billing_code_type"), text("HCPCS"), EndObject,
        key("code"), text("CPT"), EndObject,
    ];
    let (r, st) = run_value(evs, false);
    assert_eq!(r, Ok(empty_obj()));
    assert_eq!(st.matches(), 0);
}

#[test]
fn non_string_target_does_not_match() {
    let evs = vec![StartObject, key("billing_code_type"), num("3"), EndObject];
    let (_, st) = run_value(evs, false);
    assert_eq!(st.matches(), 0);
}

#[test]
fn unretained_containers_come_back_empty() {
    let evs = vec![StartArray, num("1"), StartObject, key("a"), JsNull, EndObject, EndArray];
    let (r, _) = run_value(evs, false);
    assert_eq!(r, Ok(JsonValue::Array(Vec::new())));
}

#[test]
fn trigger_key_retains_its_subtree_only() {
    let evs = vec![
        StartObject, key("in_network"), StartArray, JsonTokenOwned::JsBoolean(true), EndArray,
        key("other"), StartArray, num("1"), EndArray, EndObject,
    ];
    let (r, _) = run_value(evs, false);
    assert_eq!(r, Ok(empty_obj()));
    let evs = vec![
        StartObject, key("x"), StartObject, key("in_network"), StartArray,
        JsonTokenOwned::JsBoolean(true), EndArray, key("other"), StartArray, num("1"), EndArray,
        EndObject, EndObject,
    ];
    let (r, _) = run_value(evs, true);
    let expected = obj(vec![(
        "x",
        obj(vec![
            ("in_network", JsonValue::Array(vec![JsonValue::Boolean(true)])),
            ("other", JsonValue::Array(vec![JsonValue::Number("1".to_string())])),
        ]),
    )]);
    assert_eq!(r, Ok(expected));
}

#[test]
fn cursor_stops_one_event_past_value() {
    let evs = vec![StartObject, key("a"), JsNull, EndObject, num("7")];
    let (r, st) = run_value(evs, true);
    assert_eq!(r, Ok(obj(vec![("a", JsonValue::Null)])));
    assert_eq!(st.token(), &num("7"));
    assert_eq!(st.events(), 5);
}

#[test]
fn progress_reported_every_interval() {
    let mut cfg = Config::new();
    cfg.progress_interval = 2;
    let evs = vec![StartArray, num("1"), num("2"), num("3"), EndArray];
    let mut st = State::new(VecSource::new(evs), cfg);
    assert!(parse_document(&mut st).is_ok());
    assert_eq!(st.events(), 5);
    assert_eq!(st.source().reports(), &vec![(2, 0), (4, 0)]);
}

#[test]
fn default_config_values() {
    let c = Config::new();
    assert_eq!(c.retention_trigger_key, "in_network");
    assert_eq!(c.predicate_field_key, "billing_code_type");
    assert_eq!(c.predicate_target, "CPT");
    assert_eq!(c.progress_interval, 1_000_000);
}

#[test]
fn custom_config_changes_trigger_and_predicate() {
    let cfg = Config {
        retention_trigger_key: "keep".to_string(),
        predicate_field_key: "kind".to_string(),
        predicate_target: "x".to_string(),
        predicate_requires_retention: false,
        max_depth: 64,
        progress_interval: 0,
    };
    let evs = vec![StartObject, key("keep"), StartObject, key("kind"), text("x"), EndObject, EndObject];
    let mut st = State::new(VecSource::new(evs), cfg);
    st.next_token().unwrap();
    let r = parse(&mut st, true, 64);
    assert_eq!(r, Ok(obj(vec![("keep", obj(vec![("kind", s("x"))]))])));
    assert_eq!(st.matches(), 1);
}

#[test]
fn insert_field_replaces_existing_key() {
    let mut fields: Vec<(String, JsonValue)> = Vec::new();
    insert_field(&mut fields, "a".to_string(), JsonValue::Null);
    insert_field(&mut fields, "b".to_string(), JsonValue::Boolean(false));
    insert_field(&mut fields, "a".to_string(), JsonValue::Boolean(true));
    assert_eq!(
        fields,
        vec![
            ("a".to_string(), JsonValue::Boolean(true)),
            ("b".to_string(), JsonValue::Boolean(false)),
        ]
    );
}

#[test]
fn retained_value_round_trips_through_events() {
    let evs = vec![
        StartObject, key("in_network"), StartArray, StartObject, key("billing_code_type"),
        text("CPT"), key("rate"), num("1"), key("flags"), StartArray, JsonTokenOwned::JsBoolean(false),
        JsNull, EndArray, EndObject, EndArray, EndObject,
    ];
    let (r, _) = run_value(evs.clone(), true);
    let v = r.unwrap();
    let again = json_sieve::roundtrip::to_events(&v);
    assert_eq!(again, evs);
    let (r2, st) = run_value(again, true);
    assert_eq!(r2, Ok(v));
    assert_eq!(st.token(), &JsonTokenOwned::JsEof);
}

#[test]
fn serialized_scalars_and_empty_containers() {
    assert_eq!(json_sieve::roundtrip::to_events(&JsonValue::Null), vec![JsNull]);
    assert_eq!(json_sieve::roundtrip::to_events(&empty_obj()), vec![StartObject, EndObject]);
    assert_eq!(
        json_sieve::roundtrip::to_events(&JsonValue::Array(vec![s("a")])),
        vec![StartArray, text("a"), EndArray]
    );
}

#[test]
fn retained_parse_ignores_trigger_key() {
    let evs = vec![StartObject, key("a"), StartObject, key("b"), num("2"), EndObject, EndObject];
    let (r1, _) = run_value(evs.clone(), true);
    let cfg = Config {
        retention_trigger_key: "a".to_string(),
        predicate_field_key: "billing_code_type".to_string(),
        predicate_target: "CPT".to_string(),
        predicate_requires_retention: false,
        max_depth: 64,
        progress_interval: 1_000_000,
    };
    let mut st = State::new(VecSource::new(evs), cfg);
    st.next_token().unwrap();
    let r2 = parse(&mut st, true, 64);
    assert_eq!(r1, r2);
    assert_eq!(r1, Ok(obj(vec![("a", obj(vec![("b", JsonValue::Number("2".to_string()))]))])));
}

#[test]
fn predicate_can_require_retention() {
    let mut cfg = Config::new();
    cfg.predicate_requires_retention = true;
    let evs = vec![
        StartObject, key("other"), StartObject, key("billing_code_type"), text("CPT"), EndObject,
        key("in_network"), StartObject, key("billing_code_type"), text("CPT"), EndObject,
        EndObject,
    ];
    let mut st = State::new(VecSource::new(evs), cfg);
    assert_eq!(parse_document(&mut st), Ok(empty_obj()));
    assert_eq!(st.matches(), 1);
}

#[test]
fn load_maps_each_answer() {
    let mut cfg = Config::new();
    cfg.progress_interval = 2;
    let mut st = State::new(VecSource::new(Vec::new()), cfg);
    assert_eq!(st.load(Ok(JsNull)), Ok(false));
    assert_eq!(st.events(), 1);
    assert_eq!(st.load(Ok(num("4"))), Ok(true));
    assert_eq!(st.token(), &num("4"));
    assert_eq!(st.events(), 2);
    assert_eq!(st.load(Ok(JsonTokenOwned::JsEof)), Ok(false));
    assert_eq!(st.events(), 2);
    assert_eq!(st.load(Err("bad".to_string())), Err(ParseError::Lexical("bad".to_string())));
    assert_eq!(st.token(), &JsonTokenOwned::JsEof);
    assert_eq!(st.events(), 2);
}

#[test]
fn vec_source_hands_out_events_then_end() {
    let mut src = VecSource::new(vec![StartArray, EndArray]);
    assert_eq!(src.pop_event(), StartArray);
    assert_eq!(src.pop_event(), EndArray);
    assert_eq!(src.pop_event(), JsonTokenOwned::JsEof);
    assert_eq!(src.pop_event(), JsonTokenOwned::JsEof);
}

#[test]
fn nesting_beyond_limit_is_fatal() {
    let mut cfg = Config::new();
    cfg.max_depth = 2;
    let evs = vec![StartArray, StartArray, StartArray, EndArray, EndArray, EndArray];
    let mut st = State::new(VecSource::new(evs), cfg);
    assert_eq!(parse_document(&mut st), Err(ParseError::DepthExceeded));
    assert_eq!(st.token(), &StartArray);
    assert_eq!(st.events(), 3);
}

#[test]
fn nesting_at_limit_is_accepted() {
    let mut cfg = Config::new();
    cfg.max_depth = 2;
    let evs = vec![StartObject, key("a"), StartArray, EndArray, EndObject];
    let mut st = State::new(VecSource::new(evs), cfg);
    assert_eq!(parse_document(&mut st), Ok(empty_obj()));
}

#[test]
fn zero_depth_allows_only_scalars() {
    let (r, st) = {
        let mut st = state_over(vec![StartObject, EndObject]);
        st.next_token().unwrap();
        let r = parse(&mut st, false, 0);
        (r, st)
    };
    assert_eq!(r, Err(ParseError::DepthExceeded));
    assert_eq!(st.events(), 1);
    let mut st = state_over(vec![text("x")]);
    st.next_token().unwrap();
    assert_eq!(parse(&mut st, false, 0), Ok(s("x")));
}
