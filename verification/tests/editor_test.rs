use apisql::cache::{Cache, CacheEntry};
use apisql::editor::{
    extract_from_path, fetch_diagnostic, field_names, keywords, resolve_json_path,
    syntax_diagnostic, validation, Severity, Validation,
};
use apisql::runtime::{
    blocks_to_run, cache_key, method_to_string, store_cache, try_cache, ttl_seconds, MissingBlock,
};
use apisql::{
    parse_program, CacheDuration, ErrorCodes, HttpMethods, Json, JsonNumber, ParseError,
    QueryError,
};
use regex::Regex;

fn object(members: Vec<(&str, Json)>) -> Json {
    Json::Object(members.into_iter().map(|(k, v)| (k.to_string(), v)).collect())
}

fn whole(n: u64) -> Json {
    Json::Number(JsonNumber::PosInt(n))
}

fn by_regex(text: &str) -> Vec<String> {
    let re = Regex::new(r"(?i)FROM\s+([a-zA-Z0-9_.]+)").unwrap();
    match re.captures(text) {
        Some(caps) => caps.get(1).unwrap().as_str().split('.').map(|s| s.to_string()).collect(),
        None => vec![],
    }
}

#[test]
fn from_path_is_found_like_the_pattern_finds_it() {
    let texts = [
        "",
        "FROM body.items",
        "RESPONSE\n  from   body.data.rows\n  SELECT id",
        "FROM",
        "FROM ",
        "FROM  ",
        "FROM -x FROM y",
        "xFROM a",
        "FROMa FROM\tb.c",
        "from\n\nq",
        "fRoM a..b. rest",
        "FROM a-b",
        "FROMFROM x",
        "FROM \u{a0}x_1",
        "FROM \u{17f}\u{212a}z",
        "FROM é FROM ok",
        "FRO M a",
    ];
    for text in texts {
        assert_eq!(extract_from_path(text), by_regex(text), "for {:?}", text);
    }
}

#[test]
fn keywords_are_offered_in_order() {
    assert_eq!(
        keywords(),
        vec![
            "USING", "REQUEST", "RESPONSE", "GET", "POST", "PUT", "DELETE", "PATCH", "AND", "OR",
            "SELECT", "FROM", "WHERE", "LIMIT"
        ]
    );
}

#[test]
fn path_is_followed_as_far_as_it_leads() {
    let inner = object(vec![("rows", Json::Array(vec![object(vec![("id", whole(1))])]))]);
    let document = object(vec![("data", inner.duplicate()), ("n", whole(3))]);
    let path = |segments: &[&str]| -> Vec<String> { segments.iter().map(|s| s.to_string()).collect() };
    assert!(resolve_json_path(&document, &path(&["body", "data"])).equals(&inner));
    assert!(resolve_json_path(&document, &path(&["data", "body", "rows"]))
        .equals(&Json::Array(vec![object(vec![("id", whole(1))])])));
    assert!(resolve_json_path(&document, &path(&["data", "nothing", "rows"])).equals(&inner));
    assert!(resolve_json_path(&document, &path(&["n", "x"])).equals(&whole(3)));
    assert!(resolve_json_path(&document, &path(&[])).equals(&document));
}

#[test]
fn field_names_come_from_the_first_row() {
    let document = object(vec![(
        "items",
        Json::Array(vec![
            object(vec![("id", whole(1)), ("name", Json::String("a".to_string()))]),
            object(vec![("other", whole(2))]),
        ]),
    )]);
    assert_eq!(field_names(&document, "RESPONSE\n  FROM body.items\n"), vec!["id", "name"]);
    assert_eq!(field_names(&document, "RESPONSE\n  FROM body\n"), vec!["items"]);
    assert_eq!(field_names(&document, "no path here"), vec!["items"]);
    assert_eq!(field_names(&Json::Array(vec![]), "FROM body"), Vec::<String>::new());
    assert_eq!(field_names(&whole(1), "FROM body.x"), Vec::<String>::new());
}

#[test]
fn syntax_errors_are_marked_from_zero() {
    let error = ParseError::Syntax {
        line: 3,
        column: 1,
        message: ErrorCodes::InvalidLimitValue("many".to_string()),
    };
    let mark = syntax_diagnostic(&error).unwrap();
    assert_eq!((mark.start_line, mark.start_character), (2, 0));
    assert_eq!((mark.end_line, mark.end_character), (2, 1));
    assert_eq!(mark.message, "invalid limit value: many");
    assert_eq!(mark.severity, Severity::Error);
    assert_eq!(mark.source, Some("apisql".to_string()));
    let error = ParseError::Syntax {
        line: 0,
        column: 0,
        message: ErrorCodes::UnexpectedToken("x".to_string()),
    };
    let mark = syntax_diagnostic(&error).unwrap();
    assert_eq!((mark.start_line, mark.start_character), (0, 0));
    assert_eq!((mark.end_line, mark.end_character), (0, 0));
    assert!(syntax_diagnostic(&ParseError::Eof).is_none());
}

#[test]
fn errors_say_what_went_wrong() {
    assert_eq!(ErrorCodes::UnexpectedToken("x y".to_string()).to_string(), "unexpected token: x y");
    assert_eq!(ErrorCodes::InvalidIdentifier("9".to_string()).to_string(), "invalid identifier: 9");
    assert_eq!(ErrorCodes::UnknownError.to_string(), "unknown error");
    assert_eq!(ErrorCodes::InvalidLimitValue("-1".to_string()).to_string(), "invalid limit value: -1");
    let error = ParseError::Syntax {
        line: 120,
        column: 7,
        message: ErrorCodes::UnexpectedToken("x".to_string()),
    };
    assert_eq!(error.to_string(), "syntax error at line 120, column 7: unexpected token: x");
    let error = ParseError::Syntax { line: 0, column: 10, message: ErrorCodes::UnknownError };
    assert_eq!(error.to_string(), "syntax error at line 0, column 10: unknown error");
    assert_eq!(ParseError::Eof.to_string(), "unexpected end of input");
    assert_eq!(
        QueryError::ExpectedArray { path: "a.b".to_string(), found: "null".to_string() }.to_string(),
        "expected array at path `a.b`, found null"
    );
    assert_eq!(
        QueryError::MissingField { field: "id".to_string() }.to_string(),
        "field `id` not found in object"
    );
    assert_eq!(QueryError::TypeError { message: "no".to_string() }.to_string(), "type error: no");
}

#[test]
fn cache_keys_and_times_to_live() {
    let program =
        parse_program("REQUEST a\n  POST http://h/x\n  CACHE 60\nREQUEST b\n  GET u\n").unwrap();
    assert_eq!(cache_key(&program.request_blocks[0]), "POST:http://h/x");
    assert_eq!(cache_key(&program.request_blocks[1]), "GET:u");
    assert_eq!(ttl_seconds(&program.request_blocks[0].cache), 60);
    assert_eq!(ttl_seconds(&CacheDuration::NoCache), 0);
    assert_eq!(method_to_string(&HttpMethods::Get), "GET");
    assert_eq!(method_to_string(&HttpMethods::Post), "POST");
    assert_eq!(method_to_string(&HttpMethods::Put), "PUT");
    assert_eq!(method_to_string(&HttpMethods::Delete), "DELETE");
    assert_eq!(method_to_string(&HttpMethods::Patch), "PATCH");
}

#[test]
fn first_request_and_response_are_run() {
    let program = parse_program("REQUEST a\nREQUEST b\nRESPONSE\n  LIMIT 1\nRESPONSE\n").unwrap();
    let (request, response) = blocks_to_run(&program).unwrap();
    assert_eq!(request.name, "a");
    assert_eq!(response.query.limit, Some(1));
    assert_eq!(
        blocks_to_run(&parse_program("REQUEST a\n").unwrap()).err(),
        Some(MissingBlock::Response)
    );
    assert_eq!(
        blocks_to_run(&parse_program("RESPONSE\n").unwrap()).err(),
        Some(MissingBlock::Request)
    );
    assert_eq!(blocks_to_run(&parse_program("").unwrap()).err(), Some(MissingBlock::Request));
}

fn entry(value: u64, stored_at: u128, ttl: u64) -> CacheEntry {
    CacheEntry { value: whole(value), status_code: 200, stored_at, ttl }
}

#[test]
fn cache_serves_fresh_entries_only() {
    let second: u128 = 1_000_000_000;
    let mut cache = Cache::new();
    assert!(cache.get("k", 0).is_none());
    cache.insert("k".to_string(), entry(1, 10 * second, 5));
    assert!(cache.get("k", 10 * second).unwrap().value.equals(&whole(1)));
    assert_eq!(cache.get("k", 10 * second).unwrap().status_code, 200);
    assert!(cache.get("k", 15 * second - 1).is_some());
    assert!(cache.get("k", 15 * second).is_none());
    assert!(cache.get("k", 9 * second).is_some());
    assert!(cache.get("other", 10 * second).is_none());
    cache.insert("k".to_string(), entry(2, 20 * second, 1));
    assert!(cache.get("k", 20 * second).unwrap().value.equals(&whole(2)));
    cache.insert("z".to_string(), entry(3, 0, 0));
    assert!(cache.get("z", 0).is_none());
    assert!(cache.get("k", 20 * second).is_some());
    cache.insert("big".to_string(), entry(4, 0, u64::MAX));
    assert!(cache.get("big", u128::MAX / 2).is_none());
    assert!(cache.get("big", (u64::MAX as u128) * second - 1).is_some());
}

#[test]
fn failed_fetch_is_a_warning_at_the_start() {
    let mark = fetch_diagnostic("no route");
    assert_eq!((mark.start_line, mark.start_character), (0, 0));
    assert_eq!((mark.end_line, mark.end_character), (0, 0));
    assert_eq!(mark.severity, Severity::Warning);
    assert_eq!(mark.message, "Failed to fetch data: no route");
    assert_eq!(mark.source, None);
}

#[test]
fn validation_fetches_the_first_request_or_marks_the_error() {
    let parsed = parse_program("REQUEST a\n GET x\nREQUEST b\n");
    match validation(&parsed) {
        Validation::Fetch(request) => assert_eq!(request.name, "a"),
        _ => panic!("expected a fetch"),
    }
    let parsed = parse_program("RESPONSE\n LIMIT x\n");
    match validation(&parsed) {
        Validation::Mark(mark) => {
            assert_eq!((mark.start_line, mark.start_character), (1, 0));
            assert_eq!(mark.message, "invalid limit value: x");
        }
        _ => panic!("expected a mark"),
    }
    let parsed = parse_program("RESPONSE\n");
    assert!(matches!(validation(&parsed), Validation::Nothing));
    let parsed = Err(ParseError::Eof);
    assert!(matches!(validation(&parsed), Validation::Nothing));
}

#[test]
fn large_positions_wrap_to_32_bits() {
    let error = ParseError::Syntax {
        line: 0x1_0000_0005,
        column: 0x2_0000_0000,
        message: ErrorCodes::UnknownError,
    };
    let mark = syntax_diagnostic(&error).unwrap();
    assert_eq!((mark.start_line, mark.start_character), (4, 0));
    assert_eq!((mark.end_line, mark.end_character), (4, 0));
}

#[test]
fn responses_are_cached_for_as_long_as_the_request_allows() {
    let second: u128 = 1_000_000_000;
    let program =
        parse_program("REQUEST a\n  GET http://h/x\n  CACHE 2\nREQUEST b\n  GET http://h/y\n")
            .unwrap();
    let cached = &program.request_blocks[0];
    let uncached = &program.request_blocks[1];
    let mut cache = Cache::new();
    assert!(try_cache(&cache, cached, 0).is_none());
    store_cache(&mut cache, cached, whole(7), 201, 5 * second);
    store_cache(&mut cache, uncached, whole(8), 200, 5 * second);
    let found = try_cache(&cache, cached, 6 * second).unwrap();
    assert!(found.value.equals(&whole(7)));
    assert_eq!(found.status_code, 201);
    assert!(try_cache(&cache, cached, 7 * second).is_none());
    assert!(try_cache(&cache, uncached, 5 * second).is_none());
}
