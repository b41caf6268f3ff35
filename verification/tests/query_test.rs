use apisql::{
    execute_query, parse_expression, parse_from_clause, parse_program, resolve_expr,
    unroll_handlers, BinaryOp, CacheDuration, ErrorCodes, Expression, FromType, HttpMethods, Json,
    JsonNumber, Literal, ParseError, QueryError, SelectClause, VarDeclaration,
};

fn text(s: &str) -> Json {
    Json::String(s.to_string())
}

fn whole(n: u64) -> Json {
    Json::Number(JsonNumber::PosInt(n))
}

fn double(x: f64) -> Json {
    Json::Number(JsonNumber::Float(x.to_bits()))
}

fn object(members: Vec<(&str, Json)>) -> Json {
    Json::Object(members.into_iter().map(|(k, v)| (k.to_string(), v)).collect())
}

fn items_document() -> Json {
    object(vec![(
        "items",
        Json::Array(vec![
            object(vec![("id", whole(1)), ("price", whole(5)), ("category", text("a"))]),
            object(vec![("id", whole(2)), ("price", whole(20)), ("category", text("b"))]),
            object(vec![("id", whole(3)), ("price", whole(30)), ("category", text("c"))]),
        ]),
    )])
}

fn run(script: &str, body: &Json) -> Result<Json, QueryError> {
    let program = parse_program(script).expect("the script parses");
    execute_query(&program.response_blocks[0].query, body)
}

fn keys(row: &Json) -> Vec<String> {
    match row {
        Json::Object(members) => members.iter().map(|(k, _)| k.clone()).collect(),
        _ => panic!("not an object"),
    }
}

#[test]
fn scenario_filter_project_limit() {
    let script = "USING\n  token: \"t\"\n\nREQUEST R\n  GET {token}@example.com\n\nRESPONSE\n  FROM body.items\n  WHERE price > 10\n  SELECT { id, tag: category }\n  LIMIT 2\n";
    let program = parse_program(script).unwrap();
    assert_eq!(program.request_blocks[0].name, "R");
    assert_eq!(program.request_blocks[0].url, "t@example.com");
    assert_eq!(program.request_blocks[0].method, HttpMethods::Get);
    let result = execute_query(&program.response_blocks[0].query, &items_document()).unwrap();
    let expected = Json::Array(vec![
        object(vec![("id", whole(2)), ("tag", text("b"))]),
        object(vec![("id", whole(3)), ("tag", text("c"))]),
    ]);
    assert!(result.equals(&expected));
    match &result {
        Json::Array(rows) => {
            assert_eq!(rows.len(), 2);
            assert_eq!(keys(&rows[0]), vec!["id".to_string(), "tag".to_string()]);
        }
        _ => panic!("not an array"),
    }
}

#[test]
fn from_body_prefix_is_stripped() {
    let clause = parse_from_clause("body.data.items");
    assert_eq!(clause.from_type, FromType::Body);
    assert_eq!(clause.path, vec!["data".to_string(), "items".to_string()]);
}

#[test]
fn from_body_with_trailing_point_keeps_an_empty_segment() {
    let clause = parse_from_clause("body.X.");
    assert_eq!(clause.from_type, FromType::Body);
    assert_eq!(clause.path, vec!["X".to_string(), "".to_string()]);
}

#[test]
fn from_body_alone_is_a_path_of_its_own() {
    let clause = parse_from_clause("body");
    assert_eq!(clause.from_type, FromType::Body);
    assert_eq!(clause.path, vec!["body".to_string()]);
    let program = parse_program("RESPONSE\n  FROM body\n").unwrap();
    assert_eq!(program.response_blocks[0].query.from_clause.path, vec!["body".to_string()]);
}

#[test]
fn from_response_prefix_sets_the_source() {
    let clause = parse_from_clause("response.a.b");
    assert_eq!(clause.from_type, FromType::Response);
    assert_eq!(clause.path, vec!["a".to_string(), "b".to_string()]);
}

#[test]
fn from_response_is_refused_when_run() {
    let result = run("RESPONSE\n  FROM response.items\n", &items_document());
    match result {
        Err(QueryError::TypeError { message }) => {
            assert_eq!(message, "Response from_type not supported yet")
        }
        _ => panic!("expected a type error"),
    }
}

#[test]
fn filter_gives_a_subset_of_the_unfiltered_rows() {
    let all = run("RESPONSE\n  FROM body.items\n  SELECT id, price\n", &items_document()).unwrap();
    let some = run(
        "RESPONSE\n  FROM body.items\n  WHERE price >= 20\n  SELECT id, price\n",
        &items_document(),
    )
    .unwrap();
    let (all, some) = match (all, some) {
        (Json::Array(a), Json::Array(s)) => (a, s),
        _ => panic!("not arrays"),
    };
    assert_eq!(all.len(), 3);
    assert_eq!(some.len(), 2);
    for row in &some {
        assert!(all.iter().any(|other| other.equals(row)));
    }
}

#[test]
fn limit_cuts_to_the_smaller_of_limit_and_length() {
    let count = |limit: &str| -> usize {
        let script = format!("RESPONSE\n  FROM body.items\n  SELECT id\n  LIMIT {}\n", limit);
        match run(&script, &items_document()).unwrap() {
            Json::Array(rows) => rows.len(),
            _ => panic!("not an array"),
        }
    };
    assert_eq!(count("0"), 0);
    assert_eq!(count("1"), 1);
    assert_eq!(count("3"), 3);
    assert_eq!(count("7"), 3);
    assert_eq!(count("4294967295"), 3);
}

#[test]
fn missing_key_in_where_drops_the_row() {
    let body = Json::Array(vec![
        object(vec![("id", whole(1)), ("age", whole(30))]),
        object(vec![("id", whole(2))]),
        object(vec![("id", whole(3)), ("age", whole(40))]),
    ]);
    let result = run("RESPONSE\n  WHERE age > 18\n  SELECT id\n", &body).unwrap();
    let expected = Json::Array(vec![object(vec![("id", whole(1))]), object(vec![("id", whole(3))])]);
    assert!(result.equals(&expected));
}

#[test]
fn missing_key_in_select_aborts_the_query() {
    let body = Json::Array(vec![
        object(vec![("id", whole(1)), ("age", whole(30))]),
        object(vec![("id", whole(2))]),
    ]);
    match run("RESPONSE\n  SELECT id, age\n", &body) {
        Err(QueryError::MissingField { field }) => assert_eq!(field, "age"),
        _ => panic!("expected a missing field"),
    }
    match run("RESPONSE\n  SELECT { id, age }\n", &body) {
        Err(QueryError::MissingField { field }) => assert_eq!(field, "age"),
        _ => panic!("expected a missing field"),
    }
}

#[test]
fn non_object_row_in_select_is_a_type_error() {
    let body = Json::Array(vec![whole(1)]);
    match run("RESPONSE\n  SELECT id\n", &body) {
        Err(QueryError::TypeError { message }) => {
            assert_eq!(message, "cannot access field `id` on non-object")
        }
        _ => panic!("expected a type error"),
    }
}

#[test]
fn missing_from_path_is_a_missing_field() {
    match run("RESPONSE\n  FROM body.nothing\n  SELECT id\n", &items_document()) {
        Err(QueryError::MissingField { field }) => assert_eq!(field, "nothing"),
        _ => panic!("expected a missing field"),
    }
}

#[test]
fn quoted_variable_resolves_to_a_number() {
    let program = parse_program("USING\n x: 5\n\nRESPONSE\n  WHERE age = \"{x}\"\n").unwrap();
    match program.response_blocks[0].query.where_clause.as_ref().unwrap() {
        Expression::BinaryOpExpr { left, op, right } => {
            assert_eq!(*op, BinaryOp::Eq);
            match &**left {
                Expression::FieldPathExpr(path) => assert_eq!(path.path, vec!["age".to_string()]),
                _ => panic!("expected a field path"),
            }
            match &**right {
                Expression::LiteralExpr(Literal::NumberLiteral(bits)) => {
                    assert_eq!(f64::from_bits(*bits), 5.0)
                }
                _ => panic!("expected a number"),
            }
        }
        _ => panic!("expected a comparison"),
    }
}

#[test]
fn quoted_variable_resolves_to_a_string() {
    let program =
        parse_program("USING\n x: hello\n\nRESPONSE\n  WHERE name = \"{x}\"\n").unwrap();
    match program.response_blocks[0].query.where_clause.as_ref().unwrap() {
        Expression::BinaryOpExpr { right, .. } => match &**right {
            Expression::LiteralExpr(Literal::StringLiteral(s)) => assert_eq!(s, "hello"),
            _ => panic!("expected a string"),
        },
        _ => panic!("expected a comparison"),
    }
}

#[test]
fn bare_variable_in_an_expression_is_a_field_path() {
    let program = parse_program("USING\n x: 5\n\nRESPONSE\n  WHERE age = {x}\n").unwrap();
    match program.response_blocks[0].query.where_clause.as_ref().unwrap() {
        Expression::BinaryOpExpr { right, .. } => match &**right {
            Expression::FieldPathExpr(path) => assert_eq!(path.path, vec!["{x}".to_string()]),
            _ => panic!("expected a field path"),
        },
        _ => panic!("expected a comparison"),
    }
}

#[test]
fn variable_inside_a_longer_literal_stays_a_string() {
    let program =
        parse_program("USING\n x: 5\n\nRESPONSE\n  WHERE name = \"n{x}{y}\"\n").unwrap();
    match program.response_blocks[0].query.where_clause.as_ref().unwrap() {
        Expression::BinaryOpExpr { right, .. } => match &**right {
            Expression::LiteralExpr(Literal::StringLiteral(s)) => assert_eq!(s, "n5{y}"),
            _ => panic!("expected a string"),
        },
        _ => panic!("expected a comparison"),
    }
}

#[test]
fn variable_resolves_to_a_boolean() {
    let program = parse_program("USING\n x: TRUE\n\nRESPONSE\n  WHERE \"{x}\"\n").unwrap();
    match program.response_blocks[0].query.where_clause.as_ref().unwrap() {
        Expression::LiteralExpr(Literal::BooleanLiteral(b)) => assert!(*b),
        _ => panic!("expected a boolean"),
    }
}

#[test]
fn later_declaration_overrides_an_earlier_one() {
    let program =
        parse_program("USING\n x: one\n x: two\n\nREQUEST R\n  GET http://h/{x}\n").unwrap();
    assert_eq!(program.request_blocks[0].url, "http://h/two");
}

#[test]
fn regex_operator_keeps_matching_rows() {
    let body = Json::Array(vec![
        object(vec![("name", text("Alice"))]),
        object(vec![("name", text("Bob"))]),
    ]);
    let result = run("RESPONSE\n  WHERE name =~ \"^A\"\n  SELECT name\n", &body).unwrap();
    let expected = Json::Array(vec![object(vec![("name", text("Alice"))])]);
    assert!(result.equals(&expected));
}

#[test]
fn regex_matches_anywhere_in_the_text() {
    let body = Json::Array(vec![
        object(vec![("name", text("Alice"))]),
        object(vec![("name", text("Bob"))]),
    ]);
    let result = run("RESPONSE\n  WHERE name =~ \"o\"\n  SELECT name\n", &body).unwrap();
    let expected = Json::Array(vec![object(vec![("name", text("Bob"))])]);
    assert!(result.equals(&expected));
}

#[test]
fn invalid_regex_in_select_is_a_type_error() {
    let body = Json::Array(vec![object(vec![("name", text("Alice"))])]);
    match run("RESPONSE\n  SELECT { m: name =~ \"(\" }\n", &body) {
        Err(QueryError::TypeError { message }) => {
            assert!(message.starts_with("Invalid regex pattern: "));
            assert!(message.len() > "Invalid regex pattern: ".len());
        }
        _ => panic!("expected a type error"),
    }
}

#[test]
fn invalid_regex_in_where_drops_every_row() {
    let body = Json::Array(vec![object(vec![("name", text("Alice"))])]);
    let result = run("RESPONSE\n  WHERE name =~ \"(\"\n  SELECT name\n", &body).unwrap();
    assert!(result.equals(&Json::Array(vec![])));
}

fn truth(a: bool, b: bool, c: bool) -> bool {
    let script = format!(
        "USING\n a: {}\n b: {}\n c: {}\n\nRESPONSE\n  WHERE \"{{a}}\" AND \"{{b}}\" OR \"{{c}}\"\n  SELECT id\n",
        a, b, c
    );
    let body = object(vec![("id", whole(1))]);
    match run(&script, &body).unwrap() {
        Json::Array(rows) => rows.len() == 1,
        _ => panic!("not an array"),
    }
}

#[test]
fn and_or_nest_to_the_right() {
    for a in [false, true] {
        for b in [false, true] {
            for c in [false, true] {
                assert_eq!(truth(a, b, c), a && (b || c));
            }
        }
    }
    // Where the two readings differ: (a AND b) OR c would hold here.
    assert!(!truth(false, false, true));
    assert!(!truth(false, true, true));
}

#[test]
fn and_or_parse_tree_nests_to_the_right() {
    match parse_expression("a = 1 AND b = 2 OR c = 3").unwrap() {
        Expression::BinaryOpExpr { left, op, right } => {
            assert_eq!(op, BinaryOp::And);
            assert!(matches!(*left, Expression::BinaryOpExpr { op: BinaryOp::Eq, .. }));
            match *right {
                Expression::BinaryOpExpr { left, op, right } => {
                    assert_eq!(op, BinaryOp::Or);
                    assert!(matches!(*left, Expression::BinaryOpExpr { op: BinaryOp::Eq, .. }));
                    assert!(matches!(*right, Expression::BinaryOpExpr { op: BinaryOp::Eq, .. }));
                }
                _ => panic!("expected a disjunction"),
            }
        }
        _ => panic!("expected a conjunction"),
    }
}

#[test]
fn parse_is_deterministic() {
    let script = "USING\n  k: v\n\nREQUEST A\n  POST http://x/{k}\n\nRESPONSE\n  FROM body.items\n  WHERE price > 10 AND category != \"a\"\n  SELECT id\n";
    let first = run(script, &items_document()).unwrap();
    let second = run(script, &items_document()).unwrap();
    assert!(first.equals(&second));
    assert_eq!(format!("{:?}", first), format!("{:?}", second));
    assert_eq!(
        format!("{:?}", parse_program(script).unwrap()),
        format!("{:?}", parse_program(script).unwrap())
    );
}

#[test]
fn invalid_limit_is_an_error_at_its_line() {
    match parse_program("RESPONSE\n  FROM body\n  LIMIT many\n") {
        Err(ParseError::Syntax { line, column, message }) => {
            assert_eq!(line, 3);
            assert_eq!(column, 1);
            match message {
                ErrorCodes::InvalidLimitValue(value) => assert_eq!(value, "many"),
                _ => panic!("expected an invalid limit"),
            }
        }
        _ => panic!("expected a syntax error"),
    }
    assert!(parse_program("RESPONSE\n  LIMIT -1\n").is_err());
    assert!(parse_program("RESPONSE\n  LIMIT 4294967296\n").is_err());
    let program = parse_program("RESPONSE\n  LIMIT +7\n").unwrap();
    assert_eq!(program.response_blocks[0].query.limit, Some(7));
}

#[test]
fn using_line_without_colon_is_an_error_at_its_line() {
    match parse_program("\nUSING\n  a: 1\n  oops\n") {
        Err(ParseError::Syntax { line, column, message }) => {
            assert_eq!(line, 4);
            assert_eq!(column, 1);
            match message {
                ErrorCodes::UnexpectedToken(token) => assert_eq!(token, "oops"),
                _ => panic!("expected an unexpected token"),
            }
        }
        _ => panic!("expected a syntax error"),
    }
}

#[test]
fn invalid_cache_value_is_passed_over() {
    let program = parse_program("REQUEST R\n  GET http://x\n  CACHE soon\n").unwrap();
    assert_eq!(program.request_blocks[0].cache, CacheDuration::NoCache);
    let program = parse_program("REQUEST R\n  CACHE 60\n  CACHE soon\n").unwrap();
    assert_eq!(program.request_blocks[0].cache, CacheDuration::DurationInSeconds(60));
}

#[test]
fn request_defaults_and_methods() {
    let program = parse_program("REQUEST  Bare \n").unwrap();
    let request = &program.request_blocks[0];
    assert_eq!(request.name, "Bare");
    assert_eq!(request.method, HttpMethods::Get);
    assert_eq!(request.url, "");
    assert!(request.headers.is_empty());
    assert_eq!(request.cache, CacheDuration::NoCache);
    let program = parse_program(
        "request a\n  delete http://d\nREQUEST b\n  Patch http://p\nREQUEST c\n  PUT http://u\nREQUEST d\n  post   http://o  \n",
    )
    .unwrap();
    let methods: Vec<HttpMethods> = program.request_blocks.iter().map(|r| r.method).collect();
    assert_eq!(
        methods,
        vec![HttpMethods::Delete, HttpMethods::Patch, HttpMethods::Put, HttpMethods::Post]
    );
    assert_eq!(program.request_blocks[3].url, "http://o");
}

#[test]
fn headers_follow_the_header_line() {
    let script = "USING\n  token: abc\n\nREQUEST R\n  GET http://x\n  HEADER list\n  Authorization: \"Bearer {token}\"\n  Accept: 'application/json'\n  CACHE 5\n\nRESPONSE\n  FROM body\n";
    let program = parse_program(script).unwrap();
    let request = &program.request_blocks[0];
    assert_eq!(request.headers.len(), 2);
    assert_eq!(request.headers[0].key, "Authorization");
    assert_eq!(request.headers[0].value, "Bearer abc");
    assert_eq!(request.headers[1].key, "Accept");
    assert_eq!(request.headers[1].value, "application/json");
    assert_eq!(request.cache, CacheDuration::DurationInSeconds(5));
    assert_eq!(program.response_blocks.len(), 1);
}

#[test]
fn keyword_after_headers_ends_the_block() {
    let program =
        parse_program("REQUEST R\n  HEADER x\n  A: b\nRESPONSE\n  LIMIT 1\n").unwrap();
    assert_eq!(program.request_blocks[0].headers.len(), 1);
    assert_eq!(program.response_blocks.len(), 1);
    assert_eq!(program.response_blocks[0].query.limit, Some(1));
}

#[test]
fn comment_starts_at_the_first_hash_even_in_quotes() {
    let program = parse_program("USING\n  tag: \"a#b\"\n").unwrap();
    let declared = &program.using_block.unwrap().var_declarations;
    assert_eq!(declared[0].name, "tag");
    assert_eq!(declared[0].value, "\"a");
}

#[test]
fn response_block_survives_blank_lines() {
    let program =
        parse_program("RESPONSE\n  FROM body.items\n\n  SELECT id\n\n  LIMIT 2\n").unwrap();
    let query = &program.response_blocks[0].query;
    assert_eq!(query.limit, Some(2));
    match &query.select_clause {
        SelectClause::Fields(names) => assert_eq!(names, &vec!["id".to_string()]),
        _ => panic!("expected plain fields"),
    }
}

#[test]
fn response_defaults() {
    let program = parse_program("RESPONSE\n").unwrap();
    let query = &program.response_blocks[0].query;
    assert_eq!(query.from_clause.from_type, FromType::Body);
    assert!(query.from_clause.path.is_empty());
    assert!(query.where_clause.is_none());
    assert!(query.limit.is_none());
    match &query.select_clause {
        SelectClause::Fields(names) => assert!(names.is_empty()),
        _ => panic!("expected plain fields"),
    }
    let result = execute_query(query, &whole(7)).unwrap();
    assert!(result.equals(&Json::Array(vec![object(vec![])])));
}

#[test]
fn object_select_over_several_lines() {
    let program = parse_program(
        "RESPONSE\n  SELECT {\n    id,\n    big: price > 10,\n    name\n  }\n  LIMIT 1\n",
    )
    .unwrap();
    let query = &program.response_blocks[0].query;
    assert_eq!(query.limit, Some(1));
    match &query.select_clause {
        SelectClause::Objects(fields) => {
            assert_eq!(fields.len(), 3);
            assert_eq!(fields[0].alias, "id");
            assert!(fields[0].expression.is_none());
            assert_eq!(fields[1].alias, "big");
            assert!(fields[1].expression.is_some());
            assert_eq!(fields[2].alias, "name");
        }
        _ => panic!("expected object fields"),
    }
}

#[test]
fn numbers_compare_as_doubles() {
    let body = Json::Array(vec![
        object(vec![("v", whole(9007199254740993))]),
        object(vec![("v", double(2.5))]),
        object(vec![("v", Json::Number(JsonNumber::NegInt(-3)))]),
        object(vec![("v", double(-0.0))]),
    ]);
    let count = |condition: &str| -> usize {
        let script = format!("RESPONSE\n  WHERE {}\n  SELECT v\n", condition);
        match run(&script, &body).unwrap() {
            Json::Array(rows) => rows.len(),
            _ => panic!("not an array"),
        }
    };
    assert_eq!(count("v > 2"), 2);
    assert_eq!(count("v >= 0"), 3);
    assert_eq!(count("v < 0"), 1);
    assert_eq!(count("v <= -3"), 1);
    // 2^53 + 1 rounds to 2^53 as a double.
    assert_eq!(count("v > 9007199254740992"), 0);
    assert_eq!(count("v >= 9007199254740992"), 1);
    assert_eq!(count("v = 0"), 1);
    assert_eq!(count("v != 0"), 3);
}

#[test]
fn number_that_is_not_finite_is_a_type_error() {
    let body = Json::Array(vec![object(vec![("v", whole(1))])]);
    match run("RESPONSE\n  SELECT { big: 1e999 }\n", &body) {
        Err(QueryError::TypeError { message }) => assert_eq!(message, "Invalid number"),
        _ => panic!("expected a type error"),
    }
}

#[test]
fn comparison_needs_numbers_and_logic_needs_booleans() {
    let body = Json::Array(vec![object(vec![("v", text("x")), ("n", whole(1))])]);
    match run("RESPONSE\n  SELECT { r: v > 1 }\n", &body) {
        Err(QueryError::TypeError { message }) => assert_eq!(message, "Left operand is not a number"),
        _ => panic!("expected a type error"),
    }
    match run("RESPONSE\n  SELECT { r: n > v }\n", &body) {
        Err(QueryError::TypeError { message }) => assert_eq!(message, "Right operand is not a number"),
        _ => panic!("expected a type error"),
    }
    match run("RESPONSE\n  SELECT { r: n AND v }\n", &body) {
        Err(QueryError::TypeError { message }) => assert_eq!(message, "Left operand is not a boolean"),
        _ => panic!("expected a type error"),
    }
    match run("RESPONSE\n  SELECT { r: n =~ v }\n", &body) {
        Err(QueryError::TypeError { message }) => {
            assert_eq!(message, "Left operand for regex match must be a string")
        }
        _ => panic!("expected a type error"),
    }
}

#[test]
fn equality_never_fails() {
    let body = Json::Array(vec![object(vec![("v", text("x")), ("n", whole(1))])]);
    let result = run("RESPONSE\n  SELECT { same: v = n, other: v != n }\n", &body).unwrap();
    let expected =
        Json::Array(vec![object(vec![("other", Json::Bool(true)), ("same", Json::Bool(false))])]);
    assert!(result.equals(&expected));
}

#[test]
fn method_is_the_first_word_of_its_line() {
    let program = parse_program("REQUEST R\n  POST\thttp://tab\nREQUEST S\n  PUT http://x\n  GET\n").unwrap();
    assert_eq!(program.request_blocks[0].method, HttpMethods::Post);
    assert_eq!(program.request_blocks[0].url, "http://tab");
    assert_eq!(program.request_blocks[1].method, HttpMethods::Get);
    assert_eq!(program.request_blocks[1].url, "");
    let program = parse_program("REQUEST R\n  GETS http://x\n  getter: y\n").unwrap();
    assert_eq!(program.request_blocks[0].method, HttpMethods::Get);
    assert_eq!(program.request_blocks[0].url, "");
}

#[test]
fn later_using_block_replaces_an_earlier_one() {
    let program = parse_program("USING\n a: 1\n\nUSING\n b: 2\n\nREQUEST R\n GET {a}{b}\n").unwrap();
    assert_eq!(program.using_block.unwrap().var_declarations.len(), 1);
    assert_eq!(program.request_blocks[0].url, "{a}2");
}

#[test]
fn keyword_line_ends_a_using_block_and_opens_the_next() {
    let program = parse_program("USING\n a: 1\nRESPONSE\n LIMIT 3\nREQUEST R\n").unwrap();
    assert_eq!(program.using_block.unwrap().var_declarations.len(), 1);
    assert_eq!(program.response_blocks[0].query.limit, Some(3));
    assert_eq!(program.request_blocks[0].name, "R");
}

#[test]
fn object_select_on_one_line_and_without_closing_brace() {
    let program = parse_program("RESPONSE\n  SELECT { a , b : x > 1 , , } ignored\n").unwrap();
    match &program.response_blocks[0].query.select_clause {
        SelectClause::Objects(fields) => {
            assert_eq!(fields.len(), 2);
            assert_eq!(fields[0].alias, "a");
            assert_eq!(fields[1].alias, "b");
        }
        _ => panic!("expected object fields"),
    }
    let program = parse_program("RESPONSE\n  SELECT {\n  a,\n  b\n").unwrap();
    match &program.response_blocks[0].query.select_clause {
        SelectClause::Objects(fields) => assert_eq!(fields.len(), 2),
        _ => panic!("expected object fields"),
    }
    let program = parse_program("RESPONSE\n  SELECT } {\n  LIMIT 1\n").unwrap();
    match &program.response_blocks[0].query.select_clause {
        SelectClause::Objects(fields) => assert!(fields.is_empty()),
        _ => panic!("expected object fields"),
    }
    assert_eq!(program.response_blocks[0].query.limit, Some(1));
}

#[test]
fn expression_error_in_where_aborts_the_parse() {
    assert!(parse_program("RESPONSE\n  WHERE and x\n").is_err());
    assert!(parse_program("RESPONSE\n  SELECT { a: = 1 }\n").is_err());
}

#[test]
fn plain_field_names_take_variables() {
    let mut program = parse_program("USING\n f: id\n\nRESPONSE\n  SELECT a, b\n").unwrap();
    program.response_blocks[0].query.select_clause =
        SelectClause::Fields(vec!["{f}".to_string(), "x{f}{g}".to_string()]);
    unroll_handlers(&mut program);
    match &program.response_blocks[0].query.select_clause {
        SelectClause::Fields(names) => {
            assert_eq!(names, &vec!["id".to_string(), "xid{g}".to_string()])
        }
        _ => panic!("expected plain fields"),
    }
    // A brace in the line makes the projection one of object fields.
    let program = parse_program("USING\n f: id\n\nRESPONSE\n  SELECT {f}, name\n").unwrap();
    match &program.response_blocks[0].query.select_clause {
        SelectClause::Objects(fields) => {
            assert_eq!(fields.len(), 1);
            assert_eq!(fields[0].alias, "f");
        }
        _ => panic!("expected object fields"),
    }
}

#[test]
fn expressions_resolve_in_place() {
    let vars = vec![
        VarDeclaration { name: "n".to_string(), value: "2.5".to_string() },
        VarDeclaration { name: "s".to_string(), value: "text".to_string() },
    ];
    let mut expression = parse_expression("\"{n}\" > 1 AND \"{s}\" = \"{missing}\"").unwrap();
    resolve_expr(&mut expression, &vars);
    match expression {
        Expression::BinaryOpExpr { left, op, right } => {
            assert_eq!(op, BinaryOp::And);
            match *left {
                Expression::BinaryOpExpr { left, .. } => assert!(
                    matches!(*left, Expression::LiteralExpr(Literal::NumberLiteral(b)) if f64::from_bits(b) == 2.5)
                ),
                _ => panic!("expected a comparison"),
            }
            match *right {
                Expression::BinaryOpExpr { left, right, .. } => {
                    assert!(matches!(*left, Expression::LiteralExpr(Literal::StringLiteral(s)) if s == "text"));
                    assert!(matches!(*right, Expression::LiteralExpr(Literal::StringLiteral(s)) if s == "{missing}"));
                }
                _ => panic!("expected a comparison"),
            }
        }
        _ => panic!("expected a conjunction"),
    }
}

#[test]
fn objects_are_equal_in_any_order() {
    let a = object(vec![("x", whole(1)), ("y", Json::Array(vec![Json::Null, Json::Bool(true)]))]);
    let b = object(vec![("y", Json::Array(vec![Json::Null, Json::Bool(true)])), ("x", whole(1))]);
    let c = object(vec![("x", whole(1))]);
    let d = object(vec![("x", whole(1)), ("y", Json::Array(vec![Json::Bool(true), Json::Null]))]);
    assert!(a.equals(&b));
    assert!(b.equals(&a));
    assert!(!a.equals(&c));
    assert!(!c.equals(&a));
    assert!(!a.equals(&d));
    assert!(!a.equals(&Json::Null));
    assert!(a.duplicate().equals(&a));
    assert!(Json::Null.equals(&Json::Null));
    assert!(!text("1").equals(&whole(1)));
}

#[test]
fn repeated_alias_keeps_its_first_place_and_last_value() {
    let body = Json::Array(vec![object(vec![("a", whole(1)), ("b", whole(2))])]);
    let result = run("RESPONSE\n  SELECT { k: a, other: b, k: b }\n", &body).unwrap();
    match &result {
        Json::Array(rows) => {
            assert_eq!(keys(&rows[0]), vec!["k".to_string(), "other".to_string()]);
            assert!(rows[0].equals(&object(vec![("k", whole(2)), ("other", whole(2))])));
        }
        _ => panic!("not an array"),
    }
}

#[test]
fn a_single_value_is_the_only_row() {
    let body = object(vec![("id", whole(9))]);
    let result = run("RESPONSE\n  SELECT id\n", &body).unwrap();
    assert!(result.equals(&Json::Array(vec![object(vec![("id", whole(9))])])));
    let result = run("RESPONSE\n  WHERE id > 10\n  SELECT id\n", &body).unwrap();
    assert!(result.equals(&Json::Array(vec![])));
}

#[test]
fn header_on_the_header_line_itself_is_passed_over() {
    let script = "REQUEST R\n  GET http://x\n  HEADER Authorization: Bearer t\n  CACHE 60\n";
    let program = parse_program(script).unwrap();
    assert!(program.request_blocks[0].headers.is_empty());
    assert_eq!(program.request_blocks[0].cache, CacheDuration::DurationInSeconds(60));
}

#[test]
fn keywords_are_read_in_any_ascii_case() {
    let script = "using\n  a: 1\nrequest r\n  get http://{a}\n  header\n  cache 5\nresponse\n  from body.x\n  where a > 1 and b < 2\n  order by a\n  select a\n  limit 3\n";
    let program = parse_program(script).unwrap();
    assert_eq!(program.request_blocks[0].url, "http://1");
    assert_eq!(program.request_blocks[0].cache, CacheDuration::DurationInSeconds(5));
    let query = &program.response_blocks[0].query;
    assert_eq!(query.from_clause.path, vec!["x".to_string()]);
    assert_eq!(query.limit, Some(3));
    assert!(matches!(
        query.where_clause,
        Some(Expression::BinaryOpExpr { op: BinaryOp::And, .. })
    ));
}

#[test]
fn directives_are_folded_like_the_standard_library_folds() {
    let script = "reque\u{17f}t  Named \n  po\u{17f}t http://x\n  header\n  cache 9\nRESPONSE\n  from body.rows\n  \u{17f}elect id, name\n  l\u{131}mit 4\n";
    let program = parse_program(script).unwrap();
    assert_eq!(program.request_blocks.len(), 1);
    assert_eq!(program.request_blocks[0].name, "Named");
    assert_eq!(program.request_blocks[0].method, HttpMethods::Post);
    assert_eq!(program.request_blocks[0].url, "http://x");
    assert_eq!(program.request_blocks[0].cache, CacheDuration::DurationInSeconds(9));
    let query = &program.response_blocks[0].query;
    assert_eq!(query.from_clause.path, vec!["rows".to_string()]);
    assert_eq!(query.limit, Some(4));
    match &query.select_clause {
        SelectClause::Fields(names) => {
            assert_eq!(names, &vec!["id".to_string(), "name".to_string()])
        }
        _ => panic!("expected plain fields"),
    }
}

#[test]
fn folded_opener_ends_a_block_but_opens_none() {
    // USING and RESPONSE open a block in ASCII letters only; a line that
    // folds to one of them still ends the block before it.
    let program = parse_program("REQUEST a\n  GET x\nu\u{17f}ing\n  CACHE 5\n").unwrap();
    assert!(program.using_block.is_none());
    assert_eq!(program.request_blocks.len(), 1);
    assert_eq!(program.request_blocks[0].cache, CacheDuration::NoCache);
    let program = parse_program("USING\n  a: 1\nre\u{17f}ponse\n  LIMIT x\n").unwrap();
    assert!(program.response_blocks.is_empty());
    assert_eq!(program.using_block.unwrap().var_declarations.len(), 1);
}

#[test]
fn request_name_is_what_follows_the_first_space() {
    let program = parse_program("REQUEST   Get Users  \nreque\u{fb06} other\n").unwrap();
    assert_eq!(program.request_blocks[0].name, "Get Users");
    assert_eq!(program.request_blocks[1].name, "other");
}
