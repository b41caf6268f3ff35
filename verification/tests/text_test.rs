use apisql::expr::tokenize_expr;
use apisql::resolve::replace_in;
use apisql::expr::word_char;
use apisql::text::{
    fold_upper, is_space_char, split_lines, split_on, split_words, trimmed, upper_char,
};
use apisql::{
    find_top_level_logical, is_identifier_like, is_toplevel_keyword, parse_expression,
    trim_quotes, BinaryOp, ErrorCodes, Expression, Literal, ParseError, VarDeclaration,
};

fn chars(s: &str) -> Vec<char> {
    s.chars().collect()
}

fn texts(items: Vec<Vec<char>>) -> Vec<String> {
    items.into_iter().map(|item| item.into_iter().collect()).collect()
}

fn tokens(s: &str) -> Vec<String> {
    texts(tokenize_expr(&chars(s)))
}

fn var(name: &str, value: &str) -> VarDeclaration {
    VarDeclaration { name: name.to_string(), value: value.to_string() }
}

#[test]
fn toplevel_keywords() {
    assert!(is_toplevel_keyword("USING"));
    assert!(is_toplevel_keyword("using"));
    assert!(is_toplevel_keyword("Response"));
    assert!(is_toplevel_keyword("REQUEST x"));
    assert!(is_toplevel_keyword("request "));
    assert!(!is_toplevel_keyword("REQUEST"));
    assert!(!is_toplevel_keyword("USING x"));
    assert!(!is_toplevel_keyword("RESPONSES"));
    assert!(!is_toplevel_keyword(""));
    assert!(!is_toplevel_keyword(" USING"));
}

#[test]
fn toplevel_keywords_are_folded_like_the_standard_library_folds() {
    assert!(is_toplevel_keyword("u\u{17f}ing"));
    assert!(is_toplevel_keyword("us\u{131}ng"));
    assert!(is_toplevel_keyword("re\u{17f}pon\u{17f}e"));
    assert!(is_toplevel_keyword("reque\u{fb06} x"));
    assert!(is_toplevel_keyword("reque\u{fb05} "));
    assert!(is_toplevel_keyword("reque\u{17f}t name"));
    assert!(!is_toplevel_keyword("u\u{17f}ing x"));
    assert!(!is_toplevel_keyword("\u{fb06}"));
    assert!(!is_toplevel_keyword("u\u{df}ing"));
    for line in ["USING", "uSiNg", "u\u{17f}ing", "reque\u{fb06} x", "Response", "r\u{e9}sponse", "", "\u{131}"] {
        let up = line.to_uppercase();
        let expected = up == "USING" || up.starts_with("REQUEST ") || up == "RESPONSE";
        assert_eq!(is_toplevel_keyword(line), expected, "for {:?}", line);
    }
}

#[test]
fn logical_words_are_folded_like_the_standard_library_folds() {
    for word in ["and", "AND", "aNd", "or", "Or", "\u{ff41}nd", "a\u{149}d", "band", ""] {
        let words = vec![word.to_string()];
        let up = word.to_uppercase();
        let expected = if up == "AND" || up == "OR" { Some((0, up)) } else { None };
        assert_eq!(find_top_level_logical(&words), expected, "for {:?}", word);
    }
}

#[test]
fn quotes_are_trimmed_in_pairs() {
    assert_eq!(trim_quotes("\"abc\""), "abc");
    assert_eq!(trim_quotes("'abc'"), "abc");
    assert_eq!(trim_quotes("  \"abc\"  "), "abc");
    assert_eq!(trim_quotes("\"abc'"), "\"abc'");
    assert_eq!(trim_quotes("abc"), "abc");
    assert_eq!(trim_quotes("\"\""), "");
    assert_eq!(trim_quotes("\""), "\"");
    assert_eq!(trim_quotes(""), "");
    assert_eq!(trim_quotes("\" a \""), " a ");
}

#[test]
fn identifiers_bare_and_in_braces() {
    assert!(is_identifier_like("name"));
    assert!(is_identifier_like("_x9"));
    assert!(is_identifier_like("{name}"));
    assert!(is_identifier_like("{_}"));
    assert!(!is_identifier_like(""));
    assert!(!is_identifier_like("9x"));
    assert!(!is_identifier_like("{}"));
    assert!(!is_identifier_like("{9}"));
    assert!(!is_identifier_like("{a"));
    assert!(!is_identifier_like("a}"));
    assert!(!is_identifier_like("a b"));
    assert!(!is_identifier_like("a.b"));
    assert!(!is_identifier_like("name\n"));
    assert!(!is_identifier_like("é"));
}

#[test]
fn first_logical_word_is_found() {
    let words: Vec<String> =
        ["a", "=", "1", "or", "b", "AND", "c"].iter().map(|s| s.to_string()).collect();
    assert_eq!(find_top_level_logical(&words), Some((3, "OR".to_string())));
    let words: Vec<String> = ["a", "And", "b"].iter().map(|s| s.to_string()).collect();
    assert_eq!(find_top_level_logical(&words), Some((1, "AND".to_string())));
    let words: Vec<String> = ["a", "=", "band"].iter().map(|s| s.to_string()).collect();
    assert_eq!(find_top_level_logical(&words), None);
    assert_eq!(find_top_level_logical(&[]), None);
}

#[test]
fn trimming_knows_unicode_white_space() {
    for text in ["  a b \t\r\n", "\u{a0}x\u{3000}", "\u{2003}\u{85}", "", "x", "\u{200b}x\u{200b}"] {
        let expected: Vec<char> = text.trim().chars().collect();
        assert_eq!(trimmed(&chars(text)), expected, "for {:?}", text);
    }
}

#[test]
fn splitting_is_like_the_standard_one() {
    for text in ["", "a", "a.b", ".a.", "..", "a..b.", "abc"] {
        let expected: Vec<String> = text.split('.').map(|s| s.to_string()).collect();
        assert_eq!(texts(split_on(&chars(text), '.')), expected, "for {:?}", text);
    }
    for text in ["", " ", "a", " a  b\tc\u{a0}d ", "a\nb"] {
        let expected: Vec<String> = text.split_whitespace().map(|s| s.to_string()).collect();
        assert_eq!(texts(split_words(&chars(text))), expected, "for {:?}", text);
    }
    for text in ["", "\n", "a", "a\n", "a\nb", "a\n\nb\n", "\n\n", "a\r\nb"] {
        let expected: Vec<String> = text.lines().map(|s| s.trim().to_string()).collect();
        let got: Vec<String> = texts(split_lines(&chars(text)))
            .into_iter()
            .map(|line| line.trim().to_string())
            .collect();
        assert_eq!(got, expected, "for {:?}", text);
    }
}

#[test]
fn operators_become_tokens_of_their_own() {
    assert_eq!(tokens("a>=1"), vec!["a", ">=", "1"]);
    assert_eq!(tokens(" a <= 1 "), vec!["a", "<=", "1"]);
    assert_eq!(tokens("a!=b"), vec!["a", "!=", "b"]);
    assert_eq!(tokens("a==b"), vec!["a", "==", "b"]);
    assert_eq!(tokens("a=~b"), vec!["a", "=~", "b"]);
    assert_eq!(tokens("a>b<c=d"), vec!["a", ">", "b", "<", "c", "=", "d"]);
    assert_eq!(tokens("a => b"), vec!["a", "=", ">", "b"]);
    assert_eq!(tokens("a = = b"), vec!["a", "=", "", "=", "b"]);
    assert_eq!(tokens("x and y OR z"), vec!["x", "and", "y", "OR", "z"]);
    assert_eq!(tokens("x And y oR z"), vec!["x", "And", "y", "oR", "z"]);
    assert_eq!(tokens("band orc"), vec!["band", "orc"]);
    assert_eq!(tokens("a.and.b"), vec!["a.", "and", ".b"]);
    assert_eq!(tokens("éand x"), vec!["éand", "x"]);
    assert_eq!(tokens("and_ x"), vec!["and_", "x"]);
    assert_eq!(tokens("\"a b\" = c"), vec!["\"a", "b\"", "=", "c"]);
    assert_eq!(tokens("a\tb"), vec!["a\tb"]);
    assert_eq!(tokens(""), Vec::<String>::new());
    assert_eq!(tokens("!x"), vec!["!x"]);
}

#[test]
fn terms_are_classified_in_order() {
    let literal = |s: &str| match parse_expression(s).unwrap() {
        Expression::LiteralExpr(l) => l,
        other => panic!("not a literal: {:?}", other),
    };
    let path = |s: &str| match parse_expression(s).unwrap() {
        Expression::FieldPathExpr(p) => p.path,
        other => panic!("not a path: {:?}", other),
    };
    assert_eq!(path("name"), vec!["name"]);
    assert_eq!(path("a.b.c"), vec!["a", "b", "c"]);
    assert_eq!(path("{x}"), vec!["{x}"]);
    assert_eq!(path("true"), vec!["true"]);
    assert_eq!(path("3.14"), vec!["3", "14"]);
    assert_eq!(path("nan"), vec!["nan"]);
    assert_eq!(path("\"a.b\""), vec!["\"a", "b\""]);
    assert!(matches!(literal("\"abc\""), Literal::StringLiteral(s) if s == "abc"));
    assert!(matches!(literal("'abc'"), Literal::StringLiteral(s) if s == "abc"));
    assert!(matches!(literal("\""), Literal::StringLiteral(s) if s == "\""));
    assert!(matches!(literal("5"), Literal::NumberLiteral(b) if f64::from_bits(b) == 5.0));
    assert!(matches!(literal("-7"), Literal::NumberLiteral(b) if f64::from_bits(b) == -7.0));
    assert!(matches!(literal("1e3"), Literal::NumberLiteral(b) if f64::from_bits(b) == 1000.0));
    assert!(matches!(literal("-inf"), Literal::NumberLiteral(b) if f64::from_bits(b) == f64::NEG_INFINITY));
    assert!(matches!(literal("5x"), Literal::StringLiteral(s) if s == "5x"));
    assert!(matches!(literal("a  b"), Literal::StringLiteral(s) if s == "a  b"));
    assert!(matches!(literal("{x} y"), Literal::StringLiteral(s) if s == "{x} y"));
}

#[test]
fn comparison_sides_are_terms() {
    match parse_expression("a b >= 'x y'").unwrap() {
        Expression::BinaryOpExpr { left, op, right } => {
            assert_eq!(op, BinaryOp::Gte);
            assert!(matches!(*left, Expression::LiteralExpr(Literal::StringLiteral(s)) if s == "a b"));
            assert!(matches!(*right, Expression::LiteralExpr(Literal::StringLiteral(s)) if s == "x y"));
        }
        other => panic!("not a comparison: {:?}", other),
    }
    for (text, expected) in [
        ("a > 1", BinaryOp::Gt),
        ("a < 1", BinaryOp::Lt),
        ("a <= 1", BinaryOp::Lte),
        ("a != 1", BinaryOp::Neq),
        ("a == 1", BinaryOp::Eq),
        ("a = 1", BinaryOp::Eq),
        ("a =~ 1", BinaryOp::RegexMatch),
    ] {
        match parse_expression(text).unwrap() {
            Expression::BinaryOpExpr { op, .. } => assert_eq!(op, expected),
            other => panic!("not a comparison: {:?}", other),
        }
    }
}

#[test]
fn empty_expressions_are_errors_without_a_place() {
    for text in ["", "   ", "and x", "x or", "= 1", "a ="] {
        match parse_expression(text) {
            Err(ParseError::Syntax { line, column, message }) => {
                assert_eq!((line, column), (0, 0));
                assert!(matches!(message, ErrorCodes::UnexpectedToken(_)));
            }
            other => panic!("expected an error for {:?}: {:?}", text, other),
        }
    }
    match parse_expression("  ") {
        Err(ParseError::Syntax { message: ErrorCodes::UnexpectedToken(t), .. }) => {
            assert_eq!(t, "  ")
        }
        other => panic!("expected an error: {:?}", other),
    }
}

#[test]
fn placeholders_are_replaced_from_the_left() {
    let vars = vec![var("a", "1"), var("b_2", "two"), var("a", "one")];
    let replace = |s: &str| replace_in(&s.to_string(), &vars);
    assert_eq!(replace("{a}"), "one");
    assert_eq!(replace("x{a}y{b_2}z"), "xoneytwoz");
    assert_eq!(replace("{c}"), "{c}");
    assert_eq!(replace("{{a}}"), "{one}");
    assert_eq!(replace("{a"), "{a");
    assert_eq!(replace("{}"), "{}");
    assert_eq!(replace("{9a}"), "{9a}");
    assert_eq!(replace("{a b}"), "{a b}");
    assert_eq!(replace("{a{a}"), "{aone");
    assert_eq!(replace(""), "");
    assert_eq!(replace("{a}{a}"), "oneone");
}

#[test]
fn white_space_is_what_the_standard_library_calls_so() {
    for code in 0u32..=0x10FFFF {
        if let Some(c) = char::from_u32(code) {
            assert_eq!(is_space_char(c), c.is_whitespace(), "for U+{:04X}", code);
        }
    }
}

#[test]
fn upper_case_is_the_ascii_one() {
    for code in 0u32..=0x10FFFF {
        if let Some(c) = char::from_u32(code) {
            assert_eq!(upper_char(c), c.to_ascii_uppercase(), "for U+{:04X}", code);
        }
    }
}

#[test]
fn word_characters_are_those_of_the_pattern_class() {
    let class = regex::Regex::new(r"^\w$").unwrap();
    for code in (0u32..0x400).chain([0x2028, 0x203F, 0x200C, 0x200D, 0x0301, 0x4E2D, 0x1F600, 0xB2, 0x2160]) {
        if let Some(c) = char::from_u32(code) {
            assert_eq!(word_char(c), class.is_match(&c.to_string()), "for U+{:04X}", code);
        }
    }
}

struct Dice(u64);

impl Dice {
    fn roll(&mut self, bound: usize) -> usize {
        self.0 ^= self.0 << 13;
        self.0 ^= self.0 >> 7;
        self.0 ^= self.0 << 17;
        (self.0 % bound as u64) as usize
    }

    fn text(&mut self, alphabet: &[char], longest: usize) -> String {
        let n = self.roll(longest + 1);
        (0..n).map(|_| alphabet[self.roll(alphabet.len())]).collect()
    }
}

fn tokens_by_pattern(re: &regex::Regex, s: &str) -> Vec<String> {
    let s = s.trim();
    let mut out = Vec::new();
    let mut last = 0usize;
    for m in re.find_iter(s) {
        if m.start() > last {
            out.push(s[last..m.start()].trim().to_string());
        }
        out.push(s[m.start()..m.end()].trim().to_string());
        last = m.end();
    }
    if last < s.len() {
        out.push(s[last..].trim().to_string());
    }
    out.into_iter()
        .flat_map(|chunk| {
            if chunk.contains(' ') {
                chunk.split_whitespace().map(|s| s.to_string()).collect()
            } else {
                vec![chunk]
            }
        })
        .collect()
}

#[test]
fn tokens_are_those_that_the_pattern_finds() {
    let alphabet = [
        'a', 'n', 'd', 'o', 'r', 'A', 'N', 'D', 'O', 'R', ' ', ' ', '\t', '>', '<', '=', '!', '~',
        '.', '_', '1', 'x', '\u{e9}', '"', '\u{a0}', '-',
    ];
    let re = regex::Regex::new(r"(>=|<=|!=|==|=~|>|<|=|(?i:\band\b)|(?i:\bor\b))").unwrap();
    let mut dice = Dice(0x853C49E6748FEA9B);
    for _ in 0..20000 {
        let text = dice.text(&alphabet, 14);
        assert_eq!(tokens(&text), tokens_by_pattern(&re, &text), "for {:?}", text);
    }
}

#[test]
fn placeholders_are_those_that_the_pattern_finds() {
    let pattern = regex::Regex::new(r"\{([A-Za-z_][A-Za-z0-9_]*)\}").unwrap();
    let whole = regex::Regex::new(r"^([A-Za-z_][A-Za-z0-9_]*|\{[A-Za-z_][A-Za-z0-9_]*\})$").unwrap();
    let vars = vec![var("a", "<A>"), var("b1", ""), var("_", "{a}"), var("a", "{b1}")];
    let alphabet = ['{', '}', '{', '}', 'a', 'b', '1', '_', ' ', 'c', '\u{e9}', '\n'];
    let mut dice = Dice(0xDA942042E4DD58B5);
    for _ in 0..20000 {
        let text = dice.text(&alphabet, 10);
        let expected = pattern
            .replace_all(&text, |caps: &regex::Captures| {
                let name = &caps[1];
                match vars.iter().rev().find(|v| v.name == name) {
                    Some(v) => v.value.clone(),
                    None => caps[0].to_string(),
                }
            })
            .to_string();
        assert_eq!(replace_in(&text, &vars), expected, "for {:?}", text);
        assert_eq!(is_identifier_like(&text), whole.is_match(&text), "for {:?}", text);
    }
}

#[test]
fn trimming_and_splitting_are_like_the_standard_ones_on_random_texts() {
    let alphabet = ['a', ' ', '\t', '\n', '\r', '.', ',', '#', '\u{a0}', '\u{2003}', 'b', '\'', '"'];
    let mut dice = Dice(0x94D049BB133111EB);
    for _ in 0..20000 {
        let text = dice.text(&alphabet, 10);
        let expected: Vec<char> = text.trim().chars().collect();
        assert_eq!(trimmed(&chars(&text)), expected, "for {:?}", text);
        let expected: Vec<String> = text.split(',').map(|s| s.to_string()).collect();
        assert_eq!(texts(split_on(&chars(&text), ',')), expected, "for {:?}", text);
        let expected: Vec<String> = text.split_whitespace().map(|s| s.to_string()).collect();
        assert_eq!(texts(split_words(&chars(&text))), expected, "for {:?}", text);
        let expected: Vec<String> = text.lines().map(|s| s.trim().to_string()).collect();
        let got: Vec<String> = texts(split_lines(&chars(&text)))
            .into_iter()
            .map(|line| line.trim().to_string())
            .collect();
        assert_eq!(got, expected, "for {:?}", text);
        let quoted = {
            let s = text.trim();
            if s.len() >= 2
                && ((s.starts_with('"') && s.ends_with('"'))
                    || (s.starts_with('\'') && s.ends_with('\'')))
            {
                s[1..s.len() - 1].to_string()
            } else {
                s.to_string()
            }
        };
        assert_eq!(trim_quotes(&text), quoted, "for {:?}", text);
    }
}

#[test]
fn upper_case_of_a_text_is_the_standard_one() {
    let alphabet = ['a', 'z', 'A', ' ', '1', '\u{17f}', '\u{131}', '\u{fb06}', '\u{df}', '\u{e9}', '\u{3c3}', '{'];
    let mut dice = Dice(0xC2B2AE3D27D4EB4F);
    for _ in 0..5000 {
        let text = dice.text(&alphabet, 8);
        let expected: Vec<char> = text.to_uppercase().chars().collect();
        assert_eq!(fold_upper(&chars(&text)), expected, "for {:?}", text);
    }
    assert_eq!(fold_upper(&chars("select id")), chars("SELECT ID"));
}
