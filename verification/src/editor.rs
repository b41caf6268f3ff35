//! What an editor asks of a script: the words to offer, the field names
//! that the last response holds under the script's `FROM` path, and where an
//! error is to be marked.

use vstd::prelude::*;
use crate::ast::{Program, RequestBlock};
use crate::errors::{code_text, ParseError, ParseErrorView};
use crate::json::{
    find_member, lemma_array_view, lemma_object_view, member, member_values, values, Json,
    JsonValue,
};
use crate::text::{
    equals_ignore_case, has_prefix_ignore_case, is_ascii_digit, is_ascii_letter, is_space_char,
    lemma_views_push, option_view, push_text, skip_spaces, slice, split, split_on, strings,
    to_chars, to_text, views,
};

verus! {

/// The keywords of the language, in the order in which they are offered.
pub open spec fn keyword_list() -> Seq<Seq<char>> {
    seq![
        "USING"@,
        "REQUEST"@,
        "RESPONSE"@,
        "GET"@,
        "POST"@,
        "PUT"@,
        "DELETE"@,
        "PATCH"@,
        "AND"@,
        "OR"@,
        "SELECT"@,
        "FROM"@,
        "WHERE"@,
        "LIMIT"@,
    ]
}

/// The keywords to offer.
pub fn keywords() -> (r: Vec<&'static str>)
    ensures
        views(r@) == keyword_list(),
{
    let mut out: Vec<&'static str> = Vec::new();
    out.push("USING");
    out.push("REQUEST");
    out.push("RESPONSE");
    out.push("GET");
    out.push("POST");
    out.push("PUT");
    out.push("DELETE");
    out.push("PATCH");
    out.push("AND");
    out.push("OR");
    out.push("SELECT");
    out.push("FROM");
    out.push("WHERE");
    out.push("LIMIT");
    assert(views(out@) =~= keyword_list());
    out
}

/// A character of a path: an ASCII letter or digit, an underscore or a
/// point, and the two characters beyond ASCII that fold to an ASCII letter,
/// the long s and the Kelvin sign.
pub open spec fn is_path_char(c: char) -> bool {
    is_ascii_letter(c) || is_ascii_digit(c) || c == '_' || c == '.' || c == '\u{17f}' || c
        == '\u{212a}'
}

/// Whether a character can stand in a path.
pub fn path_char(c: char) -> (r: bool)
    ensures
        r == is_path_char(c),
{
    ('a' <= c && c <= 'z') || ('A' <= c && c <= 'Z') || ('0' <= c && c <= '9') || c == '_' || c
        == '.' || c == '\u{17f}' || c == '\u{212a}'
}

/// Where the run of path characters that starts at `i` ends.
pub open spec fn path_end(s: Seq<char>, i: int) -> int
    decreases s.len() - i,
{
    if 0 <= i < s.len() && is_path_char(s[i]) {
        path_end(s, i + 1)
    } else {
        i
    }
}

/// The path that the word `FROM` at `i` names: the word in any case, white
/// space after it, and then the path, one character at least. The result is
/// where the path starts and ends.
pub open spec fn from_at(s: Seq<char>, i: int) -> Option<(int, int)> {
    let after = i + "FROM"@.len();
    let start = skip_spaces(s, after);
    if 0 <= i < s.len() && has_prefix_ignore_case(s.skip(i), "FROM"@) && after < start < s.len()
        && is_path_char(s[start]) {
        Some((start, path_end(s, start)))
    } else {
        None
    }
}

/// The path of the first `FROM` at or after `i` that names one.
pub open spec fn first_from(s: Seq<char>, i: int) -> Option<(int, int)>
    decreases s.len() - i,
{
    if 0 <= i < s.len() {
        match from_at(s, i) {
            Some(found) => Some(found),
            None => first_from(s, i + 1),
        }
    } else {
        None
    }
}

/// The segments of the path that the first `FROM` of a text names, split at
/// the points; no segments where there is none.
pub open spec fn from_path_of(s: Seq<char>) -> Seq<Seq<char>> {
    match first_from(s, 0) {
        Some((start, end)) => split(s.subrange(start, end), '.'),
        None => Seq::empty(),
    }
}

/// The path that the word `FROM` at `i` names, if it names one.
fn from_path_at(s: &Vec<char>, i: usize, word: &Vec<char>) -> (r: Option<(usize, usize)>)
    requires
        i < s.len(),
        word@ == "FROM"@,
    ensures
        match r {
            Some((start, end)) => from_at(s@, i as int) == Some((start as int, end as int))
                && start <= end <= s.len(),
            None => from_at(s@, i as int) is None,
        },
{
    if word.len() > s.len() - i {
        return None;
    }
    let here = slice(s, i, i + word.len());
    assert(here@ =~= s@.skip(i as int).take(word.len() as int));
    if !equals_ignore_case(&here, word) {
        return None;
    }
    let after = i + word.len();
    let mut start: usize = after;
    while start < s.len() && is_space_char(s[start])
        invariant
            after <= start <= s.len(),
            skip_spaces(s@, start as int) == skip_spaces(s@, after as int),
        decreases s.len() - start,
    {
        start += 1;
    }
    if !(after < start && start < s.len() && path_char(s[start])) {
        return None;
    }
    let mut end: usize = start;
    while end < s.len() && path_char(s[end])
        invariant
            start <= end <= s.len(),
            path_end(s@, end as int) == path_end(s@, start as int),
        decreases s.len() - end,
    {
        end += 1;
    }
    Some((start, end))
}

/// The segments of the path that the first `FROM` of a script names.
pub fn extract_from_path(text: &str) -> (r: Vec<String>)
    ensures
        views(r@) == from_path_of(text@),
{
    let s = to_chars(text);
    let word = to_chars("FROM");
    let mut i: usize = 0;
    while i < s.len()
        invariant
            i <= s.len(),
            word@ == "FROM"@,
            s@ == text@,
            first_from(s@, i as int) == first_from(s@, 0),
        decreases s.len() - i,
    {
        match from_path_at(&s, i, &word) {
            Some((start, end)) => {
                let path = slice(&s, start, end);
                let pieces = split_on(&path, '.');
                return strings(&pieces);
            },
            None => {},
        }
        i += 1;
    }
    let none: Vec<String> = Vec::new();
    assert(views(none@) =~= Seq::<Seq<char>>::empty());
    none
}

/// The value that `path` leads to from its key `k` on, as far as it can be
/// followed: the key `body` is passed over, and the walk stops at the value
/// that is no object or does not hold the next key.
pub open spec fn follow_from(value: JsonValue, path: Seq<Seq<char>>, k: int) -> JsonValue
    decreases path.len() - k,
{
    if 0 <= k < path.len() {
        if path[k] == "body"@ {
            follow_from(value, path, k + 1)
        } else {
            match value {
                JsonValue::Object(members) => match member(members, path[k]) {
                    Some(inner) => follow_from(inner, path, k + 1),
                    None => value,
                },
                _ => value,
            }
        }
    } else {
        value
    }
}

/// Follows `path` into a document as far as it leads.
pub fn resolve_json_path<'a>(json: &'a Json, path: &Vec<String>) -> (r: &'a Json)
    ensures
        r@ == follow_from(json@, views(path@), 0),
{
    let ghost keys = views(path@);
    let body = "body".to_owned();
    let mut current: &Json = json;
    let mut k: usize = 0;
    let mut done = false;
    while !done && k < path.len()
        invariant
            k <= path.len(),
            keys == views(path@),
            body@ == "body"@,
            !done ==> follow_from(current@, keys, k as int) == follow_from(json@, keys, 0),
            done ==> current@ == follow_from(json@, keys, 0),
        decreases path.len() - k + (if done { 0int } else { 1int }),
    {
        let key = &path[k];
        assert(keys[k as int] == key@);
        if *key == body {
            k += 1;
        } else {
            match current {
                Json::Object(members) => {
                    proof {
                        lemma_object_view(*members);
                    }
                    match find_member(members, key) {
                        Some(i) => {
                            assert(member_values(members@)[i as int].1 == members@[i as int].1@);
                            current = &members[i].1;
                            k += 1;
                        },
                        None => {
                            done = true;
                        },
                    }
                },
                _ => {
                    done = true;
                },
            }
        }
    }
    current
}

/// The value whose keys are offered: the first item of an array that has
/// one, and any other value itself.
pub open spec fn sample_of(found: JsonValue) -> JsonValue {
    match found {
        JsonValue::Array(items) => if items.len() > 0 {
            items[0]
        } else {
            found
        },
        _ => found,
    }
}

/// The keys of an object, in its order; nothing for any other value.
pub open spec fn keys_of(value: JsonValue) -> Seq<Seq<char>> {
    match value {
        JsonValue::Object(members) => Seq::new(members.len(), |i: int| members[i].0),
        _ => Seq::empty(),
    }
}

/// The field names that a response offers for a script: the keys found
/// under the path that the script's first `FROM` names.
pub open spec fn field_names_of(json: JsonValue, text: Seq<char>) -> Seq<Seq<char>> {
    keys_of(sample_of(follow_from(json, from_path_of(text), 0)))
}

/// The field names to offer for a script, given the last response to it.
pub fn field_names(json: &Json, text: &str) -> (r: Vec<String>)
    ensures
        views(r@) == field_names_of(json@, text@),
{
    let path = extract_from_path(text);
    let found = resolve_json_path(json, &path);
    let sample: &Json = match found {
        Json::Array(items) => {
            proof {
                lemma_array_view(*items);
            }
            if items.len() > 0 {
                assert(values(items@)[0] == items@[0]@);
                &items[0]
            } else {
                found
            }
        },
        _ => found,
    };
    let mut out: Vec<String> = Vec::new();
    match sample {
        Json::Object(members) => {
            proof {
                lemma_object_view(*members);
            }
            let ghost all = member_values(members@);
            let mut i: usize = 0;
            while i < members.len()
                invariant
                    i <= members.len(),
                    all == member_values(members@),
                    views(out@) =~= Seq::new(all.len(), |j: int| all[j].0).take(i as int),
                decreases members.len() - i,
            {
                let key = members[i].0.clone();
                proof {
                    lemma_views_push(out@, key);
                }
                out.push(key);
                i += 1;
            }
            assert(views(out@) =~= keys_of(sample@));
        },
        _ => {
            assert(views(out@) =~= Seq::<Seq<char>>::empty());
        },
    }
    out
}

/// How grave a mark is.
#[derive(Debug, Clone, Copy, PartialEq, Eq, Structural)]
pub enum Severity {
    Error,
    Warning,
}

/// A place in a script to mark, counted from 0, what to say there, how
/// grave it is, and who says it.
pub struct Diagnostic {
    pub start_line: u32,
    pub start_character: u32,
    pub end_line: u32,
    pub end_character: u32,
    pub severity: Severity,
    pub message: String,
    pub source: Option<String>,
}

/// The value of a mark.
pub struct DiagnosticView {
    pub start_line: u32,
    pub start_character: u32,
    pub end_line: u32,
    pub end_character: u32,
    pub severity: Severity,
    pub message: Seq<char>,
    pub source: Option<Seq<char>>,
}

impl View for Diagnostic {
    type V = DiagnosticView;

    open spec fn view(&self) -> DiagnosticView {
        DiagnosticView {
            start_line: self.start_line,
            start_character: self.start_character,
            end_line: self.end_line,
            end_character: self.end_character,
            severity: self.severity,
            message: self.message@,
            source: option_view(self.source),
        }
    }
}

/// The count from 0 of a line or column that is counted from 1, within 32
/// bits; 0 stays 0.
pub open spec fn zero_based(n: int) -> u32 {
    if n as usize as u32 == 0 {
        0
    } else {
        ((n as usize as u32) - 1) as u32
    }
}

/// The mark of a syntax error: an error one character wide at the error's
/// place, with the message of its code. An unexpected end of input has no
/// place and gets no mark.
pub open spec fn syntax_mark(error: ParseErrorView) -> Option<DiagnosticView> {
    match error {
        ParseErrorView::Syntax { line, column, message } => Some(
            DiagnosticView {
                start_line: zero_based(line),
                start_character: zero_based(column),
                end_line: zero_based(line),
                end_character: column as usize as u32,
                severity: Severity::Error,
                message: code_text(message),
                source: Some("apisql"@),
            },
        ),
        ParseErrorView::Eof => None,
    }
}

/// The mark to show for a script that does not parse.
pub fn syntax_diagnostic(error: &ParseError) -> (r: Option<Diagnostic>)
    ensures
        option_view(r) == syntax_mark(error@),
{
    match error {
        ParseError::Syntax { line, column, message } => {
            let row: u32 = #[verifier::truncate]
            (*line as u32);
            let col: u32 = #[verifier::truncate]
            (*column as u32);
            Some(
                Diagnostic {
                    start_line: if row == 0 {
                        0
                    } else {
                        row - 1
                    },
                    start_character: if col == 0 {
                        0
                    } else {
                        col - 1
                    },
                    end_line: if row == 0 {
                        0
                    } else {
                        row - 1
                    },
                    end_character: col,
                    severity: Severity::Error,
                    message: message.to_string(),
                    source: Some("apisql".to_owned()),
                },
            )
        },
        ParseError::Eof => None,
    }
}

/// The mark of a response that could not be fetched: a warning at the start
/// of the script that says why.
pub open spec fn fetch_mark(reason: Seq<char>) -> DiagnosticView {
    DiagnosticView {
        start_line: 0,
        start_character: 0,
        end_line: 0,
        end_character: 0,
        severity: Severity::Warning,
        message: "Failed to fetch data: "@ + reason,
        source: None,
    }
}

/// The mark to show for a script whose request failed.
pub fn fetch_diagnostic(reason: &str) -> (r: Diagnostic)
    ensures
        r@ == fetch_mark(reason@),
{
    let mut message: Vec<char> = Vec::new();
    push_text(&mut message, "Failed to fetch data: ");
    push_text(&mut message, reason);
    assert(message@ =~= "Failed to fetch data: "@ + reason@);
    Diagnostic {
        start_line: 0,
        start_character: 0,
        end_line: 0,
        end_character: 0,
        severity: Severity::Warning,
        message: to_text(&message),
        source: None,
    }
}

/// What to do with a script that was opened or changed: fetch the response
/// to its first request, if it has one, or mark its error.
pub enum Validation<'a> {
    Fetch(&'a RequestBlock),
    Mark(Diagnostic),
    Nothing,
}

/// Decides what to do with a script from the outcome of parsing it.
pub fn validation<'a>(parsed: &'a Result<Program, ParseError>) -> (r: Validation<'a>)
    ensures
        match *parsed {
            Ok(program) => if program.request_blocks.len() > 0 {
                r matches Validation::Fetch(request) && *request == program.request_blocks@[0]
            } else {
                r is Nothing
            },
            Err(error) => match syntax_mark(error@) {
                Some(mark) => r matches Validation::Mark(made) && made@ == mark,
                None => r is Nothing,
            },
        },
{
    match parsed {
        Ok(program) => {
            if program.request_blocks.len() > 0 {
                Validation::Fetch(&program.request_blocks[0])
            } else {
                Validation::Nothing
            }
        },
        Err(error) => match syntax_diagnostic(error) {
            Some(mark) => Validation::Mark(mark),
            None => Validation::Nothing,
        },
    }
}

} // verus!
