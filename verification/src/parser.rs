//! The block parser: from the lines of a script to its blocks.

use vstd::prelude::*;
use crate::ast::{
    CacheDuration, FromClause, FromClauseView, FromType, Header, HeaderView, HttpMethods,
    Program, ProgramView, QueryBlock, QueryBlockView, RequestBlock, RequestBlockView,
    ResponseBlock, SelectClause, SelectClauseView, SelectField, SelectFieldView, UsingBlock,
    VarDeclaration, VarDeclarationView,
};
use crate::errors::{ErrorCodes, ErrorCodesView, ParseError, ParseErrorView};
use crate::expr::{expression_of, parse_expression_chars};
use crate::resolve::{resolved_program, unroll_handlers};
use crate::ast::{Expression, ExpressionView};
use crate::text::{
    after_first_space, append, copy, eq_ignore_case, equals_ignore_case, find_char, find_from,
    fold_upper, has_char, has_prefix, index_of, is_space, is_space_char, lemma_find_from,
    lemma_views_push, lines, opens_block, option_view, parse_unsigned, rest_after_space,
    result_view, same_text, slice, split, split_lines, split_on, split_words, starts_with,
    strings, strip_quotes, to_chars, to_text, toplevel_keyword, trim, trim_all, trimmed,
    trimmed_strings, unquoted, unsigned_value, upper_fold, views, words,
};

verus! {

/// A line without its comment, which starts at the first `#` wherever that
/// stands, and without white space around what is left.
pub open spec fn clean_line(line: Seq<char>) -> Seq<char> {
    trim(line.take(find_from(line, '#', 0)))
}

/// The lines of a script, each cleaned.
pub open spec fn clean_lines(input: Seq<char>) -> Seq<Seq<char>> {
    Seq::new(lines(input).len(), |i: int| clean_line(lines(input)[i]))
}

/// The lines of a script, each without its comment and trimmed.
pub fn preprocess(input: &Vec<char>) -> (r: Vec<Vec<char>>)
    ensures
        views(r@) == clean_lines(input@),
{
    let raw = split_lines(input);
    let mut out: Vec<Vec<char>> = Vec::new();
    let mut i: usize = 0;
    while i < raw.len()
        invariant
            i <= raw.len(),
            views(raw@) == lines(input@),
            views(out@) =~= clean_lines(input@).take(i as int),
        decreases raw.len() - i,
    {
        let line = &raw[i];
        assert(views(raw@)[i as int] == line@);
        let end = match find_char(line, '#') {
            Some(at) => at,
            None => line.len(),
        };
        let kept = slice(line, 0, end);
        assert(kept@ =~= line@.take(end as int));
        let cleaned = trimmed(&kept);
        proof {
            lemma_views_push(out@, cleaned);
            lemma_find_from(line@, '#', 0);
            assert(clean_lines(input@)[i as int] == cleaned@);
            assert(clean_lines(input@).take(i + 1) =~= clean_lines(input@).take(i as int).push(
                cleaned@,
            ));
        }
        out.push(cleaned);
        i += 1;
    }
    out
}

/// The two sides of the first colon of a line: the left one trimmed, the
/// right one trimmed and without its quotes. Nothing for a line without colon.
pub open spec fn colon_pair(line: Seq<char>) -> Option<(Seq<char>, Seq<char>)> {
    match index_of(line, ':') {
        Some(c) => Some((trim(line.take(c)), unquoted(line.skip(c + 1)))),
        None => None,
    }
}

/// Splits a line at its first colon.
fn split_at_colon(line: &Vec<char>) -> (r: Option<(Vec<char>, Vec<char>)>)
    ensures
        match r {
            Some((left, right)) => colon_pair(line@) == Some((left@, right@)),
            None => colon_pair(line@) is None,
        },
{
    match find_char(line, ':') {
        Some(c) => {
            let before = slice(line, 0, c);
            let after = slice(line, c + 1, line.len());
            assert(before@ =~= line@.take(c as int));
            assert(after@ =~= line@.skip(c + 1));
            Some((trimmed(&before), strip_quotes(&after)))
        },
        None => None,
    }
}

/// The error for a line that is no declaration.
pub open spec fn unexpected_line(index: int, line: Seq<char>) -> ParseErrorView {
    ParseErrorView::Syntax {
        line: index + 1,
        column: 1,
        message: ErrorCodesView::UnexpectedToken(line),
    }
}

/// The declarations of a `USING` block from line `i` on, after `vars`, and
/// the line at which the script goes on. An empty line ends the block and is
/// passed over; a line that opens a block ends it and stays; any other line
/// is `name: value`, or the whole script is in error at that line.
pub open spec fn using_from(lines: Seq<Seq<char>>, i: int, vars: Seq<VarDeclarationView>) -> Result<
    (Seq<VarDeclarationView>, int),
    ParseErrorView,
>
    decreases lines.len() - i,
{
    if 0 <= i < lines.len() {
        let line = lines[i];
        if line.len() == 0 {
            Ok((vars, i + 1))
        } else if toplevel_keyword(line) {
            Ok((vars, i))
        } else {
            match colon_pair(line) {
                Some((name, value)) => using_from(
                    lines,
                    i + 1,
                    vars.push(VarDeclarationView { name: name, value: value }),
                ),
                None => Err(unexpected_line(i, line)),
            }
        }
    } else {
        Ok((vars, i))
    }
}

/// A `USING` block ends within the script, at or after the line it was
/// read from.
pub proof fn lemma_using_from(lines: Seq<Seq<char>>, i: int, vars: Seq<VarDeclarationView>)
    requires
        0 <= i <= lines.len(),
    ensures
        using_from(lines, i, vars) matches Ok((_, next)) ==> i <= next <= lines.len(),
    decreases lines.len() - i,
{
    if i < lines.len() && lines[i].len() != 0 && !toplevel_keyword(lines[i]) {
        match colon_pair(lines[i]) {
            Some((name, value)) => {
                lemma_using_from(
                    lines,
                    i + 1,
                    vars.push(VarDeclarationView { name: name, value: value }),
                );
            },
            None => {},
        }
    }
}

/// Reads the declarations of a `USING` block from line `start` on.
fn parse_using_block(lines: &Vec<Vec<char>>, start: usize) -> (r: Result<
    (Vec<VarDeclaration>, usize),
    ParseError,
>)
    requires
        start <= lines.len(),
    ensures
        match r {
            Ok((vars, next)) => using_from(views(lines@), start as int, Seq::empty()) == Ok::<
                (Seq<VarDeclarationView>, int),
                ParseErrorView,
            >((views(vars@), next as int)) && start <= next <= lines.len(),
            Err(e) => using_from(views(lines@), start as int, Seq::empty()) == Err::<
                (Seq<VarDeclarationView>, int),
                ParseErrorView,
            >(e@),
        },
{
    let mut vars: Vec<VarDeclaration> = Vec::new();
    let mut i: usize = start;
    assert(views(vars@) =~= Seq::<VarDeclarationView>::empty());
    while i < lines.len()
        invariant
            start <= i <= lines.len(),
            using_from(views(lines@), i as int, views(vars@)) == using_from(
                views(lines@),
                start as int,
                Seq::empty(),
            ),
        decreases lines.len() - i,
    {
        let line = &lines[i];
        assert(views(lines@)[i as int] == line@);
        if line.len() == 0 {
            return Ok((vars, i + 1));
        }
        if opens_block(line) {
            return Ok((vars, i));
        }
        match split_at_colon(line) {
            Some((name, value)) => {
                let declaration = VarDeclaration { name: to_text(&name), value: to_text(&value) };
                proof {
                    lemma_views_push(vars@, declaration);
                }
                vars.push(declaration);
            },
            None => {
                return Err(
                    ParseError::Syntax {
                        line: i + 1,
                        column: 1,
                        message: ErrorCodes::UnexpectedToken(to_text(line)),
                    },
                );
            },
        }
        i += 1;
    }
    Ok((vars, i))
}

/// What the lines of a `REQUEST` block have set so far.
pub struct RequestParts {
    pub method: HttpMethods,
    pub url: Seq<char>,
    pub headers: Seq<HeaderView>,
    pub cache: CacheDuration,
}

/// Where the word that starts at `i` ends: at the first white space at or
/// after `i`, or at the end.
pub open spec fn word_end(s: Seq<char>, i: int) -> int
    decreases s.len() - i,
{
    if 0 <= i < s.len() && !is_space(s[i]) {
        word_end(s, i + 1)
    } else {
        i
    }
}

/// A line whose upper case starts with `word`.
pub open spec fn opens_with(line: Seq<char>, word: Seq<char>) -> bool {
    has_prefix(upper_fold(line), word)
}

/// The method that a word names, in any case.
pub open spec fn method_named(word: Seq<char>) -> Option<HttpMethods> {
    if upper_fold(word) == "GET"@ {
        Some(HttpMethods::Get)
    } else if upper_fold(word) == "POST"@ {
        Some(HttpMethods::Post)
    } else if upper_fold(word) == "PUT"@ {
        Some(HttpMethods::Put)
    } else if upper_fold(word) == "DELETE"@ {
        Some(HttpMethods::Delete)
    } else if upper_fold(word) == "PATCH"@ {
        Some(HttpMethods::Patch)
    } else {
        None
    }
}

/// The method and the URL of a line whose first word names a method: the
/// URL is what follows the word, trimmed.
pub open spec fn method_of(line: Seq<char>) -> Option<(HttpMethods, Seq<char>)> {
    let end = word_end(line, 0);
    match method_named(line.take(end)) {
        Some(method) => Some((method, trim(line.skip(end)))),
        None => None,
    }
}

/// `line` without the keyword `word` that it starts with, trimmed.
fn after_keyword(line: &Vec<char>, word: &Vec<char>) -> (r: Vec<char>)
    requires
        word.len() <= line.len(),
    ensures
        r@ == trim(line@.skip(word.len() as int)),
{
    let rest = slice(line, word.len(), line.len());
    assert(rest@ =~= line@.skip(word.len() as int));
    trimmed(&rest)
}

/// The method that a word names.
fn method_by_name(word: &Vec<char>) -> (r: Option<HttpMethods>)
    ensures
        r == method_named(word@),
{
    let get = to_chars("GET");
    let post = to_chars("POST");
    let put = to_chars("PUT");
    let delete = to_chars("DELETE");
    let patch = to_chars("PATCH");
    let up = fold_upper(word);
    if same_text(&up, &get) {
        Some(HttpMethods::Get)
    } else if same_text(&up, &post) {
        Some(HttpMethods::Post)
    } else if same_text(&up, &put) {
        Some(HttpMethods::Put)
    } else if same_text(&up, &delete) {
        Some(HttpMethods::Delete)
    } else if same_text(&up, &patch) {
        Some(HttpMethods::Patch)
    } else {
        None
    }
}

/// Reads a line as method and URL, if its first word names a method.
fn method_line(line: &Vec<char>) -> (r: Option<(HttpMethods, Vec<char>)>)
    ensures
        match r {
            Some((method, url)) => method_of(line@) == Some((method, url@)),
            None => method_of(line@) is None,
        },
{
    let mut end: usize = 0;
    while end < line.len() && !is_space_char(line[end])
        invariant
            end <= line.len(),
            word_end(line@, end as int) == word_end(line@, 0),
        decreases line.len() - end,
    {
        end += 1;
    }
    let word = slice(line, 0, end);
    assert(word@ =~= line@.take(end as int));
    match method_by_name(&word) {
        Some(method) => Some((method, after_keyword(line, &word))),
        None => None,
    }
}

/// A line that can stand under `HEADER`: not empty, not the opening of a
/// block, and with a colon.
pub open spec fn is_header_line(line: Seq<char>) -> bool {
    line.len() > 0 && !toplevel_keyword(line) && colon_pair(line) is Some
}

/// How many header lines stand in a row from line `i` on.
pub open spec fn header_count(lines: Seq<Seq<char>>, i: int) -> nat
    decreases lines.len() - i,
{
    if 0 <= i < lines.len() && is_header_line(lines[i]) {
        1 + header_count(lines, i + 1)
    } else {
        0
    }
}

/// The header that a header line writes.
pub open spec fn header_of(line: Seq<char>) -> HeaderView {
    {
        let pair = colon_pair(line)->0;
        HeaderView { key: pair.0, value: pair.1 }
    }
}

/// The headers of the `count` lines from line `i` on.
pub open spec fn headers_at(lines: Seq<Seq<char>>, i: int, count: nat) -> Seq<HeaderView> {
    Seq::new(count, |k: int| header_of(lines[i + k]))
}

/// The header lines from `i` on end within the script, are header lines
/// all, and the line after them is none.
pub proof fn lemma_header_count(lines: Seq<Seq<char>>, i: int)
    requires
        0 <= i <= lines.len(),
    ensures
        i + header_count(lines, i) <= lines.len(),
        forall|k: int| 0 <= k < header_count(lines, i) ==> is_header_line(#[trigger] lines[i + k]),
        i + header_count(lines, i) < lines.len() ==> !is_header_line(
            lines[i + header_count(lines, i)],
        ),
    decreases lines.len() - i,
{
    if i < lines.len() && is_header_line(lines[i]) {
        lemma_header_count(lines, i + 1);
        assert forall|k: int| 0 <= k < header_count(lines, i) implies is_header_line(
            #[trigger] lines[i + k],
        ) by {
            if k > 0 {
                assert(is_header_line(lines[(i + 1) + (k - 1)]));
            }
        }
    }
}

/// The second word of a line, if it has two words.
pub open spec fn second_word(line: Seq<char>) -> Option<Seq<char>> {
    if words(line).len() >= 2 {
        Some(words(line)[1])
    } else {
        None
    }
}

/// What a `CACHE` line sets: the duration that its second word writes, or
/// what stood before when it writes none.
pub open spec fn cache_of(line: Seq<char>, before: CacheDuration) -> CacheDuration {
    match second_word(line) {
        Some(word) => match unsigned_value(word, u64::MAX as nat) {
            Some(n) => CacheDuration::DurationInSeconds(n as u64),
            None => before,
        },
        None => before,
    }
}

/// The parts of a `REQUEST` block from line `i` on, starting from `parts`,
/// and the line at which the script goes on. An empty line ends the block
/// and is passed over; a line that opens a block ends it and stays. A line
/// that opens with a method sets method and URL; `HEADER` takes the header
/// lines that follow it; `CACHE` sets the duration; any other line is passed
/// over.
pub open spec fn request_from(lines: Seq<Seq<char>>, i: int, parts: RequestParts) -> (
    RequestParts,
    int,
)
    decreases lines.len() - i,
{
    if 0 <= i < lines.len() {
        let line = lines[i];
        if line.len() == 0 {
            (parts, i + 1)
        } else if toplevel_keyword(line) {
            (parts, i)
        } else if method_of(line) is Some {
            request_from(
                lines,
                i + 1,
                with_method(parts, method_of(line)->0),
            )
        } else if opens_with(line, "HEADER "@) {
            let count = header_count(lines, i + 1);
            proof {
                lemma_header_count(lines, i + 1);
            }
            request_from(
                lines,
                i + 1 + count,
                RequestParts { headers: parts.headers + headers_at(lines, i + 1, count), ..parts },
            )
        } else if opens_with(line, "CACHE "@) {
            request_from(lines, i + 1, RequestParts { cache: cache_of(line, parts.cache), ..parts })
        } else {
            request_from(lines, i + 1, parts)
        }
    } else {
        (parts, i)
    }
}

/// A `REQUEST` block ends within the script, at or after the line it was
/// read from.
pub proof fn lemma_request_from(lines: Seq<Seq<char>>, i: int, parts: RequestParts)
    requires
        0 <= i <= lines.len(),
    ensures
        i <= request_from(lines, i, parts).1 <= lines.len(),
    decreases lines.len() - i,
{
    if i < lines.len() {
        let line = lines[i];
        if line.len() == 0 {
        } else if toplevel_keyword(line) {
        } else if method_of(line) is Some {
            lemma_request_from(
                lines,
                i + 1,
                with_method(parts, method_of(line)->0),
            );
        } else if opens_with(line, "HEADER "@) {
            let count = header_count(lines, i + 1);
            lemma_header_count(lines, i + 1);
            lemma_request_from(
                lines,
                i + 1 + count,
                RequestParts { headers: parts.headers + headers_at(lines, i + 1, count), ..parts },
            );
        } else if opens_with(line, "CACHE "@) {
            lemma_request_from(
                lines,
                i + 1,
                RequestParts { cache: cache_of(line, parts.cache), ..parts },
            );
        } else {
            lemma_request_from(lines, i + 1, parts);
        }
    }
}

/// The second word of a line.
fn word_after_first(line: &Vec<char>) -> (r: Option<Vec<char>>)
    ensures
        match r {
            Some(word) => second_word(line@) == Some(word@),
            None => second_word(line@) is None,
        },
{
    let parts = split_words(line);
    if parts.len() >= 2 {
        assert(views(parts@)[1] == parts@[1]@);
        Some(copy(&parts[1]))
    } else {
        None
    }
}

/// Takes the header lines from line `start` on into `headers`.
fn parse_headers(lines: &Vec<Vec<char>>, start: usize, headers: &mut Vec<Header>) -> (next: usize)
    requires
        start <= lines.len(),
    ensures
        next == start + header_count(views(lines@), start as int),
        next <= lines.len(),
        views(final(headers)@) == views(old(headers)@) + headers_at(
            views(lines@),
            start as int,
            header_count(views(lines@), start as int),
        ),
{
    let ghost all = views(lines@);
    let ghost before = views(headers@);
    let mut i: usize = start;
    assert(views(headers@) =~= before + headers_at(all, start as int, 0));
    while i < lines.len()
        invariant
            start <= i <= lines.len(),
            all == views(lines@),
            (i - start) + header_count(all, i as int) == header_count(all, start as int),
            views(headers@) == before + headers_at(all, start as int, (i - start) as nat),
        ensures
            header_count(all, i as int) == 0,
        decreases lines.len() - i,
    {
        let line = &lines[i];
        assert(all[i as int] == line@);
        if line.len() == 0 || opens_block(line) {
            break ;
        }
        match split_at_colon(line) {
            Some((key, value)) => {
                let header = Header { key: to_text(&key), value: to_text(&value) };
                proof {
                    lemma_views_push(headers@, header);
                    assert(header@ == header_of(all[start + (i - start)]));
                    assert(views(headers@).push(header@) =~= before + headers_at(
                        all,
                        start as int,
                        (i - start + 1) as nat,
                    ));
                }
                headers.push(header);
            },
            None => {
                break ;
            },
        }
        i += 1;
    }
    i
}

/// Reads the lines of a `REQUEST` block from line `start` on.
fn parse_request_block(lines: &Vec<Vec<char>>, name: String, start: usize) -> (r: (
    RequestBlock,
    usize,
))
    requires
        start <= lines.len(),
    ensures
        ({
            let (parts, next) = request_from(views(lines@), start as int, request_defaults());
            &&& r.0@ == request_of(name@, parts)
            &&& r.1 == next
            &&& start <= r.1 <= lines.len()
        }),
{
    let mut method = HttpMethods::Get;
    let mut url: Vec<char> = Vec::new();
    let mut headers: Vec<Header> = Vec::new();
    let mut cache = CacheDuration::NoCache;
    let mut i: usize = start;
    let ghost all = views(lines@);
    assert(views(headers@) =~= Seq::<HeaderView>::empty());
    let mut done = false;
    while !done && i < lines.len()
        invariant
            start <= i <= lines.len(),
            all == views(lines@),
            !done ==> request_from(
                all,
                i as int,
                RequestParts { method: method, url: url@, headers: views(headers@), cache: cache },
            ) == request_from(all, start as int, request_defaults()),
            done ==> (
                RequestParts { method: method, url: url@, headers: views(headers@), cache: cache },
                i as int,
            ) == request_from(all, start as int, request_defaults()),
        decreases lines.len() - i + (if done { 0int } else { 1int }),
    {
        let line = &lines[i];
        assert(all[i as int] == line@);
        if line.len() == 0 {
            i += 1;
            done = true;
        } else if opens_block(line) {
            done = true;
        } else {
            let header = to_chars("HEADER ");
            let cache_word = to_chars("CACHE ");
            let up = fold_upper(line);
            match method_line(line) {
                Some((m, u)) => {
                    method = m;
                    url = u;
                    i += 1;
                },
                None => {
                    if starts_with(&up, &header) {
                        i = parse_headers(lines, i + 1, &mut headers);
                    } else if starts_with(&up, &cache_word) {
                        match word_after_first(line) {
                            Some(word) => match parse_unsigned(&word, u64::MAX) {
                                Some(n) => {
                                    cache = CacheDuration::DurationInSeconds(n);
                                },
                                None => {},
                            },
                            None => {},
                        }
                        i += 1;
                    } else {
                        i += 1;
                    }
                },
            }
        }
    }
    (
        RequestBlock {
            name: name,
            method: method,
            url: to_text(&url),
            headers: headers,
            cache: cache,
        },
        i,
    )
}

/// The parts of a request with method and URL set.
pub open spec fn with_method(parts: RequestParts, set: (HttpMethods, Seq<char>)) -> RequestParts {
    RequestParts { method: set.0, url: set.1, ..parts }
}

/// A `REQUEST` block before any of its lines: `GET`, no URL, no headers,
/// no caching.
pub open spec fn request_defaults() -> RequestParts {
    RequestParts {
        method: HttpMethods::Get,
        url: Seq::empty(),
        headers: Seq::empty(),
        cache: CacheDuration::NoCache,
    }
}

/// The request of a name and the parts that its lines set.
pub open spec fn request_of(name: Seq<char>, parts: RequestParts) -> RequestBlockView {
    RequestBlockView {
        name: name,
        method: parts.method,
        url: parts.url,
        headers: parts.headers,
        cache: parts.cache,
    }
}

/// Where a query takes its rows from, as the text after `FROM` says: after
/// `body.` or `response.` the path is what follows, split at the points; any
/// other text, `body` alone too, is itself the path into the body.
pub open spec fn from_clause_of(rest: Seq<char>) -> FromClauseView {
    if has_prefix(rest, "body."@) {
        FromClauseView {
            from_type: FromType::Body,
            path: split(rest.skip("body."@.len() as int), '.'),
        }
    } else if has_prefix(rest, "response."@) {
        FromClauseView {
            from_type: FromType::Response,
            path: split(rest.skip("response."@.len() as int), '.'),
        }
    } else {
        FromClauseView { from_type: FromType::Body, path: split(rest, '.') }
    }
}

/// Reads what stands after `FROM`, from its characters.
pub fn from_clause(rest: &Vec<char>) -> (r: FromClause)
    ensures
        r@ == from_clause_of(rest@),
{
    let body = to_chars("body.");
    let response = to_chars("response.");
    if starts_with(rest, &body) {
        let tail = slice(rest, body.len(), rest.len());
        assert(tail@ =~= rest@.skip(body.len() as int));
        let pieces = split_on(&tail, '.');
        FromClause { from_type: FromType::Body, path: strings(&pieces) }
    } else if starts_with(rest, &response) {
        let tail = slice(rest, response.len(), rest.len());
        assert(tail@ =~= rest@.skip(response.len() as int));
        let pieces = split_on(&tail, '.');
        FromClause { from_type: FromType::Response, path: strings(&pieces) }
    } else {
        let pieces = split_on(rest, '.');
        FromClause { from_type: FromType::Body, path: strings(&pieces) }
    }
}

/// Reads what stands after `FROM` in a query.
pub fn parse_from_clause(rest: &str) -> (r: FromClause)
    ensures
        r@ == from_clause_of(rest@),
{
    let chars = to_chars(rest);
    from_clause(&chars)
}

/// The fields of an object projection from part `k` on, after `fields`. A
/// part is trimmed; an empty one is passed over; one with a colon is an
/// alias and the expression after the colon; any other is an alias alone.
pub open spec fn fields_from(parts: Seq<Seq<char>>, k: int, fields: Seq<SelectFieldView>) -> Result<
    Seq<SelectFieldView>,
    ParseErrorView,
>
    decreases parts.len() - k,
{
    if 0 <= k < parts.len() {
        let part = trim(parts[k]);
        if part.len() == 0 {
            fields_from(parts, k + 1, fields)
        } else {
            match index_of(part, ':') {
                Some(c) => match expression_of(trim(part.skip(c + 1))) {
                    Ok(expression) => fields_from(
                        parts,
                        k + 1,
                        fields.push(
                            SelectFieldView {
                                alias: trim(part.take(c)),
                                expression: Some(expression),
                            },
                        ),
                    ),
                    Err(e) => Err(e),
                },
                None => fields_from(
                    parts,
                    k + 1,
                    fields.push(SelectFieldView { alias: part, expression: None }),
                ),
            }
        }
    } else {
        Ok(fields)
    }
}

/// The fields that the text between the braces of an object projection
/// writes: its parts between commas, in order.
pub open spec fn select_fields_of(text: Seq<char>) -> Result<Seq<SelectFieldView>, ParseErrorView> {
    fields_from(split(text, ','), 0, Seq::empty())
}

/// Reads the fields of an object projection from the text between its braces.
fn parse_select_fields(text: &Vec<char>) -> (r: Result<Vec<SelectField>, ParseError>)
    ensures
        match r {
            Ok(fields) => select_fields_of(text@) == Ok::<Seq<SelectFieldView>, ParseErrorView>(
                views(fields@),
            ),
            Err(e) => select_fields_of(text@) == Err::<Seq<SelectFieldView>, ParseErrorView>(e@),
        },
{
    let parts = split_on(text, ',');
    let ghost all = views(parts@);
    let mut fields: Vec<SelectField> = Vec::new();
    let mut k: usize = 0;
    assert(views(fields@) =~= Seq::<SelectFieldView>::empty());
    while k < parts.len()
        invariant
            k <= parts.len(),
            all == views(parts@),
            all == split(text@, ','),
            fields_from(all, k as int, views(fields@)) == select_fields_of(text@),
        decreases parts.len() - k,
    {
        assert(all[k as int] == parts@[k as int]@);
        let part = trimmed(&parts[k]);
        if part.len() > 0 {
            match find_char(&part, ':') {
                Some(c) => {
                    let left = slice(&part, 0, c);
                    let right = slice(&part, c + 1, part.len());
                    assert(left@ =~= part@.take(c as int));
                    assert(right@ =~= part@.skip(c + 1));
                    let alias = trimmed(&left);
                    let text = trimmed(&right);
                    let expression = parse_expression_chars(&text)?;
                    let field = SelectField {
                        alias: to_text(&alias),
                        expression: Some(expression),
                    };
                    proof {
                        lemma_views_push(fields@, field);
                    }
                    fields.push(field);
                },
                None => {
                    let field = SelectField { alias: to_text(&part), expression: None };
                    proof {
                        lemma_views_push(fields@, field);
                    }
                    fields.push(field);
                },
            }
        }
        k += 1;
    }
    Ok(fields)
}

/// The text between the braces when both stand on one line: from after the
/// first `{` to before the first `}`, trimmed; empty when the `}` comes first.
pub open spec fn inline_capture(line: Seq<char>) -> Seq<char> {
    let open = find_from(line, '{', 0);
    let close = find_from(line, '}', 0);
    if open < close {
        trim(line.subrange(open + 1, close))
    } else {
        Seq::empty()
    }
}

/// The text of an object projection that goes on over several lines, from
/// line `i` on, after `text`: each line joins with a space before it, up to
/// the first line with a `}`, which is cut there. With it comes the line at
/// which the script goes on: the one after the `}`, or the end.
pub open spec fn capture_from(lines: Seq<Seq<char>>, i: int, text: Seq<char>) -> (Seq<char>, int)
    decreases lines.len() - i,
{
    if 0 <= i < lines.len() {
        match index_of(lines[i], '}') {
            Some(close) => (text + seq![' '] + lines[i].take(close), i + 1),
            None => capture_from(lines, i + 1, text + seq![' '] + lines[i]),
        }
    } else {
        (text, lines.len() as int)
    }
}

/// The text between the braces of the object projection that opens on line
/// `i`, and the line at which the script goes on.
pub open spec fn object_capture(lines: Seq<Seq<char>>, i: int) -> (Seq<char>, int) {
    let line = lines[i];
    if has_char(line, '}') {
        (inline_capture(line), i + 1)
    } else {
        capture_from(lines, i + 1, line.skip(find_from(line, '{', 0) + 1))
    }
}

/// The capture of an object projection ends within the script, at or after
/// the line it was read from.
pub proof fn lemma_capture_from(lines: Seq<Seq<char>>, i: int, text: Seq<char>)
    requires
        0 <= i <= lines.len(),
    ensures
        i <= capture_from(lines, i, text).1 <= lines.len(),
    decreases lines.len() - i,
{
    if i < lines.len() {
        match index_of(lines[i], '}') {
            Some(close) => {},
            None => {
                lemma_capture_from(lines, i + 1, text + seq![' '] + lines[i]);
            },
        }
    }
}

/// Takes the text between the braces of the object projection on line `i`.
fn capture_object(lines: &Vec<Vec<char>>, i: usize) -> (r: (Vec<char>, usize))
    requires
        i < lines.len(),
        has_char(lines@[i as int]@, '{'),
    ensures
        ({
            let (text, next) = object_capture(views(lines@), i as int);
            r.0@ == text && r.1 == next
        }),
        i < r.1 <= lines.len(),
{
    let ghost all = views(lines@);
    let line = &lines[i];
    assert(all[i as int] == line@);
    proof {
        lemma_find_from(line@, '{', 0);
        lemma_find_from(line@, '}', 0);
    }
    let open = match find_char(line, '{') {
        Some(at) => at,
        None => line.len(),
    };
    match find_char(line, '}') {
        Some(close) => {
            if open < close {
                let inner = slice(line, open + 1, close);
                (trimmed(&inner), i + 1)
            } else {
                (Vec::new(), i + 1)
            }
        },
        None => {
            let mut text = slice(line, open + 1, line.len());
            assert(text@ =~= line@.skip(open + 1));
            let mut j: usize = i + 1;
            let mut done = false;
            while !done && j < lines.len()
                invariant
                    i < j <= lines.len(),
                    all == views(lines@),
                    !done ==> capture_from(all, j as int, text@) == capture_from(
                        all,
                        i + 1,
                        line@.skip(open + 1),
                    ),
                    done ==> (text@, j as int) == capture_from(all, i + 1, line@.skip(open + 1)),
                decreases lines.len() - j + (if done { 0int } else { 1int }),
            {
                let next = &lines[j];
                assert(all[j as int] == next@);
                let ghost before = text@;
                text.push(' ');
                match find_char(next, '}') {
                    Some(close) => {
                        let head = slice(next, 0, close);
                        assert(head@ =~= next@.take(close as int));
                        append(&mut text, &head);
                        assert(text@ =~= before + seq![' '] + next@.take(close as int));
                        done = true;
                    },
                    None => {
                        append(&mut text, next);
                        assert(text@ =~= before + seq![' '] + next@);
                    },
                }
                j += 1;
            }
            (text, j)
        },
    }
}

/// What the lines of a `RESPONSE` block have set so far.
pub struct QueryParts {
    pub select: Option<SelectClauseView>,
    pub from: Option<FromClauseView>,
    pub filter: Option<ExpressionView>,
    pub limit: Option<u32>,
}

/// A `RESPONSE` block before any of its lines.
pub open spec fn query_defaults() -> QueryParts {
    QueryParts { select: None, from: None, filter: None, limit: None }
}

/// The query of a block: what its lines have set, an empty list of plain
/// fields where no `SELECT` stood, and the whole body where no `FROM` stood.
pub open spec fn query_of(parts: QueryParts) -> QueryBlockView {
    QueryBlockView {
        select_clause: match parts.select {
            Some(select) => select,
            None => SelectClauseView::Fields(Seq::empty()),
        },
        from_clause: match parts.from {
            Some(from) => from,
            None => FromClauseView { from_type: FromType::Body, path: Seq::empty() },
        },
        where_clause: parts.filter,
        limit: parts.limit,
    }
}

/// The error for a `LIMIT` whose value is no unsigned 32-bit number.
pub open spec fn invalid_limit(index: int, word: Seq<char>) -> ParseErrorView {
    ParseErrorView::Syntax {
        line: index + 1,
        column: 1,
        message: ErrorCodesView::InvalidLimitValue(word),
    }
}

/// The parts of a `RESPONSE` block from line `i` on, starting from `parts`,
/// and the line at which the script goes on. Only a line that opens a block
/// ends it; empty lines are passed over. `FROM`, `WHERE`, `SELECT` and
/// `LIMIT` each set their part, the last one winning; `ORDER BY` and any
/// other line change nothing. An expression that cannot be read, or a
/// `LIMIT` that is no number, puts the whole script in error.
pub open spec fn response_from(lines: Seq<Seq<char>>, i: int, parts: QueryParts) -> Result<
    (QueryParts, int),
    ParseErrorView,
>
    decreases lines.len() - i,
{
    if 0 <= i < lines.len() {
        let line = lines[i];
        if line.len() == 0 {
            response_from(lines, i + 1, parts)
        } else if toplevel_keyword(line) {
            Ok((parts, i))
        } else if opens_with(line, "FROM "@) {
            let rest = trim(after_first_space(line));
            response_from(lines, i + 1, QueryParts { from: Some(from_clause_of(rest)), ..parts })
        } else if opens_with(line, "WHERE "@) {
            match expression_of(trim(after_first_space(line))) {
                Ok(filter) => response_from(
                    lines,
                    i + 1,
                    QueryParts { filter: Some(filter), ..parts },
                ),
                Err(e) => Err(e),
            }
        } else if opens_with(line, "ORDER BY "@) {
            response_from(lines, i + 1, parts)
        } else if opens_with(line, "SELECT "@) {
            if has_char(line, '{') {
                let (text, next) = object_capture(lines, i);
                proof {
                    lemma_capture_from(lines, i + 1, line.skip(find_from(line, '{', 0) + 1));
                }
                match select_fields_of(text) {
                    Ok(fields) => response_from(
                        lines,
                        next,
                        QueryParts { select: Some(SelectClauseView::Objects(fields)), ..parts },
                    ),
                    Err(e) => Err(e),
                }
            } else {
                let rest = trim(after_first_space(line));
                response_from(
                    lines,
                    i + 1,
                    QueryParts {
                        select: Some(SelectClauseView::Fields(trim_all(split(rest, ',')))),
                        ..parts
                    },
                )
            }
        } else if opens_with(line, "LIMIT "@) {
            match second_word(line) {
                Some(word) => match unsigned_value(word, u32::MAX as nat) {
                    Some(n) => response_from(
                        lines,
                        i + 1,
                        QueryParts { limit: Some(n as u32), ..parts },
                    ),
                    None => Err(invalid_limit(i, word)),
                },
                None => response_from(lines, i + 1, parts),
            }
        } else {
            response_from(lines, i + 1, parts)
        }
    } else {
        Ok((parts, i))
    }
}

/// A `RESPONSE` block ends within the script, at or after the line it was
/// read from.
pub proof fn lemma_response_from(lines: Seq<Seq<char>>, i: int, parts: QueryParts)
    requires
        0 <= i <= lines.len(),
    ensures
        response_from(lines, i, parts) matches Ok((_, next)) ==> i <= next <= lines.len(),
    decreases lines.len() - i,
{
    if i < lines.len() {
        let line = lines[i];
        if line.len() == 0 {
            lemma_response_from(lines, i + 1, parts);
        } else if toplevel_keyword(line) {
        } else if opens_with(line, "FROM "@) {
            let rest = trim(after_first_space(line));
            lemma_response_from(
                lines,
                i + 1,
                QueryParts { from: Some(from_clause_of(rest)), ..parts },
            );
        } else if opens_with(line, "WHERE "@) {
            match expression_of(trim(after_first_space(line))) {
                Ok(filter) => {
                    lemma_response_from(lines, i + 1, QueryParts { filter: Some(filter), ..parts });
                },
                Err(e) => {},
            }
        } else if opens_with(line, "ORDER BY "@) {
            lemma_response_from(lines, i + 1, parts);
        } else if opens_with(line, "SELECT "@) {
            if has_char(line, '{') {
                let (text, next) = object_capture(lines, i);
                lemma_capture_from(lines, i + 1, line.skip(find_from(line, '{', 0) + 1));
                match select_fields_of(text) {
                    Ok(fields) => {
                        lemma_response_from(
                            lines,
                            next,
                            QueryParts { select: Some(SelectClauseView::Objects(fields)), ..parts },
                        );
                    },
                    Err(e) => {},
                }
            } else {
                let rest = trim(after_first_space(line));
                lemma_response_from(
                    lines,
                    i + 1,
                    QueryParts {
                        select: Some(SelectClauseView::Fields(trim_all(split(rest, ',')))),
                        ..parts
                    },
                );
            }
        } else if opens_with(line, "LIMIT "@) {
            match second_word(line) {
                Some(word) => match unsigned_value(word, u32::MAX as nat) {
                    Some(n) => {
                        lemma_response_from(
                            lines,
                            i + 1,
                            QueryParts { limit: Some(n as u32), ..parts },
                        );
                    },
                    None => {},
                },
                None => {
                    lemma_response_from(lines, i + 1, parts);
                },
            }
        } else {
            lemma_response_from(lines, i + 1, parts);
        }
    }
}

/// What a block's lines have set, as the values they stand for.
pub open spec fn parts_view(
    select: Option<SelectClause>,
    from: Option<FromClause>,
    filter: Option<Expression>,
    limit: Option<u32>,
) -> QueryParts {
    QueryParts {
        select: option_view(select),
        from: option_view(from),
        filter: option_view(filter),
        limit: limit,
    }
}

/// Reads the lines of a `RESPONSE` block from line `start` on.
fn parse_response_block(lines: &Vec<Vec<char>>, start: usize) -> (r: Result<
    (QueryBlock, usize),
    ParseError,
>)
    requires
        start <= lines.len(),
    ensures
        match r {
            Ok((query, next)) => {
                &&& response_from(views(lines@), start as int, query_defaults()) matches Ok(found)
                &&& query@ == query_of(found.0)
                &&& next == found.1
                &&& start <= next <= lines.len()
            },
            Err(e) => response_from(views(lines@), start as int, query_defaults()) == Err::<
                (QueryParts, int),
                ParseErrorView,
            >(e@),
        },
{
    let ghost all = views(lines@);
    let mut select: Option<SelectClause> = None;
    let mut from: Option<FromClause> = None;
    let mut filter: Option<Expression> = None;
    let mut limit: Option<u32> = None;
    let mut i: usize = start;
    let mut done = false;
    let from_word = to_chars("FROM ");
    let where_word = to_chars("WHERE ");
    let order_word = to_chars("ORDER BY ");
    let select_word = to_chars("SELECT ");
    let limit_word = to_chars("LIMIT ");
    while !done && i < lines.len()
        invariant
            start <= i <= lines.len(),
            all == views(lines@),
            from_word@ == "FROM "@,
            where_word@ == "WHERE "@,
            order_word@ == "ORDER BY "@,
            select_word@ == "SELECT "@,
            limit_word@ == "LIMIT "@,
            !done ==> response_from(all, i as int, parts_view(select, from, filter, limit))
                == response_from(all, start as int, query_defaults()),
            done ==> response_from(all, start as int, query_defaults()) == Ok::<
                (QueryParts, int),
                ParseErrorView,
            >((parts_view(select, from, filter, limit), i as int)),
        decreases lines.len() - i + (if done { 0int } else { 1int }),
    {
        let line = &lines[i];
        assert(all[i as int] == line@);
        let up = fold_upper(line);
        if line.len() == 0 {
            i += 1;
        } else if opens_block(line) {
            done = true;
        } else if starts_with(&up, &from_word) {
            let rest = rest_after_space(line);
            from = Some(from_clause(&rest));
            i += 1;
        } else if starts_with(&up, &where_word) {
            let rest = rest_after_space(line);
            let expression = parse_expression_chars(&rest)?;
            filter = Some(expression);
            i += 1;
        } else if starts_with(&up, &order_word) {
            i += 1;
        } else if starts_with(&up, &select_word) {
            if find_char(line, '{').is_some() {
                let (text, next) = capture_object(lines, i);
                let fields = parse_select_fields(&text)?;
                select = Some(SelectClause::Objects(fields));
                i = next;
            } else {
                let rest = rest_after_space(line);
                let pieces = split_on(&rest, ',');
                select = Some(SelectClause::Fields(trimmed_strings(&pieces)));
                i += 1;
            }
        } else if starts_with(&up, &limit_word) {
            match word_after_first(line) {
                Some(word) => match parse_unsigned(&word, 0xFFFF_FFFF) {
                    Some(n) => {
                        limit = Some(n as u32);
                    },
                    None => {
                        return Err(
                            ParseError::Syntax {
                                line: i + 1,
                                column: 1,
                                message: ErrorCodes::InvalidLimitValue(to_text(&word)),
                            },
                        );
                    },
                },
                None => {},
            }
            i += 1;
        } else {
            i += 1;
        }
    }
    let no_fields: Vec<String> = Vec::new();
    let no_path: Vec<String> = Vec::new();
    assert(views(no_fields@) =~= Seq::<Seq<char>>::empty());
    assert(views(no_path@) =~= Seq::<Seq<char>>::empty());
    let query = QueryBlock {
        select_clause: match select {
            Some(clause) => clause,
            None => SelectClause::Fields(no_fields),
        },
        from_clause: match from {
            Some(clause) => clause,
            None => FromClause { from_type: FromType::Body, path: no_path },
        },
        where_clause: filter,
        limit: limit,
    };
    Ok((query, i))
}

/// A script before any of its blocks.
pub open spec fn empty_program() -> ProgramView {
    ProgramView { using_block: None, request_blocks: Seq::empty(), response_blocks: Seq::empty() }
}

/// The blocks of a script from line `i` on, added to `program`. `USING`
/// opens the variables, and a later block replaces an earlier one;
/// `REQUEST` with a name opens a request; `RESPONSE` opens a query. Lines
/// outside any block are passed over.
pub open spec fn blocks_from(lines: Seq<Seq<char>>, i: int, program: ProgramView) -> Result<
    ProgramView,
    ParseErrorView,
>
    decreases lines.len() - i,
{
    if 0 <= i < lines.len() {
        let line = lines[i];
        if line.len() == 0 {
            blocks_from(lines, i + 1, program)
        } else if eq_ignore_case(line, "USING"@) {
            proof {
                lemma_using_from(lines, i + 1, Seq::empty());
            }
            match using_from(lines, i + 1, Seq::empty()) {
                Ok((vars, next)) => blocks_from(
                    lines,
                    next,
                    ProgramView { using_block: Some(vars), ..program },
                ),
                Err(e) => Err(e),
            }
        } else if opens_with(line, "REQUEST "@) {
            proof {
                lemma_request_from(lines, i + 1, request_defaults());
            }
            let name = trim(after_first_space(line));
            let (parts, next) = request_from(lines, i + 1, request_defaults());
            blocks_from(
                lines,
                next,
                ProgramView {
                    request_blocks: program.request_blocks.push(request_of(name, parts)),
                    ..program
                },
            )
        } else if eq_ignore_case(line, "RESPONSE"@) {
            proof {
                lemma_response_from(lines, i + 1, query_defaults());
            }
            match response_from(lines, i + 1, query_defaults()) {
                Ok((parts, next)) => blocks_from(
                    lines,
                    next,
                    ProgramView {
                        response_blocks: program.response_blocks.push(query_of(parts)),
                        ..program
                    },
                ),
                Err(e) => Err(e),
            }
        } else {
            blocks_from(lines, i + 1, program)
        }
    } else {
        Ok(program)
    }
}

/// The blocks that a script writes, before its variables are put in.
pub open spec fn blocks_of(input: Seq<char>) -> Result<ProgramView, ParseErrorView> {
    blocks_from(clean_lines(input), 0, empty_program())
}

/// Reads the blocks of a script and leaves its variables where they stand.
pub fn parse_blocks(input: &Vec<char>) -> (r: Result<Program, ParseError>)
    ensures
        result_view(r) == blocks_of(input@),
{
    let lines = preprocess(input);
    let ghost all = views(lines@);
    let mut using_block: Option<UsingBlock> = None;
    let mut request_blocks: Vec<RequestBlock> = Vec::new();
    let mut response_blocks: Vec<ResponseBlock> = Vec::new();
    let mut i: usize = 0;
    let using_word = to_chars("USING");
    let request_word = to_chars("REQUEST ");
    let response_word = to_chars("RESPONSE");
    assert(views(request_blocks@) =~= Seq::<RequestBlockView>::empty());
    assert(views(response_blocks@) =~= Seq::<QueryBlockView>::empty());
    while i < lines.len()
        invariant
            i <= lines.len(),
            all == views(lines@),
            all == clean_lines(input@),
            using_word@ == "USING"@,
            request_word@ == "REQUEST "@,
            response_word@ == "RESPONSE"@,
            blocks_from(
                all,
                i as int,
                ProgramView {
                    using_block: option_view(using_block),
                    request_blocks: views(request_blocks@),
                    response_blocks: views(response_blocks@),
                },
            ) == blocks_of(input@),
        decreases lines.len() - i,
    {
        let line = &lines[i];
        assert(all[i as int] == line@);
        if line.len() == 0 {
            i += 1;
        } else if equals_ignore_case(line, &using_word) {
            let (vars, next) = parse_using_block(&lines, i + 1)?;
            using_block = Some(UsingBlock { var_declarations: vars });
            i = next;
        } else if starts_with(&fold_upper(line), &request_word) {
            let name = rest_after_space(line);
            let (block, next) = parse_request_block(&lines, to_text(&name), i + 1);
            proof {
                lemma_views_push(request_blocks@, block);
            }
            request_blocks.push(block);
            i = next;
        } else if equals_ignore_case(line, &response_word) {
            let (query, next) = parse_response_block(&lines, i + 1)?;
            let block = ResponseBlock { query: query };
            proof {
                lemma_views_push(response_blocks@, block);
            }
            response_blocks.push(block);
            i = next;
        } else {
            i += 1;
        }
    }
    Ok(
        Program {
            using_block: using_block,
            request_blocks: request_blocks,
            response_blocks: response_blocks,
        },
    )
}

/// The script that a text writes: its blocks, with the declared variables
/// put in. The first error among its lines is the error of the whole text.
pub open spec fn program_of(input: Seq<char>) -> Result<ProgramView, ParseErrorView> {
    match blocks_of(input) {
        Ok(program) => Ok(resolved_program(program)),
        Err(e) => Err(e),
    }
}

/// Parses a script: its `USING`, `REQUEST` and `RESPONSE` blocks, with the
/// variables of the `USING` block put into the requests and queries.
pub fn parse_program(input: &str) -> (r: Result<Program, ParseError>)
    ensures
        result_view(r) == program_of(input@),
{
    let chars = to_chars(input);
    let mut program = parse_blocks(&chars)?;
    unroll_handlers(&mut program);
    Ok(program)
}

} // verus!
