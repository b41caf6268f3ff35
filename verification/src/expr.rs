//! Expressions: the tokens of an expression text, and the tree they form.

use vstd::prelude::*;
use crate::ast::{BinaryOp, Expression, ExpressionView, FieldPath, Literal, LiteralView};
use crate::errors::{ErrorCodes, ErrorCodesView, ParseError, ParseErrorView};
use crate::number::{float_bits, parse_float};
use crate::pattern::{regex_is_match, regex_match, was_found};
use crate::text::{
    copy, eq_ignore_case, equals_ignore_case, find_char, has_char, has_prefix_ignore_case,
    identifier_like, check_identifier_like, is_ident_part, is_ident_part_char, is_quoted, join,
    join_range, lemma_views_push, quoted, slice, split, split_on, split_words, strip_quotes,
    result_view, to_chars, to_text, trim, trim_all, trimmed, trimmed_strings, unquoted,
    fold_upper, same_text, upper_fold, uppercase_of, views, words,
};

verus! {

/// A character that can stand inside a word: for ASCII a letter, a digit or
/// an underscore, and beyond ASCII whatever the class `\w` of regular
/// expressions holds.
pub open spec fn is_word_char(c: char) -> bool {
    if (c as u32) < 128 {
        is_ident_part(c)
    } else {
        regex_match("^\\w$"@, seq![c]) == Ok::<bool, Seq<char>>(true)
    }
}

/// Whether a character can stand inside a word.
pub fn word_char(c: char) -> (r: bool)
    ensures
        r == is_word_char(c),
{
    if (c as u32) < 128 {
        is_ident_part_char(c)
    } else {
        let mut one = String::new();
        one.push(c);
        assert(one@ =~= seq![c]);
        was_found(&regex_is_match("^\\w$", one.as_str()))
    }
}

/// The comparisons of two characters: `>=`, `<=`, `!=`, `==` and `=~`.
pub open spec fn two_char_operator(a: char, b: char) -> bool {
    ||| a == '>' && b == '='
    ||| a == '<' && b == '='
    ||| a == '!' && b == '='
    ||| a == '=' && b == '='
    ||| a == '=' && b == '~'
}

/// The comparisons of one character: `>`, `<` and `=`.
pub open spec fn one_char_operator(a: char) -> bool {
    a == '>' || a == '<' || a == '='
}

/// The word `w` stands at `i` in `t`, in any case, with no word character
/// directly before or after it.
pub open spec fn word_at(t: Seq<char>, i: int, w: Seq<char>) -> bool {
    &&& w.len() > 0
    &&& 0 <= i < t.len()
    &&& has_prefix_ignore_case(t.skip(i), w)
    &&& (i == 0 || !is_word_char(t[i - 1]))
    &&& (i + w.len() == t.len() || !is_word_char(t[i + w.len()]))
}

/// The length of the operator that starts at `i`, the longest first: a
/// comparison of two characters, one of a single character, or the word
/// `and` or `or`. Zero when none starts there.
pub open spec fn operator_len(t: Seq<char>, i: int) -> nat {
    if 0 <= i && i + 1 < t.len() && two_char_operator(t[i], t[i + 1]) {
        2
    } else if 0 <= i < t.len() && one_char_operator(t[i]) {
        1
    } else if word_at(t, i, "and"@) {
        "and"@.len()
    } else if word_at(t, i, "or"@) {
        "or"@.len()
    } else {
        0
    }
}

/// The operators of `t` from `i` on, each as a token of its own, and the
/// stretches between them, trimmed; `last` is where the current stretch began.
pub open spec fn chunks_from(t: Seq<char>, last: int, i: int) -> Seq<Seq<char>>
    decreases t.len() - i,
{
    if 0 <= last <= i < t.len() {
        let n = operator_len(t, i);
        if n > 0 {
            let before = if last < i {
                seq![trim(t.subrange(last, i))]
            } else {
                Seq::empty()
            };
            before + seq![t.subrange(i, i + n)] + chunks_from(t, i + n, i + n)
        } else {
            chunks_from(t, last, i + 1)
        }
    } else if 0 <= last < t.len() {
        seq![trim(t.subrange(last, t.len() as int))]
    } else {
        Seq::empty()
    }
}

/// A chunk with a space in it falls into its words; any other stays whole.
pub open spec fn chunk_tokens(chunk: Seq<char>) -> Seq<Seq<char>> {
    if has_char(chunk, ' ') {
        words(chunk)
    } else {
        seq![chunk]
    }
}

/// The tokens of all chunks, in order.
pub open spec fn expand(chunks: Seq<Seq<char>>) -> Seq<Seq<char>>
    decreases chunks.len(),
{
    if chunks.len() == 0 {
        Seq::empty()
    } else {
        expand(chunks.drop_last()) + chunk_tokens(chunks.last())
    }
}

/// The tokens of an expression text.
pub open spec fn tokens_of(s: Seq<char>) -> Seq<Seq<char>> {
    expand(chunks_from(trim(s), 0, 0))
}

/// Whether the word `w` stands at `i`.
fn matches_word(t: &Vec<char>, i: usize, w: &Vec<char>) -> (r: bool)
    requires
        i < t.len(),
    ensures
        r == word_at(t@, i as int, w@),
        r ==> i + w.len() <= t.len(),
{
    if w.len() == 0 || w.len() > t.len() - i {
        return false;
    }
    let here = slice(t, i, i + w.len());
    assert(here@ =~= t@.skip(i as int).take(w.len() as int));
    if !equals_ignore_case(&here, w) {
        return false;
    }
    if i > 0 && word_char(t[i - 1]) {
        return false;
    }
    if i + w.len() < t.len() && word_char(t[i + w.len()]) {
        return false;
    }
    true
}

/// The length of the operator that starts at `i`, or zero.
fn operator_at(t: &Vec<char>, i: usize) -> (n: usize)
    requires
        i < t.len(),
    ensures
        n == operator_len(t@, i as int),
        i + n <= t.len(),
{
    let a = t[i];
    if i + 1 < t.len() {
        let b = t[i + 1];
        if (a == '>' && b == '=') || (a == '<' && b == '=') || (a == '!' && b == '=') || (a == '='
            && b == '=') || (a == '=' && b == '~') {
            return 2;
        }
    }
    if a == '>' || a == '<' || a == '=' {
        return 1;
    }
    let and = to_chars("and");
    if matches_word(t, i, &and) {
        return and.len();
    }
    let or = to_chars("or");
    if matches_word(t, i, &or) {
        return or.len();
    }
    0
}

/// Cuts a text into its operators and the stretches between them.
fn chunks(t: &Vec<char>) -> (r: Vec<Vec<char>>)
    ensures
        views(r@) == chunks_from(t@, 0, 0),
{
    let mut out: Vec<Vec<char>> = Vec::new();
    let mut last: usize = 0;
    let mut i: usize = 0;
    while i < t.len()
        invariant
            last <= i <= t.len(),
            views(out@) + chunks_from(t@, last as int, i as int) == chunks_from(t@, 0, 0),
        decreases t.len() - i,
    {
        let n = operator_at(t, i);
        if n > 0 {
            let ghost start = views(out@);
            let ghost rest = chunks_from(t@, i + n, i + n);
            if last < i {
                let stretch = slice(t, last, i);
                let piece = trimmed(&stretch);
                proof {
                    lemma_views_push(out@, piece);
                }
                out.push(piece);
            }
            let operator = slice(t, i, i + n);
            proof {
                lemma_views_push(out@, operator);
                let before = if last < i {
                    seq![trim(t@.subrange(last as int, i as int))]
                } else {
                    Seq::empty()
                };
                assert(start + (before + seq![operator@] + rest) =~= views(out@.push(operator))
                    + rest);
            }
            out.push(operator);
            i = i + n;
            last = i;
        } else {
            i += 1;
        }
    }
    if last < t.len() {
        let stretch = slice(t, last, t.len());
        let piece = trimmed(&stretch);
        proof {
            lemma_views_push(out@, piece);
            assert(views(out@) + seq![piece@] =~= views(out@).push(piece@));
        }
        out.push(piece);
    } else {
        assert(views(out@) + Seq::<Seq<char>>::empty() =~= views(out@));
    }
    out
}

/// Appends copies of the texts of `more`.
fn append_texts(out: &mut Vec<Vec<char>>, more: &Vec<Vec<char>>)
    ensures
        views(final(out)@) == views(old(out)@) + views(more@),
{
    let ghost start = views(out@);
    let mut i: usize = 0;
    while i < more.len()
        invariant
            i <= more.len(),
            views(out@) =~= start + views(more@).take(i as int),
        decreases more.len() - i,
    {
        let item = copy(&more[i]);
        proof {
            lemma_views_push(out@, item);
        }
        out.push(item);
        i += 1;
    }
    assert(views(more@).take(more.len() as int) =~= views(more@));
}

/// Splits an expression text into its tokens.
pub fn tokenize_expr(s: &Vec<char>) -> (r: Vec<Vec<char>>)
    ensures
        views(r@) == tokens_of(s@),
{
    let t = trimmed(s);
    let pieces = chunks(&t);
    let mut out: Vec<Vec<char>> = Vec::new();
    let mut i: usize = 0;
    assert(views(pieces@).take(0) =~= Seq::<Seq<char>>::empty());
    while i < pieces.len()
        invariant
            i <= pieces.len(),
            views(out@) == expand(views(pieces@).take(i as int)),
        decreases pieces.len() - i,
    {
        let chunk = &pieces[i];
        proof {
            let next = views(pieces@).take(i + 1);
            assert(next.drop_last() =~= views(pieces@).take(i as int));
            assert(next.last() == chunk@);
        }
        if find_char(chunk, ' ').is_some() {
            let parts = split_words(chunk);
            append_texts(&mut out, &parts);
        } else {
            let whole = copy(chunk);
            proof {
                lemma_views_push(out@, whole);
                assert(views(out@).push(whole@) =~= views(out@) + seq![chunk@]);
            }
            out.push(whole);
        }
        i += 1;
    }
    assert(views(pieces@).take(pieces.len() as int) =~= views(pieces@));
    out
}

/// A token whose upper case is `AND` or `OR`.
pub open spec fn is_logical(token: Seq<char>) -> bool {
    upper_fold(token) == "AND"@ || upper_fold(token) == "OR"@
}

/// Index of the first logical word at or after `i`, or the number of tokens.
pub open spec fn logical_from(tokens: Seq<Seq<char>>, i: int) -> int
    decreases tokens.len() - i,
{
    if 0 <= i < tokens.len() && !is_logical(tokens[i]) {
        logical_from(tokens, i + 1)
    } else if i < tokens.len() {
        i
    } else {
        tokens.len() as int
    }
}

/// Index of the first logical word among `tokens`, if there is one.
pub open spec fn first_logical(tokens: Seq<Seq<char>>) -> Option<int> {
    let i = logical_from(tokens, 0);
    if i < tokens.len() {
        Some(i)
    } else {
        None
    }
}

/// The first logical word from `i` on lies within the tokens, is a logical
/// word where it is a token, and no token between `i` and it is one.
pub proof fn lemma_logical_from(tokens: Seq<Seq<char>>, i: int)
    requires
        0 <= i <= tokens.len(),
    ensures
        i <= logical_from(tokens, i) <= tokens.len(),
        logical_from(tokens, i) < tokens.len() ==> is_logical(tokens[logical_from(tokens, i)]),
        forall|j: int| i <= j < logical_from(tokens, i) ==> !is_logical(#[trigger] tokens[j]),
    decreases tokens.len() - i,
{
    if i < tokens.len() && !is_logical(tokens[i]) {
        lemma_logical_from(tokens, i + 1);
    }
}

/// The comparison that a token writes, if it writes one.
pub open spec fn comparison_of(token: Seq<char>) -> Option<BinaryOp> {
    if token.len() == 2 && token[1] == '=' && token[0] == '>' {
        Some(BinaryOp::Gte)
    } else if token.len() == 2 && token[1] == '=' && token[0] == '<' {
        Some(BinaryOp::Lte)
    } else if token.len() == 2 && token[1] == '=' && token[0] == '!' {
        Some(BinaryOp::Neq)
    } else if token.len() == 2 && token[1] == '=' && token[0] == '=' {
        Some(BinaryOp::Eq)
    } else if token.len() == 2 && token[1] == '~' && token[0] == '=' {
        Some(BinaryOp::RegexMatch)
    } else if token.len() == 1 && token[0] == '>' {
        Some(BinaryOp::Gt)
    } else if token.len() == 1 && token[0] == '<' {
        Some(BinaryOp::Lt)
    } else if token.len() == 1 && token[0] == '=' {
        Some(BinaryOp::Eq)
    } else {
        None
    }
}

/// A token whose upper case writes a comparison.
pub open spec fn is_comparison(token: Seq<char>) -> bool {
    comparison_of(upper_fold(token)) is Some
}

/// The comparison that stands for a token that is one: the one that the
/// token itself writes, and equality where it writes none.
pub open spec fn comparison_op(token: Seq<char>) -> BinaryOp {
    match comparison_of(token) {
        Some(op) => op,
        None => BinaryOp::Eq,
    }
}

/// Index of the first comparison at or after `i`, or the number of tokens.
pub open spec fn comparison_from(tokens: Seq<Seq<char>>, i: int) -> int
    decreases tokens.len() - i,
{
    if 0 <= i < tokens.len() && !is_comparison(tokens[i]) {
        comparison_from(tokens, i + 1)
    } else if i < tokens.len() {
        i
    } else {
        tokens.len() as int
    }
}

/// Index of the first comparison among `tokens`, if there is one.
pub open spec fn first_comparison(tokens: Seq<Seq<char>>) -> Option<int> {
    let i = comparison_from(tokens, 0);
    if i < tokens.len() {
        Some(i)
    } else {
        None
    }
}

/// The error of an expression that cannot be read: it has no place in the script.
pub open spec fn unexpected(text: Seq<char>) -> ParseErrorView {
    ParseErrorView::Syntax { line: 0, column: 0, message: ErrorCodesView::UnexpectedToken(text) }
}

/// What a single term denotes. In this order: an identifier, bare or in
/// braces, or a text with a point in it is a field path, split at the points;
/// a quoted text is a string; `true` and `false` are booleans; a text that
/// writes a double is a number; anything else is a string as it stands. Only
/// the empty term is an error.
pub open spec fn term_of(s: Seq<char>) -> Result<ExpressionView, ParseErrorView> {
    let t = trim(s);
    if t.len() == 0 {
        Err(unexpected(s))
    } else if identifier_like(t) || has_char(t, '.') {
        Ok(ExpressionView::FieldPathExpr(trim_all(split(t, '.'))))
    } else if is_quoted(t) {
        Ok(ExpressionView::LiteralExpr(LiteralView::StringLiteral(unquoted(t))))
    } else if eq_ignore_case(t, "true"@) {
        Ok(ExpressionView::LiteralExpr(LiteralView::BooleanLiteral(true)))
    } else if eq_ignore_case(t, "false"@) {
        Ok(ExpressionView::LiteralExpr(LiteralView::BooleanLiteral(false)))
    } else if float_bits(t) is Some {
        Ok(ExpressionView::LiteralExpr(LiteralView::NumberLiteral(float_bits(t)->0)))
    } else {
        Ok(ExpressionView::LiteralExpr(LiteralView::StringLiteral(t)))
    }
}

/// `AND` for a token whose upper case is `AND`, `OR` for any other logical
/// word.
pub open spec fn logical_of(token: Seq<char>) -> BinaryOp {
    if upper_fold(token) == "AND"@ {
        BinaryOp::And
    } else {
        BinaryOp::Or
    }
}

/// The operator over two sides that were read, or the first error among
/// them, the left side first.
pub open spec fn binary(
    left: Result<ExpressionView, ParseErrorView>,
    op: BinaryOp,
    right: Result<ExpressionView, ParseErrorView>,
) -> Result<ExpressionView, ParseErrorView> {
    match left {
        Err(e) => Err(e),
        Ok(l) => match right {
            Err(e) => Err(e),
            Ok(r) => Ok(
                ExpressionView::BinaryOpExpr { left: Box::new(l), op: op, right: Box::new(r) },
            ),
        },
    }
}

/// The expression that `tokens` form, where `text` is the text they were
/// taken from. The first logical word splits the tokens in two, and each
/// side is an expression of its own, so a chain of logical words nests to
/// the right. Without a logical word the first comparison splits them into
/// two terms. Without any operator the whole text is one term. A side of a
/// split is read from its tokens with single spaces between them.
pub open spec fn expression_of_tokens(tokens: Seq<Seq<char>>, text: Seq<char>) -> Result<
    ExpressionView,
    ParseErrorView,
>
    decreases tokens.len(),
{
    if tokens.len() == 0 {
        Err(unexpected(text))
    } else {
        let at = logical_from(tokens, 0);
        if 0 <= at < tokens.len() {
            let left = tokens.take(at);
            let right = tokens.skip(at + 1);
            binary(
                expression_of_tokens(left, join(left)),
                logical_of(tokens[at]),
                expression_of_tokens(right, join(right)),
            )
        } else {
            match first_comparison(tokens) {
                Some(i) => binary(
                    term_of(join(tokens.take(i))),
                    comparison_op(tokens[i]),
                    term_of(join(tokens.skip(i + 1))),
                ),
                None => term_of(text),
            }
        }
    }
}

/// The expression that a text writes.
pub open spec fn expression_of(s: Seq<char>) -> Result<ExpressionView, ParseErrorView> {
    expression_of_tokens(tokens_of(s), s)
}

/// Whether a token is a logical word.
fn logical_word(token: &Vec<char>) -> (r: bool)
    ensures
        r == is_logical(token@),
{
    let and = to_chars("AND");
    let or = to_chars("OR");
    let up = fold_upper(token);
    same_text(&up, &and) || same_text(&up, &or)
}

/// The first of `tokens` that is `AND` or `OR` in any case: its index, and
/// the word in upper case.
pub fn find_top_level_logical(tokens: &[String]) -> (r: Option<(usize, String)>)
    ensures
        match r {
            Some((i, word)) => first_logical(views(tokens@)) == Some(i as int) && word@
                == upper_fold(tokens@[i as int]@) && word@ == uppercase_of(tokens@[i as int]@),
            None => first_logical(views(tokens@)) is None,
        },
{
    let mut i: usize = 0;
    while i < tokens.len()
        invariant
            i <= tokens.len(),
            logical_from(views(tokens@), i as int) == logical_from(views(tokens@), 0),
        decreases tokens.len() - i,
    {
        let token = to_chars(tokens[i].as_str());
        assert(views(tokens@)[i as int] == token@);
        if logical_word(&token) {
            let up = fold_upper(&token);
            return Some((i, to_text(&up)));
        }
        i += 1;
    }
    None
}

/// Index of the first logical word in `tokens[from..to]`, or `to`.
fn first_logical_in(tokens: &Vec<Vec<char>>, from: usize, to: usize) -> (r: usize)
    requires
        from <= to <= tokens.len(),
    ensures
        r - from == logical_from(views(tokens@).subrange(from as int, to as int), 0),
        from <= r <= to,
{
    let ghost part = views(tokens@).subrange(from as int, to as int);
    let mut i: usize = from;
    while i < to
        invariant
            from <= i <= to <= tokens.len(),
            part == views(tokens@).subrange(from as int, to as int),
            logical_from(part, i - from) == logical_from(part, 0),
        decreases to - i,
    {
        assert(part[i - from] == tokens@[i as int]@);
        if logical_word(&tokens[i]) {
            return i;
        }
        i += 1;
    }
    to
}

/// The comparison that a token writes.
fn comparison(token: &Vec<char>) -> (r: Option<BinaryOp>)
    ensures
        r == comparison_of(token@),
{
    let n = token.len();
    if n == 2 && token[1] == '=' && token[0] == '>' {
        Some(BinaryOp::Gte)
    } else if n == 2 && token[1] == '=' && token[0] == '<' {
        Some(BinaryOp::Lte)
    } else if n == 2 && token[1] == '=' && token[0] == '!' {
        Some(BinaryOp::Neq)
    } else if n == 2 && token[1] == '=' && token[0] == '=' {
        Some(BinaryOp::Eq)
    } else if n == 2 && token[1] == '~' && token[0] == '=' {
        Some(BinaryOp::RegexMatch)
    } else if n == 1 && token[0] == '>' {
        Some(BinaryOp::Gt)
    } else if n == 1 && token[0] == '<' {
        Some(BinaryOp::Lt)
    } else if n == 1 && token[0] == '=' {
        Some(BinaryOp::Eq)
    } else {
        None
    }
}

/// The first comparison in `tokens[from..to]`, with its index.
fn first_comparison_in(tokens: &Vec<Vec<char>>, from: usize, to: usize) -> (r: Option<
    (usize, BinaryOp),
>)
    requires
        from <= to <= tokens.len(),
    ensures
        match r {
            Some((i, op)) => from <= i < to && first_comparison(
                views(tokens@).subrange(from as int, to as int),
            ) == Some(i - from) && op == comparison_op(tokens@[i as int]@),
            None => first_comparison(views(tokens@).subrange(from as int, to as int)) is None,
        },
{
    let ghost part = views(tokens@).subrange(from as int, to as int);
    let mut i: usize = from;
    while i < to
        invariant
            from <= i <= to <= tokens.len(),
            part == views(tokens@).subrange(from as int, to as int),
            comparison_from(part, i - from) == comparison_from(part, 0),
        decreases to - i,
    {
        assert(part[i - from] == tokens@[i as int]@);
        let up = fold_upper(&tokens[i]);
        if comparison(&up).is_some() {
            let op = match comparison(&tokens[i]) {
                Some(op) => op,
                None => BinaryOp::Eq,
            };
            return Some((i, op));
        }
        i += 1;
    }
    None
}

/// The error for a text that is no expression.
fn unexpected_token(text: &Vec<char>) -> (r: ParseError)
    ensures
        r@ == unexpected(text@),
{
    ParseError::Syntax { line: 0, column: 0, message: ErrorCodes::UnexpectedToken(to_text(text)) }
}

/// Reads a single term.
pub fn parse_term(s: &Vec<char>) -> (r: Result<Expression, ParseError>)
    ensures
        result_view(r) == term_of(s@),
{
    let t = trimmed(s);
    if t.len() == 0 {
        return Err(unexpected_token(s));
    }
    if check_identifier_like(&t) || find_char(&t, '.').is_some() {
        let pieces = split_on(&t, '.');
        return Ok(Expression::FieldPathExpr(FieldPath { path: trimmed_strings(&pieces) }));
    }
    if quoted(&t) {
        let content = strip_quotes(&t);
        return Ok(Expression::LiteralExpr(Literal::StringLiteral(to_text(&content))));
    }
    let yes = to_chars("true");
    if equals_ignore_case(&t, &yes) {
        return Ok(Expression::LiteralExpr(Literal::BooleanLiteral(true)));
    }
    let no = to_chars("false");
    if equals_ignore_case(&t, &no) {
        return Ok(Expression::LiteralExpr(Literal::BooleanLiteral(false)));
    }
    match parse_float(&t) {
        Some(bits) => Ok(Expression::LiteralExpr(Literal::NumberLiteral(bits))),
        None => Ok(Expression::LiteralExpr(Literal::StringLiteral(to_text(&t)))),
    }
}

/// Reads the expression that `tokens[from..to]` form.
fn parse_tokens(tokens: &Vec<Vec<char>>, from: usize, to: usize, text: &Vec<char>) -> (r: Result<
    Expression,
    ParseError,
>)
    requires
        from <= to <= tokens.len(),
    ensures
        result_view(r) == expression_of_tokens(
            views(tokens@).subrange(from as int, to as int),
            text@,
        ),
    decreases to - from,
{
    let ghost part = views(tokens@).subrange(from as int, to as int);
    if from == to {
        return Err(unexpected_token(text));
    }
    let at = first_logical_in(tokens, from, to);
    if at < to {
        proof {
            assert(part.take(at - from) =~= views(tokens@).subrange(from as int, at as int));
            assert(part.skip(at - from + 1) =~= views(tokens@).subrange(at + 1, to as int));
            assert(part[at - from] == tokens@[at as int]@);
        }
        let left_text = join_range(tokens, from, at);
        let right_text = join_range(tokens, at + 1, to);
        let left = parse_tokens(tokens, from, at, &left_text)?;
        let right = parse_tokens(tokens, at + 1, to, &right_text)?;
        let and = to_chars("AND");
        let op = if same_text(&fold_upper(&tokens[at]), &and) {
            BinaryOp::And
        } else {
            BinaryOp::Or
        };
        return Ok(Expression::BinaryOpExpr { left: Box::new(left), op, right: Box::new(right) });
    }
    match first_comparison_in(tokens, from, to) {
        Some((i, op)) => {
            proof {
                assert(part.take(i - from) =~= views(tokens@).subrange(from as int, i as int));
                assert(part.skip(i - from + 1) =~= views(tokens@).subrange(i + 1, to as int));
                assert(part[i - from] == tokens@[i as int]@);
            }
            let left_text = join_range(tokens, from, i);
            let right_text = join_range(tokens, i + 1, to);
            let left = parse_term(&left_text)?;
            let right = parse_term(&right_text)?;
            Ok(Expression::BinaryOpExpr { left: Box::new(left), op, right: Box::new(right) })
        },
        None => parse_term(text),
    }
}

/// Reads an expression from its characters.
pub fn parse_expression_chars(s: &Vec<char>) -> (r: Result<Expression, ParseError>)
    ensures
        result_view(r) == expression_of(s@),
{
    let tokens = tokenize_expr(s);
    assert(views(tokens@).subrange(0, tokens.len() as int) =~= views(tokens@));
    parse_tokens(&tokens, 0, tokens.len(), s)
}

/// Reads an expression: comparisons of terms, joined by `AND` and `OR`.
pub fn parse_expression(s: &str) -> (r: Result<Expression, ParseError>)
    ensures
        result_view(r) == expression_of(s@),
{
    let chars = to_chars(s);
    parse_expression_chars(&chars)
}

} // verus!
