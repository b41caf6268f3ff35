//! The variable resolver: one pass that puts the declared variables into
//! request URLs, header values, plain field names and expression literals.

use vstd::prelude::*;
use crate::ast::{
    Expression, ExpressionView, Header, HeaderView, Literal, LiteralView, Program, ProgramView,
    QueryBlockView, RequestBlock, RequestBlockView, ResponseBlock, SelectClause,
    SelectClauseView, SelectField, SelectFieldView, VarDeclaration, VarDeclarationView,
};
use crate::number::{float_bits, parse_float};
use crate::text::{
    append, eq_ignore_case, equals_ignore_case, is_ident_part, is_ident_part_char, is_ident_start,
    is_ident_start_char, is_placeholder, identifier_in, lemma_views_push, option_view, same_text,
    slice, to_chars, to_text, views,
};

verus! {

/// The value of the last declaration of `name`, if it is declared.
pub open spec fn lookup(vars: Seq<VarDeclarationView>, name: Seq<char>) -> Option<Seq<char>>
    decreases vars.len(),
{
    if vars.len() == 0 {
        None
    } else if vars.last().name == name {
        Some(vars.last().value)
    } else {
        lookup(vars.drop_last(), name)
    }
}

/// The value of the last declaration of `name`, if it is declared.
pub fn find_variable(vars: &Vec<VarDeclaration>, name: &Vec<char>) -> (r: Option<Vec<char>>)
    ensures
        match r {
            Some(value) => lookup(views(vars@), name@) == Some(value@),
            None => lookup(views(vars@), name@) is None,
        },
{
    let ghost all = views(vars@);
    let mut i: usize = vars.len();
    assert(all.take(i as int) =~= all);
    while i > 0
        invariant
            i <= vars.len(),
            all == views(vars@),
            lookup(all.take(i as int), name@) == lookup(all, name@),
        decreases i,
    {
        let declared = to_chars(vars[i - 1].name.as_str());
        proof {
            assert(all.take(i as int).last() == vars@[i - 1]@);
            assert(all.take(i as int).drop_last() =~= all.take(i - 1));
        }
        if same_text(&declared, name) {
            return Some(to_chars(vars[i - 1].value.as_str()));
        }
        i -= 1;
    }
    None
}

/// Where the run of identifier characters that starts at `i` ends.
pub open spec fn ident_end(s: Seq<char>, i: int) -> int
    decreases s.len() - i,
{
    if 0 <= i < s.len() && is_ident_part(s[i]) {
        ident_end(s, i + 1)
    } else {
        i
    }
}

/// The run of identifier characters from `i` on lies within the text,
/// holds such characters only, and the character after it is none.
pub proof fn lemma_ident_end(s: Seq<char>, i: int)
    requires
        0 <= i <= s.len(),
    ensures
        i <= ident_end(s, i) <= s.len(),
        forall|j: int| i <= j < ident_end(s, i) ==> is_ident_part(#[trigger] s[j]),
        ident_end(s, i) < s.len() ==> !is_ident_part(s[ident_end(s, i)]),
    decreases s.len() - i,
{
    if i < s.len() && is_ident_part(s[i]) {
        lemma_ident_end(s, i + 1);
    }
}

/// Where the placeholder `{name}` that starts at `i` ends, if one starts
/// there: a `{`, an identifier, and a `}` directly after it.
pub open spec fn placeholder_end(s: Seq<char>, i: int) -> Option<int> {
    if 0 <= i && i + 2 < s.len() && s[i] == '{' && is_ident_start(s[i + 1]) && ident_end(s, i + 2)
        < s.len() && s[ident_end(s, i + 2)] == '}' {
        Some(ident_end(s, i + 2) + 1)
    } else {
        None
    }
}

/// `s` from `i` on, with each placeholder of a declared name replaced by
/// the name's value. Placeholders are found from the left and do not
/// overlap; one of an unknown name stays as it is.
pub open spec fn substitute_from(s: Seq<char>, i: int, vars: Seq<VarDeclarationView>) -> Seq<char>
    decreases s.len() - i,
{
    if 0 <= i < s.len() {
        match placeholder_end(s, i) {
            Some(end) => {
                proof {
                    lemma_ident_end(s, i + 2);
                }
                let put = match lookup(vars, s.subrange(i + 1, end - 1)) {
                    Some(value) => value,
                    None => s.subrange(i, end),
                };
                put + substitute_from(s, end, vars)
            },
            None => seq![s[i]] + substitute_from(s, i + 1, vars),
        }
    } else {
        Seq::empty()
    }
}

/// `s` with its placeholders replaced.
pub open spec fn substitute(s: Seq<char>, vars: Seq<VarDeclarationView>) -> Seq<char> {
    substitute_from(s, 0, vars)
}

/// Where the placeholder that starts at `i` ends.
fn placeholder_at(s: &Vec<char>, i: usize) -> (r: Option<usize>)
    requires
        i < s.len(),
    ensures
        match r {
            Some(end) => placeholder_end(s@, i as int) == Some(end as int) && i + 2 < end
                <= s.len(),
            None => placeholder_end(s@, i as int) is None,
        },
{
    if !(s.len() - i > 2 && s[i] == '{' && is_ident_start_char(s[i + 1])) {
        return None;
    }
    let mut e: usize = i + 2;
    while e < s.len() && is_ident_part_char(s[e])
        invariant
            i + 2 <= e <= s.len(),
            ident_end(s@, e as int) == ident_end(s@, i + 2),
        decreases s.len() - e,
    {
        e += 1;
    }
    if e < s.len() && s[e] == '}' {
        Some(e + 1)
    } else {
        None
    }
}

/// A text with its placeholders replaced.
pub fn replace_vars(s: &Vec<char>, vars: &Vec<VarDeclaration>) -> (r: Vec<char>)
    ensures
        r@ == substitute(s@, views(vars@)),
{
    let mut out: Vec<char> = Vec::new();
    let mut i: usize = 0;
    let ghost all = views(vars@);
    assert(out@ + substitute_from(s@, 0, all) =~= substitute(s@, all));
    while i < s.len()
        invariant
            i <= s.len(),
            all == views(vars@),
            out@ + substitute_from(s@, i as int, all) == substitute(s@, all),
        decreases s.len() - i,
    {
        let ghost before = out@;
        match placeholder_at(s, i) {
            Some(end) => {
                let name = slice(s, i + 1, end - 1);
                match find_variable(vars, &name) {
                    Some(value) => {
                        append(&mut out, &value);
                        assert(before + (value@ + substitute_from(s@, end as int, all)) =~= out@
                            + substitute_from(s@, end as int, all));
                    },
                    None => {
                        let kept = slice(s, i, end);
                        append(&mut out, &kept);
                        assert(before + (kept@ + substitute_from(s@, end as int, all)) =~= out@
                            + substitute_from(s@, end as int, all));
                    },
                }
                i = end;
            },
            None => {
                out.push(s[i]);
                assert(before + (seq![s@[i as int]] + substitute_from(s@, i + 1, all)) =~= out@
                    + substitute_from(s@, i + 1, all));
                i += 1;
            },
        }
    }
    assert(out@ + Seq::<char>::empty() =~= out@);
    out
}

/// The text `s` with its placeholders replaced, as a string.
pub fn replace_in(s: &String, vars: &Vec<VarDeclaration>) -> (r: String)
    ensures
        r@ == substitute(s@, views(vars@)),
{
    let chars = to_chars(s.as_str());
    let replaced = replace_vars(&chars, vars);
    to_text(&replaced)
}

/// The literal that a variable's value stands for: a number where the value
/// writes a double, a boolean where it is `true` or `false` in any case, and
/// the value itself as a string otherwise.
pub open spec fn typed_value(value: Seq<char>) -> LiteralView {
    if float_bits(value) is Some {
        LiteralView::NumberLiteral(float_bits(value)->0)
    } else if eq_ignore_case(value, "true"@) {
        LiteralView::BooleanLiteral(true)
    } else if eq_ignore_case(value, "false"@) {
        LiteralView::BooleanLiteral(false)
    } else {
        LiteralView::StringLiteral(value)
    }
}

/// What a string literal becomes. A literal that is one placeholder and
/// nothing else, of a declared name, becomes the typed value of that name;
/// of an unknown name it stays. Any other literal stays a string, with the
/// placeholders in it replaced.
pub open spec fn resolved_literal(text: Seq<char>, vars: Seq<VarDeclarationView>) -> LiteralView {
    if is_placeholder(text) {
        match lookup(vars, text.subrange(1, text.len() - 1)) {
            Some(value) => typed_value(value),
            None => LiteralView::StringLiteral(text),
        }
    } else {
        LiteralView::StringLiteral(substitute(text, vars))
    }
}

/// An expression with its variables put in: its string literals resolved,
/// everything else as it was.
pub open spec fn resolved_expr(e: ExpressionView, vars: Seq<VarDeclarationView>) -> ExpressionView
    decreases e,
{
    match e {
        ExpressionView::LiteralExpr(LiteralView::StringLiteral(text)) => {
            ExpressionView::LiteralExpr(resolved_literal(text, vars))
        },
        ExpressionView::LiteralExpr(other) => e,
        ExpressionView::FieldPathExpr(path) => e,
        ExpressionView::BinaryOpExpr { left, op, right } => ExpressionView::BinaryOpExpr {
            left: Box::new(resolved_expr(*left, vars)),
            op: op,
            right: Box::new(resolved_expr(*right, vars)),
        },
    }
}

/// The literal that a value stands for.
fn typed_literal(value: &Vec<char>) -> (r: Literal)
    ensures
        r@ == typed_value(value@),
{
    match parse_float(value) {
        Some(bits) => Literal::NumberLiteral(bits),
        None => {
            let yes = to_chars("true");
            let no = to_chars("false");
            if equals_ignore_case(value, &yes) {
                Literal::BooleanLiteral(true)
            } else if equals_ignore_case(value, &no) {
                Literal::BooleanLiteral(false)
            } else {
                Literal::StringLiteral(to_text(value))
            }
        },
    }
}

/// What a string literal becomes.
fn resolve_literal(text: &String, vars: &Vec<VarDeclaration>) -> (r: Literal)
    ensures
        r@ == resolved_literal(text@, views(vars@)),
{
    let chars = to_chars(text.as_str());
    let n = chars.len();
    if n >= 3 && chars[0] == '{' && chars[n - 1] == '}' && identifier_in(&chars, 1, n - 1) {
        let name = slice(&chars, 1, n - 1);
        match find_variable(vars, &name) {
            Some(value) => typed_literal(&value),
            None => Literal::StringLiteral(to_text(&chars)),
        }
    } else {
        let replaced = replace_vars(&chars, vars);
        Literal::StringLiteral(to_text(&replaced))
    }
}

/// Puts the variables into an expression.
pub fn resolve_expr(expr: &mut Expression, vars: &Vec<VarDeclaration>)
    ensures
        final(expr)@ == resolved_expr(old(expr)@, views(vars@)),
    decreases *old(expr),
{
    match expr {
        Expression::LiteralExpr(lit) => {
            let next = match lit {
                Literal::StringLiteral(text) => Some(resolve_literal(text, vars)),
                _ => None,
            };
            match next {
                Some(resolved) => {
                    *lit = resolved;
                },
                None => {},
            }
        },
        Expression::FieldPathExpr(_) => {},
        Expression::BinaryOpExpr { left, right, .. } => {
            resolve_expr(left, vars);
            resolve_expr(right, vars);
        },
    }
}

/// Headers with the variables put into their values.
pub open spec fn resolved_headers(headers: Seq<HeaderView>, vars: Seq<VarDeclarationView>) -> Seq<
    HeaderView,
> {
    Seq::new(
        headers.len(),
        |k: int| HeaderView { key: headers[k].key, value: substitute(headers[k].value, vars) },
    )
}

/// A request with the variables put into its URL and header values.
pub open spec fn resolved_request(
    request: RequestBlockView,
    vars: Seq<VarDeclarationView>,
) -> RequestBlockView {
    RequestBlockView {
        url: substitute(request.url, vars),
        headers: resolved_headers(request.headers, vars),
        ..request
    }
}

/// An expression that may be absent, with the variables put in.
pub open spec fn resolved_filter(
    filter: Option<ExpressionView>,
    vars: Seq<VarDeclarationView>,
) -> Option<ExpressionView> {
    match filter {
        Some(e) => Some(resolved_expr(e, vars)),
        None => None,
    }
}

/// A projection with the variables put in: into the names of plain
/// fields, and into the expressions of object fields, not into their
/// aliases.
pub open spec fn resolved_select(
    select: SelectClauseView,
    vars: Seq<VarDeclarationView>,
) -> SelectClauseView {
    match select {
        SelectClauseView::Fields(names) => SelectClauseView::Fields(
            Seq::new(names.len(), |k: int| substitute(names[k], vars)),
        ),
        SelectClauseView::Objects(fields) => SelectClauseView::Objects(
            Seq::new(
                fields.len(),
                |k: int|
                    SelectFieldView {
                        alias: fields[k].alias,
                        expression: resolved_filter(fields[k].expression, vars),
                    },
            ),
        ),
    }
}

/// A query with the variables put into its filter and its projection.
pub open spec fn resolved_query(
    query: QueryBlockView,
    vars: Seq<VarDeclarationView>,
) -> QueryBlockView {
    QueryBlockView {
        select_clause: resolved_select(query.select_clause, vars),
        where_clause: resolved_filter(query.where_clause, vars),
        ..query
    }
}

/// The declarations of a script: those of its `USING` block, or none.
pub open spec fn declared(program: ProgramView) -> Seq<VarDeclarationView> {
    match program.using_block {
        Some(vars) => vars,
        None => Seq::empty(),
    }
}

/// A script with its variables put into every request and every query.
pub open spec fn resolved_program(program: ProgramView) -> ProgramView {
    ProgramView {
        using_block: program.using_block,
        request_blocks: Seq::new(
            program.request_blocks.len(),
            |k: int| resolved_request(program.request_blocks[k], declared(program)),
        ),
        response_blocks: Seq::new(
            program.response_blocks.len(),
            |k: int| resolved_query(program.response_blocks[k], declared(program)),
        ),
    }
}

/// Puts the variables into the value of a header.
fn resolve_header(header: &mut Header, vars: &Vec<VarDeclaration>)
    ensures
        final(header)@ == (HeaderView {
            key: old(header)@.key,
            value: substitute(old(header)@.value, views(vars@)),
        }),
{
    let value = replace_in(&header.value, vars);
    header.value = value;
}

/// Puts the variables into the expression of a field.
fn resolve_field(field: &mut SelectField, vars: &Vec<VarDeclaration>)
    ensures
        final(field)@ == (SelectFieldView {
            alias: old(field)@.alias,
            expression: resolved_filter(old(field)@.expression, views(vars@)),
        }),
{
    resolve_filter(&mut field.expression, vars);
}

/// Puts the variables into the values of all headers.
fn resolve_headers(headers: &mut Vec<Header>, vars: &Vec<VarDeclaration>)
    ensures
        views(final(headers)@) == resolved_headers(views(old(headers)@), views(vars@)),
{
    let ghost before = views(headers@);
    let ghost all = views(vars@);
    let mut k: usize = 0;
    while k < headers.len()
        invariant
            k <= headers.len(),
            headers.len() == before.len(),
            all == views(vars@),
            forall|j: int|
                0 <= j < k ==> #[trigger] headers@[j]@ == resolved_headers(before, all)[j],
            forall|j: int| k <= j < headers.len() ==> #[trigger] headers@[j]@ == before[j],
        decreases headers.len() - k,
    {
        resolve_header(&mut headers[k], vars);
        k += 1;
    }
    assert(views(headers@) =~= resolved_headers(before, all));
}

/// Puts the variables into a request.
fn resolve_request(request: &mut RequestBlock, vars: &Vec<VarDeclaration>)
    ensures
        final(request)@ == resolved_request(old(request)@, views(vars@)),
{
    let url = replace_in(&request.url, vars);
    request.url = url;
    resolve_headers(&mut request.headers, vars);
}

/// Puts the variables into an expression that may be absent.
fn resolve_filter(filter: &mut Option<Expression>, vars: &Vec<VarDeclaration>)
    ensures
        option_view(*final(filter)) == resolved_filter(option_view(*old(filter)), views(vars@)),
{
    match filter {
        Some(expression) => {
            resolve_expr(expression, vars);
        },
        None => {},
    }
}

/// Puts the variables into a projection.
fn resolve_select(select: &mut SelectClause, vars: &Vec<VarDeclaration>)
    ensures
        final(select)@ == resolved_select(old(select)@, views(vars@)),
{
    let ghost all = views(vars@);
    match select {
        SelectClause::Fields(names) => {
            let ghost before = views(names@);
            let mut k: usize = 0;
            while k < names.len()
                invariant
                    k <= names.len(),
                    names.len() == before.len(),
                    all == views(vars@),
                    forall|j: int|
                        0 <= j < k ==> #[trigger] names@[j]@ == substitute(before[j], all),
                    forall|j: int| k <= j < names.len() ==> #[trigger] names@[j]@ == before[j],
                decreases names.len() - k,
            {
                let name = replace_in(&names[k], vars);
                names[k] = name;
                k += 1;
            }
            assert(views(names@) =~= Seq::new(before.len(), |j: int| substitute(before[j], all)));
        },
        SelectClause::Objects(fields) => {
            let ghost before = views(fields@);
            let mut k: usize = 0;
            while k < fields.len()
                invariant
                    k <= fields.len(),
                    fields.len() == before.len(),
                    all == views(vars@),
                    forall|j: int|
                        0 <= j < k ==> #[trigger] fields@[j]@ == (SelectFieldView {
                            alias: before[j].alias,
                            expression: resolved_filter(before[j].expression, all),
                        }),
                    forall|j: int| k <= j < fields.len() ==> #[trigger] fields@[j]@ == before[j],
                decreases fields.len() - k,
            {
                resolve_field(&mut fields[k], vars);
                k += 1;
            }
            assert(views(fields@) =~= Seq::new(
                before.len(),
                |j: int|
                    SelectFieldView {
                        alias: before[j].alias,
                        expression: resolved_filter(before[j].expression, all),
                    },
            ));
        },
    }
}

/// Puts the variables into a query.
fn resolve_response(response: &mut ResponseBlock, vars: &Vec<VarDeclaration>)
    ensures
        final(response)@ == resolved_query(old(response)@, views(vars@)),
{
    resolve_filter(&mut response.query.where_clause, vars);
    resolve_select(&mut response.query.select_clause, vars);
}

/// A copy of the declarations.
fn copy_declarations(vars: &Vec<VarDeclaration>) -> (r: Vec<VarDeclaration>)
    ensures
        views(r@) == views(vars@),
{
    let mut out: Vec<VarDeclaration> = Vec::new();
    let mut i: usize = 0;
    while i < vars.len()
        invariant
            i <= vars.len(),
            views(out@) =~= views(vars@).take(i as int),
        decreases vars.len() - i,
    {
        let item = VarDeclaration { name: vars[i].name.clone(), value: vars[i].value.clone() };
        proof {
            lemma_views_push(out@, item);
        }
        out.push(item);
        i += 1;
    }
    assert(views(vars@).take(vars.len() as int) =~= views(vars@));
    out
}

/// Puts the declared variables into every request and every query of a
/// script, once.
pub fn unroll_handlers(program: &mut Program)
    ensures
        final(program)@ == resolved_program(old(program)@),
{
    let ghost before = program@;
    let vars: Vec<VarDeclaration> = match &program.using_block {
        Some(block) => copy_declarations(&block.var_declarations),
        None => Vec::new(),
    };
    assert(views(vars@) =~= declared(before));
    let ghost all = views(vars@);
    let mut i: usize = 0;
    while i < program.request_blocks.len()
        invariant
            i <= program.request_blocks.len(),
            program.request_blocks.len() == before.request_blocks.len(),
            all == views(vars@),
            program@.using_block == before.using_block,
            program@.response_blocks == before.response_blocks,
            forall|j: int|
                0 <= j < i ==> #[trigger] program.request_blocks@[j]@ == resolved_request(
                    before.request_blocks[j],
                    all,
                ),
            forall|j: int|
                i <= j < program.request_blocks.len() ==> #[trigger] program.request_blocks@[j]@
                    == before.request_blocks[j],
        decreases program.request_blocks.len() - i,
    {
        resolve_request(&mut program.request_blocks[i], &vars);
        i += 1;
    }
    let ghost requests = views(program.request_blocks@);
    assert(requests =~= resolved_program(before).request_blocks);
    let mut k: usize = 0;
    while k < program.response_blocks.len()
        invariant
            k <= program.response_blocks.len(),
            program.response_blocks.len() == before.response_blocks.len(),
            all == views(vars@),
            program@.using_block == before.using_block,
            program@.request_blocks == requests,
            forall|j: int|
                0 <= j < k ==> #[trigger] program.response_blocks@[j]@ == resolved_query(
                    before.response_blocks[j],
                    all,
                ),
            forall|j: int|
                k <= j < program.response_blocks.len() ==> #[trigger] program.response_blocks@[j]@
                    == before.response_blocks[j],
        decreases program.response_blocks.len() - k,
    {
        resolve_response(&mut program.response_blocks[k], &vars);
        k += 1;
    }
    assert(views(program.response_blocks@) =~= resolved_program(before).response_blocks);
}

} // verus!
