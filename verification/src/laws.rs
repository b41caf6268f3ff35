//! What holds of parsing and querying as a whole, proved from the
//! definitions of the single steps.

use vstd::prelude::*;
use crate::ast::{
    BinaryOp, ExpressionView, FromType, ProgramView, QueryBlockView, SelectClauseView,
    VarDeclarationView,
};
use crate::errors::{ParseErrorView, QueryErrorView};
use crate::expr::{
    binary, expression_of_tokens, is_logical, logical_from, logical_of, term_of,
};
use crate::json::{member, JsonValue};
use crate::parser::{
    blocks_from, blocks_of, clean_lines, empty_program, from_clause_of, opens_with, program_of,
    query_defaults, query_of, response_from, QueryParts,
};
use crate::query::{
    descend, descend_from, eval, execute, fields_from, kept_rows, limited, missing_field, passes,
    project, project_all, project_from, rows_of,
};
use crate::resolve::{resolved_expr, resolved_program, resolved_select};
use crate::text::{
    after_first_space, all_ascii, drop_spaces_back, eq_ignore_case, find_from, has_prefix,
    is_space, join, skip_spaces, split, split_from, toplevel_keyword, trim, upper, upper_fold,
    upper_text,
};

verus! {

/// The results of the queries of a script on a document, in the order of its
/// `RESPONSE` blocks, or the error with which the script does not parse.
pub open spec fn results_of(text: Seq<char>, body: JsonValue) -> Result<
    Seq<Result<JsonValue, QueryErrorView>>,
    ParseErrorView,
> {
    match program_of(text) {
        Ok(program) => Ok(
            Seq::new(
                program.response_blocks.len(),
                |k: int| execute(program.response_blocks[k], body),
            ),
        ),
        Err(e) => Err(e),
    }
}

/// Parsing and then querying is a function of the text and the document:
/// the same text and the same document give the same results.
pub proof fn lemma_parse_then_execute_is_deterministic(
    text: Seq<char>,
    same_text: Seq<char>,
    body: JsonValue,
    same_body: JsonValue,
)
    requires
        text == same_text,
        body == same_body,
    ensures
        program_of(text) == program_of(same_text),
        results_of(text, body) == results_of(same_text, same_body),
{
}

/// A limit only cuts the list that the query gives without it: with the
/// limit `n` the result is the first `n` rows of the unlimited result, or all
/// of them where there are fewer, and an error stays the same error.
pub proof fn lemma_limit_cuts_the_unlimited_result(query: QueryBlockView, n: u32, body: JsonValue)
    ensures
        match execute(QueryBlockView { limit: None, ..query }, body) {
            Ok(JsonValue::Array(rows)) => execute(QueryBlockView { limit: Some(n), ..query }, body)
                == Ok::<JsonValue, QueryErrorView>(
                JsonValue::Array(
                    rows.take(
                        if n < rows.len() {
                            n as int
                        } else {
                            rows.len() as int
                        },
                    ),
                ),
            ),
            Ok(_) => false,
            Err(e) => execute(QueryBlockView { limit: Some(n), ..query }, body) == Err::<
                JsonValue,
                QueryErrorView,
            >(e),
        },
{
    let unlimited = QueryBlockView { limit: None, ..query };
    match execute(unlimited, body) {
        Ok(JsonValue::Array(rows)) => {
            assert(rows.take(rows.len() as int) =~= rows);
        },
        _ => {},
    }
}

/// With the limit 0 a query that does not fail gives the empty array.
pub proof fn lemma_limit_zero_gives_nothing(query: QueryBlockView, body: JsonValue)
    requires
        execute(QueryBlockView { limit: None, ..query }, body) is Ok,
    ensures
        execute(QueryBlockView { limit: Some(0), ..query }, body) == Ok::<
            JsonValue,
            QueryErrorView,
        >(JsonValue::Array(Seq::empty())),
{
    lemma_limit_cuts_the_unlimited_result(query, 0, body);
    match execute(QueryBlockView { limit: None, ..query }, body) {
        Ok(JsonValue::Array(rows)) => {
            assert(rows.take(0) =~= Seq::<JsonValue>::empty());
        },
        _ => {},
    }
}

/// Somewhere in the expression stands a field path that cannot be followed
/// on the row.
pub open spec fn has_failing_path(e: ExpressionView, row: JsonValue) -> bool
    decreases e,
{
    match e {
        ExpressionView::LiteralExpr(_) => false,
        ExpressionView::FieldPathExpr(path) => descend(row, path) is Err,
        ExpressionView::BinaryOpExpr { left, op, right } => has_failing_path(*left, row)
            || has_failing_path(*right, row),
    }
}

/// An expression with a field path that cannot be followed on a row has no
/// value on that row, whatever else it holds.
pub proof fn lemma_failing_path_fails(e: ExpressionView, row: JsonValue)
    requires
        has_failing_path(e, row),
    ensures
        eval(e, row) is Err,
    decreases e,
{
    match e {
        ExpressionView::BinaryOpExpr { left, op, right } => {
            if has_failing_path(*left, row) {
                lemma_failing_path_fails(*left, row);
            } else {
                lemma_failing_path_fails(*right, row);
            }
        },
        _ => {},
    }
}

/// A row on which the filter names a key that is missing is dropped: it
/// does not pass, and the query goes on without it.
pub proof fn lemma_missing_key_in_filter_drops_row(
    condition: ExpressionView,
    rows: Seq<JsonValue>,
    row: JsonValue,
)
    requires
        has_failing_path(condition, row),
    ensures
        !passes(Some(condition), row),
        kept_rows(rows.push(row), Some(condition)) == kept_rows(rows, Some(condition)),
{
    lemma_failing_path_fails(condition, row);
    assert(rows.push(row).drop_last() =~= rows);
}

/// A logical word before which, from `i` on, no token is one is the first
/// logical word from `i` on.
pub proof fn lemma_first_logical_at(tokens: Seq<Seq<char>>, i: int, at: int)
    requires
        0 <= i <= at < tokens.len(),
        forall|j: int| i <= j < at ==> !is_logical(#[trigger] tokens[j]),
        is_logical(tokens[at]),
    ensures
        logical_from(tokens, i) == at,
    decreases at - i,
{
    if i < at {
        lemma_first_logical_at(tokens, i + 1, at);
    }
}

/// The expression that a list of tokens forms when it is read by itself.
pub open spec fn expression_of_side(tokens: Seq<Seq<char>>) -> Result<
    ExpressionView,
    ParseErrorView,
> {
    expression_of_tokens(tokens, join(tokens))
}

/// `a AND b OR c` is read as `a AND (b OR c)`: where `a`, `b` and `c` hold no
/// logical word, the tokens `a`, `AND`, `b`, `OR`, `c` form the conjunction
/// of `a` with the disjunction of `b` and `c`. The first logical word splits,
/// whichever it is, so `a OR b AND c` is `a OR (b AND c)` in the same way.
pub proof fn lemma_logical_words_nest_to_the_right(
    a: Seq<Seq<char>>,
    first: Seq<char>,
    b: Seq<Seq<char>>,
    second: Seq<char>,
    c: Seq<Seq<char>>,
    text: Seq<char>,
)
    requires
        is_logical(first),
        is_logical(second),
        forall|j: int| 0 <= j < a.len() ==> !is_logical(#[trigger] a[j]),
        forall|j: int| 0 <= j < b.len() ==> !is_logical(#[trigger] b[j]),
        forall|j: int| 0 <= j < c.len() ==> !is_logical(#[trigger] c[j]),
    ensures
        expression_of_tokens(a + seq![first] + b + seq![second] + c, text) == binary(
            expression_of_side(a),
            logical_of(first),
            binary(expression_of_side(b), logical_of(second), expression_of_side(c)),
        ),
{
    let all = a + seq![first] + b + seq![second] + c;
    let rest = b + seq![second] + c;
    assert(all[a.len() as int] == first);
    assert forall|j: int| 0 <= j < a.len() implies !is_logical(#[trigger] all[j]) by {
        assert(all[j] == a[j]);
    }
    lemma_first_logical_at(all, 0, a.len() as int);
    assert(all.take(a.len() as int) =~= a);
    assert(all.skip(a.len() as int + 1) =~= rest);
    assert(rest[b.len() as int] == second);
    assert forall|j: int| 0 <= j < b.len() implies !is_logical(#[trigger] rest[j]) by {
        assert(rest[j] == b[j]);
    }
    lemma_first_logical_at(rest, 0, b.len() as int);
    assert(rest.take(b.len() as int) =~= b);
    assert(rest.skip(b.len() as int + 1) =~= c);
    assert(expression_of_side(rest) == binary(
        expression_of_side(b),
        logical_of(second),
        expression_of_side(c),
    ));
}

/// On three conditions that are booleans on a row, the conjunction of the
/// first with the disjunction of the other two is `a && (b || c)`.
pub proof fn lemma_and_over_or_value(
    first: ExpressionView,
    second: ExpressionView,
    third: ExpressionView,
    row: JsonValue,
    a: bool,
    b: bool,
    c: bool,
)
    requires
        eval(first, row) == Ok::<JsonValue, QueryErrorView>(JsonValue::Bool(a)),
        eval(second, row) == Ok::<JsonValue, QueryErrorView>(JsonValue::Bool(b)),
        eval(third, row) == Ok::<JsonValue, QueryErrorView>(JsonValue::Bool(c)),
    ensures
        eval(
            ExpressionView::BinaryOpExpr {
                left: Box::new(first),
                op: BinaryOp::And,
                right: Box::new(
                    ExpressionView::BinaryOpExpr {
                        left: Box::new(second),
                        op: BinaryOp::Or,
                        right: Box::new(third),
                    },
                ),
            },
            row,
        ) == Ok::<JsonValue, QueryErrorView>(JsonValue::Bool(a && (b || c))),
{
    let inner = ExpressionView::BinaryOpExpr {
        left: Box::new(second),
        op: BinaryOp::Or,
        right: Box::new(third),
    };
    assert(eval(inner, row) == Ok::<JsonValue, QueryErrorView>(JsonValue::Bool(b || c)));
}

/// Every item of `part` is an item of `whole`.
pub open spec fn within(part: Seq<JsonValue>, whole: Seq<JsonValue>) -> bool {
    forall|i: int| 0 <= i < part.len() ==> whole.contains(#[trigger] part[i])
}

/// Without a filter every row is kept.
pub proof fn lemma_no_filter_keeps_all(rows: Seq<JsonValue>)
    ensures
        kept_rows(rows, None) == rows,
    decreases rows.len(),
{
    if rows.len() > 0 {
        lemma_no_filter_keeps_all(rows.drop_last());
        assert(rows.drop_last().push(rows.last()) =~= rows);
    }
}

/// Every row that a filter keeps is one of the rows it was given.
pub proof fn lemma_kept_rows_within(rows: Seq<JsonValue>, filter: Option<ExpressionView>)
    ensures
        within(kept_rows(rows, filter), rows),
    decreases rows.len(),
{
    if rows.len() > 0 {
        lemma_kept_rows_within(rows.drop_last(), filter);
        let head = kept_rows(rows.drop_last(), filter);
        let kept = kept_rows(rows, filter);
        assert forall|i: int| 0 <= i < kept.len() implies rows.contains(#[trigger] kept[i]) by {
            if i < head.len() {
                assert(kept[i] == head[i]);
                let j = choose|j: int|
                    0 <= j < rows.drop_last().len() && rows.drop_last()[j] == head[i];
                assert(rows[j] == head[i]);
            } else {
                assert(kept[i] == rows.last());
                assert(rows[rows.len() - 1] == rows.last());
            }
        }
    }
}

/// Projecting from row `k` on after `out` gives `out` and then what the
/// rows from `k` on give by themselves.
pub proof fn lemma_project_from_appends(
    select: SelectClauseView,
    rows: Seq<JsonValue>,
    k: int,
    out: Seq<JsonValue>,
)
    requires
        0 <= k <= rows.len(),
    ensures
        project_from(select, rows, k, out) == match project_from(select, rows, k, Seq::empty()) {
            Ok(more) => Ok::<Seq<JsonValue>, QueryErrorView>(out + more),
            Err(e) => Err(e),
        },
    decreases rows.len() - k,
{
    if k < rows.len() {
        match project(select, rows[k]) {
            Ok(object) => {
                lemma_project_from_appends(select, rows, k + 1, out.push(object));
                lemma_project_from_appends(select, rows, k + 1, Seq::empty().push(object));
                match project_from(select, rows, k + 1, Seq::empty()) {
                    Ok(more) => {
                        assert(out.push(object) + more =~= out + (Seq::empty().push(object)
                            + more));
                    },
                    Err(e) => {},
                }
            },
            Err(e) => {},
        }
    } else {
        assert(out + Seq::<JsonValue>::empty() =~= out);
    }
}

/// Where all rows can be projected, the projections are those of the
/// single rows, in order.
pub proof fn lemma_project_all_rows(select: SelectClauseView, rows: Seq<JsonValue>, k: int)
    requires
        0 <= k <= rows.len(),
    ensures
        match project_from(select, rows, k, Seq::empty()) {
            Ok(objects) => objects.len() == rows.len() - k && forall|i: int|
                0 <= i < objects.len() ==> project(select, rows[k + i]) == Ok::<
                    JsonValue,
                    QueryErrorView,
                >(#[trigger] objects[i]),
            Err(e) => exists|i: int| k <= i < rows.len() && project(select, rows[i]) is Err,
        },
    decreases rows.len() - k,
{
    if k < rows.len() {
        match project(select, rows[k]) {
            Ok(object) => {
                lemma_project_from_appends(select, rows, k + 1, Seq::empty().push(object));
                lemma_project_all_rows(select, rows, k + 1);
                match project_from(select, rows, k + 1, Seq::empty()) {
                    Ok(more) => {
                        let objects = Seq::empty().push(object) + more;
                        assert forall|i: int| 0 <= i < objects.len() implies project(
                            select,
                            rows[k + i],
                        ) == Ok::<JsonValue, QueryErrorView>(#[trigger] objects[i]) by {
                            if i > 0 {
                                assert(objects[i] == more[i - 1]);
                                assert(rows[k + i] == rows[(k + 1) + (i - 1)]);
                            }
                        }
                    },
                    Err(e) => {
                        let i = choose|i: int|
                            k + 1 <= i < rows.len() && project(select, rows[i]) is Err;
                        assert(k <= i < rows.len() && project(select, rows[i]) is Err);
                    },
                }
            },
            Err(e) => {
                assert(k <= k < rows.len() && project(select, rows[k]) is Err);
            },
        }
    }
}

/// A filter only takes rows away. Where the query without filter and
/// without limit gives a list of rows, the same query with any filter, and
/// with any limit, gives a list too, and every row of it is a row of the
/// first list.
pub proof fn lemma_filter_gives_rows_of_the_unfiltered_result(
    query: QueryBlockView,
    condition: ExpressionView,
    body: JsonValue,
)
    requires
        execute(QueryBlockView { where_clause: None, limit: None, ..query }, body) is Ok,
    ensures
        execute(QueryBlockView { where_clause: None, limit: None, ..query }, body) matches Ok(
            JsonValue::Array(all),
        ) && execute(QueryBlockView { where_clause: Some(condition), ..query }, body) matches Ok(
            JsonValue::Array(some),
        ) && within(some, all),
{
    let plain = QueryBlockView { where_clause: None, limit: None, ..query };
    let filtered = QueryBlockView { where_clause: Some(condition), ..query };
    let found = descend(body, query.from_clause.path)->Ok_0;
    let rows = rows_of(found);
    let kept = kept_rows(rows, Some(condition));
    lemma_no_filter_keeps_all(rows);
    lemma_kept_rows_within(rows, Some(condition));
    lemma_project_all_rows(query.select_clause, rows, 0);
    lemma_project_all_rows(query.select_clause, kept, 0);
    let all = project_all(query.select_clause, rows)->Ok_0;
    match project_all(query.select_clause, kept) {
        Ok(some) => {
            let cut = limited(some, query.limit);
            assert forall|i: int| 0 <= i < cut.len() implies all.contains(#[trigger] cut[i]) by {
                assert(cut[i] == some[i]);
                assert(rows.contains(kept[i]));
                let j = choose|j: int| 0 <= j < rows.len() && rows[j] == kept[i];
                assert(project(query.select_clause, rows[0 + j]) == Ok::<
                    JsonValue,
                    QueryErrorView,
                >(all[j]));
                assert(project(query.select_clause, kept[0 + i]) == Ok::<
                    JsonValue,
                    QueryErrorView,
                >(some[i]));
                assert(all[j] == cut[i]);
            }
        },
        Err(e) => {
            let i = choose|i: int|
                0 <= i < kept.len() && project(query.select_clause, kept[i]) is Err;
            assert(rows.contains(kept[i]));
            let j = choose|j: int| 0 <= j < rows.len() && rows[j] == kept[i];
            assert(project(query.select_clause, rows[0 + j]) == Ok::<JsonValue, QueryErrorView>(
                all[j],
            ));
        },
    }
}

/// With the same limit on both sides: where the limit is no less than the
/// number of rows that the query gives without filter and without limit, so
/// that it cuts nothing there, every row of the filtered result is a row of
/// the unfiltered one.
pub proof fn lemma_filter_gives_a_subset(
    query: QueryBlockView,
    condition: ExpressionView,
    body: JsonValue,
)
    requires
        execute(QueryBlockView { where_clause: None, limit: None, ..query }, body) matches Ok(
            JsonValue::Array(full),
        ) && (query.limit matches Some(n) ==> full.len() <= n),
    ensures
        execute(QueryBlockView { where_clause: None, ..query }, body) matches Ok(
            JsonValue::Array(all),
        ) && execute(QueryBlockView { where_clause: Some(condition), ..query }, body) matches Ok(
            JsonValue::Array(some),
        ) && within(some, all),
{
    assert(execute(QueryBlockView { where_clause: None, limit: None, ..query }, body)
        == execute(QueryBlockView { where_clause: None, ..query }, body));
    lemma_filter_gives_rows_of_the_unfiltered_result(query, condition, body);
}

/// A row that cannot be projected aborts the query: where the rows that
/// pass the filter before row `k` can all be projected and row `k` cannot,
/// the error of row `k` is the result of the whole query.
pub proof fn lemma_failing_projection_aborts(
    query: QueryBlockView,
    body: JsonValue,
    k: int,
)
    requires
        query.from_clause.from_type == FromType::Body,
        descend(body, query.from_clause.path) is Ok,
        0 <= k < survivors(query, body).len(),
        forall|i: int|
            0 <= i < k ==> project(query.select_clause, #[trigger] survivors(query, body)[i])
                is Ok,
        project(query.select_clause, survivors(query, body)[k]) is Err,
    ensures
        execute(query, body) == Err::<JsonValue, QueryErrorView>(
            project(query.select_clause, survivors(query, body)[k])->Err_0,
        ),
{
    lemma_first_failure(query.select_clause, survivors(query, body), 0, k, Seq::empty());
}

/// The rows of a document that pass the filter of a query.
pub open spec fn survivors(query: QueryBlockView, body: JsonValue) -> Seq<JsonValue> {
    kept_rows(rows_of(descend(body, query.from_clause.path)->Ok_0), query.where_clause)
}

/// Where the rows from `i` up to `k` can be projected and row `k` cannot,
/// projecting from `i` on fails with the error of row `k`.
pub proof fn lemma_first_failure(
    select: SelectClauseView,
    rows: Seq<JsonValue>,
    i: int,
    k: int,
    out: Seq<JsonValue>,
)
    requires
        0 <= i <= k < rows.len(),
        forall|j: int| i <= j < k ==> project(select, #[trigger] rows[j]) is Ok,
        project(select, rows[k]) is Err,
    ensures
        project_from(select, rows, i, out) == Err::<Seq<JsonValue>, QueryErrorView>(
            project(select, rows[k])->Err_0,
        ),
    decreases k - i,
{
    if i < k {
        assert(project(select, rows[i]) is Ok);
        lemma_first_failure(select, rows, i + 1, k, out.push(project(select, rows[i])->Ok_0));
    }
}

/// A plain field that the row does not hold makes the projection fail with
/// that field as the missing one: where the row is an object that holds
/// the names before `k` and not the name at `k`.
pub proof fn lemma_missing_field_in_select(
    members: Seq<(Seq<char>, JsonValue)>,
    names: Seq<Seq<char>>,
    k: int,
)
    requires
        0 <= k < names.len(),
        forall|j: int| 0 <= j < k ==> member(members, #[trigger] names[j]) is Some,
        member(members, names[k]) is None,
    ensures
        project(SelectClauseView::Fields(names), JsonValue::Object(members)) == Err::<
            JsonValue,
            QueryErrorView,
        >(missing_field(names[k])),
{
    lemma_fields_fail_at(JsonValue::Object(members), members, names, 0, k, Seq::empty());
}

/// Where an object holds the names from `i` up to `k` and not the name at
/// `k`, its plain fields from `i` on fail with that name as the missing one.
pub proof fn lemma_fields_fail_at(
    row: JsonValue,
    members: Seq<(Seq<char>, JsonValue)>,
    names: Seq<Seq<char>>,
    i: int,
    k: int,
    built: Seq<(Seq<char>, JsonValue)>,
)
    requires
        row == JsonValue::Object(members),
        0 <= i <= k < names.len(),
        forall|j: int| i <= j < k ==> member(members, #[trigger] names[j]) is Some,
        member(members, names[k]) is None,
    ensures
        fields_from(row, names, i, built) == Err::<JsonValue, QueryErrorView>(
            missing_field(names[k]),
        ),
    decreases k - i,
{
    reveal_with_fuel(descend_from, 2);
    if i < k {
        assert(member(members, names[i]) is Some);
        let value = member(members, names[i])->0;
        assert(descend(row, seq![names[i]]) == Ok::<JsonValue, QueryErrorView>(value));
        lemma_fields_fail_at(
            row,
            members,
            names,
            i + 1,
            k,
            crate::json::with_member(built, names[i], value),
        );
    } else {
        assert(descend(row, seq![names[k]]) == Err::<JsonValue, QueryErrorView>(
            missing_field(names[k]),
        ));
    }
}

/// Splitting gives one piece at least.
pub proof fn lemma_split_is_not_empty(s: Seq<char>, sep: char, start: int, i: int)
    ensures
        split_from(s, sep, start, i).len() >= 1,
    decreases s.len() - i,
{
    if 0 <= start <= i < s.len() {
        if s[i] == sep {
            lemma_split_is_not_empty(s, sep, i + 1, i + 1);
        } else {
            lemma_split_is_not_empty(s, sep, start, i + 1);
        }
    }
}

/// The field path of a term is never empty: a term that is read as a field
/// path has one segment at least.
pub proof fn lemma_field_path_is_not_empty(s: Seq<char>)
    ensures
        term_of(s) matches Ok(ExpressionView::FieldPathExpr(path)) ==> path.len() >= 1,
{
    lemma_split_is_not_empty(trim(s), '.', 0, 0);
}

/// Two expressions are the same tree but for their literals: a literal
/// stands where a literal stands, a field path where the same field path
/// stands, and an operator where the same operator stands over sides that
/// are the same trees in turn.
pub open spec fn same_structure(a: ExpressionView, b: ExpressionView) -> bool
    decreases a,
{
    match (a, b) {
        (ExpressionView::LiteralExpr(_), ExpressionView::LiteralExpr(_)) => true,
        (ExpressionView::FieldPathExpr(p), ExpressionView::FieldPathExpr(q)) => p == q,
        (
            ExpressionView::BinaryOpExpr { left: al, op: ao, right: ar },
            ExpressionView::BinaryOpExpr { left: bl, op: bo, right: br },
        ) => ao == bo && same_structure(*al, *bl) && same_structure(*ar, *br),
        _ => false,
    }
}

/// Putting the variables in changes literals only: the resolved expression
/// is the same tree as the expression, and a literal that is no string is
/// the literal it was.
pub proof fn lemma_resolution_keeps_the_structure(e: ExpressionView, vars: Seq<VarDeclarationView>)
    ensures
        same_structure(e, resolved_expr(e, vars)),
        e matches ExpressionView::LiteralExpr(literal) ==> (literal is StringLiteral
            || resolved_expr(e, vars) == e),
    decreases e,
{
    match e {
        ExpressionView::BinaryOpExpr { left, op, right } => {
            lemma_resolution_keeps_the_structure(*left, vars);
            lemma_resolution_keeps_the_structure(*right, vars);
        },
        _ => {},
    }
}

/// Putting the variables in leaves the kind of a projection as it was.
pub proof fn lemma_resolution_keeps_the_projection_kind(
    select: SelectClauseView,
    vars: Seq<VarDeclarationView>,
)
    ensures
        select is Fields <==> resolved_select(select, vars) is Fields,
        select matches SelectClauseView::Fields(names) ==> resolved_select(
            select,
            vars,
        )->Fields_0.len() == names.len(),
        select matches SelectClauseView::Objects(fields) ==> resolved_select(
            select,
            vars,
        )->Objects_0.len() == fields.len(),
{
}

/// A line of a `RESPONSE` block that is read as its `FROM` line: not
/// empty, not the opening of a block, and `FROM` and a space in upper case
/// at its start.
pub open spec fn is_from_line(line: Seq<char>) -> bool {
    line.len() > 0 && !toplevel_keyword(line) && opens_with(line, "FROM "@)
}

/// What a `FROM` line names: what follows its first space, trimmed.
pub open spec fn named_source(line: Seq<char>) -> Seq<char> {
    trim(after_first_space(line))
}

/// A `FROM` line sets the source of its query to what the text after
/// `FROM` says, and the block goes on with the next line.
pub proof fn lemma_from_line_sets_the_source(lines: Seq<Seq<char>>, i: int, parts: QueryParts)
    requires
        0 <= i < lines.len(),
        is_from_line(lines[i]),
    ensures
        response_from(lines, i, parts) == response_from(
            lines,
            i + 1,
            QueryParts { from: Some(from_clause_of(named_source(lines[i]))), ..parts },
        ),
{
}

/// The path of a source is the text after its prefix, split at the points:
/// after `body.` into the body, after `response.` into the response, and
/// with neither the whole text into the body, `body` alone too. It has one
/// segment at least.
pub proof fn lemma_source_path_is_the_split(rest: Seq<char>)
    ensures
        has_prefix(rest, "body."@) ==> from_clause_of(rest).from_type == FromType::Body
            && from_clause_of(rest).path == split(rest.skip("body."@.len() as int), '.'),
        !has_prefix(rest, "body."@) && has_prefix(rest, "response."@) ==> from_clause_of(
            rest,
        ).from_type == FromType::Response && from_clause_of(rest).path == split(
            rest.skip("response."@.len() as int),
            '.',
        ),
        !has_prefix(rest, "body."@) && !has_prefix(rest, "response."@) ==> from_clause_of(
            rest,
        ).from_type == FromType::Body && from_clause_of(rest).path == split(rest, '.'),
        from_clause_of(rest).path.len() >= 1,
        "body."@.len() == 5,
        "response."@.len() == 9,
{
    reveal_strlit("body.");
    reveal_strlit("response.");
    lemma_split_is_not_empty(rest.skip("body."@.len() as int), '.', 0, 0);
    lemma_split_is_not_empty(rest.skip("response."@.len() as int), '.', 0, 0);
    lemma_split_is_not_empty(rest, '.', 0, 0);
}

/// A text that is trimmed already is its own trimming.
pub proof fn lemma_trim_of_trimmed(r: Seq<char>)
    requires
        r.len() > 0,
        !is_space(r[0]),
        !is_space(r.last()),
    ensures
        trim(r) == r,
{
    assert(skip_spaces(r, 0) == 0);
    assert(drop_spaces_back(r, 0, r.len() as int) == r.len());
    assert(r.subrange(0, r.len() as int) =~= r);
}

/// The line `FROM r`, of ASCII characters, with `r` not empty and without
/// white space at its ends, is a `FROM` line and names `r`.
pub proof fn lemma_from_and_text_is_a_from_line(r: Seq<char>)
    requires
        all_ascii(r),
        r.len() > 0,
        !is_space(r[0]),
        !is_space(r.last()),
    ensures
        is_from_line("FROM "@ + r),
        named_source("FROM "@ + r) == r,
{
    reveal_strlit("FROM ");
    reveal_strlit("USING");
    reveal_strlit("REQUEST ");
    reveal_strlit("RESPONSE");
    let word = "FROM "@;
    let line = word + r;
    assert(word.len() == 5);
    assert forall|i: int| 0 <= i < line.len() implies (#[trigger] line[i] as u32) < 128 by {
        if i >= 5 {
            assert(line[i] == r[i - 5]);
        }
    }
    assert(all_ascii(line));
    let up = upper_fold(line);
    assert(up == upper_text(line));
    assert(up[0] == 'F');
    assert(up.take(5) =~= word);
    assert("USING"@[0] == 'U');
    assert("RESPONSE"@[0] == 'R');
    assert("REQUEST "@[0] == 'R');
    if up == "USING"@ {
        assert(up[0] == 'U');
    }
    if up == "RESPONSE"@ {
        assert(up[0] == 'R');
    }
    if has_prefix(up, "REQUEST "@) {
        assert(up.take("REQUEST "@.len() as int)[0] == 'R');
    }
    reveal_with_fuel(find_from, 6);
    assert(line[0] == 'F' && line[1] == 'R' && line[2] == 'O' && line[3] == 'M' && line[4] == ' ');
    assert(find_from(line, ' ', 0) == 4);
    assert(line.skip(5) =~= r);
    lemma_trim_of_trimmed(r);
}

/// The line `RESPONSE` in any case is no other opening of a block.
pub proof fn lemma_response_opens_a_response_only(opener: Seq<char>)
    requires
        eq_ignore_case(opener, "RESPONSE"@),
    ensures
        opener.len() > 0,
        !eq_ignore_case(opener, "USING"@),
        !opens_with(opener, "REQUEST "@),
{
    reveal_strlit("USING");
    reveal_strlit("REQUEST ");
    reveal_strlit("RESPONSE");
    let word = "RESPONSE"@;
    assert(upper_text(opener).len() == upper_text(word).len());
    assert(opener.len() == 8);
    assert forall|i: int| 0 <= i < 8 implies upper(#[trigger] opener[i]) == word[i] by {
        assert(upper_text(opener)[i] == upper_text(word)[i]);
    }
    assert forall|i: int| 0 <= i < opener.len() implies (#[trigger] opener[i] as u32) < 128 by {
        assert(upper(opener[i]) == word[i]);
    }
    assert(all_ascii(opener));
    assert(upper_fold(opener) =~= word);
    assert(upper_text("USING"@).len() == 5);
    if opens_with(opener, "REQUEST "@) {
        assert(word.take(8)[2] == "REQUEST "@[2]);
    }
}

/// The query of a block whose only line is the `FROM` line `line`: its
/// source is what the line names, and everything else is as unset.
pub open spec fn query_from_line(line: Seq<char>) -> QueryBlockView {
    query_of(QueryParts { from: Some(from_clause_of(named_source(line))), ..query_defaults() })
}

/// A `RESPONSE` block of one `FROM` line at the end of a script adds one
/// query to the blocks read before it, whatever they are: the query whose
/// source is what the text after `FROM` says.
pub proof fn lemma_last_block_of_one_from_line(
    lines: Seq<Seq<char>>,
    i: int,
    program: ProgramView,
)
    requires
        0 <= i,
        i + 2 == lines.len(),
        eq_ignore_case(lines[i], "RESPONSE"@),
        is_from_line(lines[i + 1]),
    ensures
        blocks_from(lines, i, program) == Ok::<ProgramView, ParseErrorView>(
            ProgramView {
                response_blocks: program.response_blocks.push(query_from_line(lines[i + 1])),
                ..program
            },
        ),
{
    lemma_response_opens_a_response_only(lines[i]);
    lemma_from_line_sets_the_source(lines, i + 1, query_defaults());
    let parts = QueryParts {
        from: Some(from_clause_of(named_source(lines[i + 1]))),
        ..query_defaults()
    };
    assert(response_from(lines, i + 2, parts) == Ok::<(QueryParts, int), ParseErrorView>(
        (parts, i + 2),
    ));
    assert(response_from(lines, i + 1, query_defaults()) == Ok::<
        (QueryParts, int),
        ParseErrorView,
    >((parts, i + 2)));
    let built = ProgramView {
        response_blocks: program.response_blocks.push(query_of(parts)),
        ..program
    };
    assert(blocks_from(lines, i + 2, built) == Ok::<ProgramView, ParseErrorView>(
        built,
    ));
}

/// A script whose cleaned lines are `RESPONSE` and one `FROM` line parses
/// to one query, and nothing else, whose source is what the text after
/// `FROM` says; its path is that text after its prefix, split at the points,
/// and has one segment at least.
pub proof fn lemma_single_from_line_gives_the_source(input: Seq<char>)
    requires
        clean_lines(input).len() == 2,
        eq_ignore_case(clean_lines(input)[0], "RESPONSE"@),
        is_from_line(clean_lines(input)[1]),
    ensures
        program_of(input) matches Ok(program) && program.using_block is None
            && program.request_blocks.len() == 0 && program.response_blocks.len() == 1
            && program.response_blocks[0].from_clause == from_clause_of(
            named_source(clean_lines(input)[1]),
        ) && program.response_blocks[0].from_clause.path.len() >= 1,
{
    let lines = clean_lines(input);
    lemma_source_path_is_the_split(named_source(lines[1]));
    lemma_last_block_of_one_from_line(lines, 0, empty_program());
    let built = ProgramView {
        response_blocks: empty_program().response_blocks.push(query_from_line(lines[1])),
        ..empty_program()
    };
    assert(blocks_of(input) == Ok::<ProgramView, ParseErrorView>(built));
    let resolved = resolved_program(built);
    assert(resolved.response_blocks.len() == 1);
    assert(resolved.request_blocks.len() == 0);
    assert(resolved.response_blocks[0].from_clause == from_clause_of(named_source(lines[1])));
}

/// The rows of `part` stand in `whole` in the same order, with other rows
/// between them or none.
pub open spec fn in_order_within(part: Seq<JsonValue>, whole: Seq<JsonValue>) -> bool
    decreases whole.len(),
{
    if part.len() == 0 {
        true
    } else if whole.len() == 0 {
        false
    } else if part.last() == whole.last() && in_order_within(
        part.drop_last(),
        whole.drop_last(),
    ) {
        true
    } else {
        in_order_within(part, whole.drop_last())
    }
}

/// Rows that stand in order within a list stand so within the list with
/// one row more.
pub proof fn lemma_in_order_within_more(part: Seq<JsonValue>, whole: Seq<JsonValue>, row: JsonValue)
    requires
        in_order_within(part, whole),
    ensures
        in_order_within(part, whole.push(row)),
{
    assert(whole.push(row).drop_last() =~= whole);
}

/// Rows that stand in order within a list still do without their last.
pub proof fn lemma_in_order_without_last(part: Seq<JsonValue>, whole: Seq<JsonValue>)
    requires
        in_order_within(part, whole),
        part.len() > 0,
    ensures
        in_order_within(part.drop_last(), whole),
    decreases whole.len(),
{
    let rest = whole.drop_last();
    assert(rest.push(whole.last()) =~= whole);
    if part.last() == whole.last() && in_order_within(part.drop_last(), rest) {
        lemma_in_order_within_more(part.drop_last(), rest, whole.last());
    } else {
        lemma_in_order_without_last(part, rest);
        lemma_in_order_within_more(part.drop_last(), rest, whole.last());
    }
}

/// The first rows of rows that stand in order within a list stand so too.
pub proof fn lemma_in_order_prefix(part: Seq<JsonValue>, whole: Seq<JsonValue>, n: int)
    requires
        in_order_within(part, whole),
        0 <= n <= part.len(),
    ensures
        in_order_within(part.take(n), whole),
    decreases part.len() - n,
{
    if n == part.len() {
        assert(part.take(n) =~= part);
    } else {
        lemma_in_order_prefix(part, whole, n + 1);
        lemma_in_order_without_last(part.take(n + 1), whole);
        assert(part.take(n + 1).drop_last() =~= part.take(n));
    }
}

/// The rows that a filter keeps stand in order within the rows it was given.
pub proof fn lemma_kept_rows_in_order(rows: Seq<JsonValue>, filter: Option<ExpressionView>)
    ensures
        in_order_within(kept_rows(rows, filter), rows),
    decreases rows.len(),
{
    if rows.len() > 0 {
        let rest = rows.drop_last();
        lemma_kept_rows_in_order(rest, filter);
        let kept = kept_rows(rest, filter);
        if passes(filter, rows.last()) {
            assert(kept.push(rows.last()).drop_last() =~= kept);
        } else {
            assert(rest.push(rows.last()) =~= rows);
            lemma_in_order_within_more(kept, rest, rows.last());
        }
    }
}

/// Where rows stand in order within a list, their projections stand in
/// order within the projections of the list.
pub proof fn lemma_projections_in_order(
    select: SelectClauseView,
    part: Seq<JsonValue>,
    whole: Seq<JsonValue>,
    some: Seq<JsonValue>,
    all: Seq<JsonValue>,
)
    requires
        in_order_within(part, whole),
        some.len() == part.len(),
        all.len() == whole.len(),
        forall|i: int|
            0 <= i < part.len() ==> project(select, part[i]) == Ok::<JsonValue, QueryErrorView>(
                #[trigger] some[i],
            ),
        forall|j: int|
            0 <= j < whole.len() ==> project(select, whole[j]) == Ok::<JsonValue, QueryErrorView>(
                #[trigger] all[j],
            ),
    ensures
        in_order_within(some, all),
    decreases whole.len(),
{
    if part.len() > 0 {
        let last = whole.len() - 1;
        assert(project(select, whole[last]) == Ok::<JsonValue, QueryErrorView>(all[last]));
        assert(project(select, part[part.len() - 1]) == Ok::<JsonValue, QueryErrorView>(
            some[some.len() - 1],
        ));
        assert forall|j: int| 0 <= j < whole.drop_last().len() implies project(
            select,
            whole.drop_last()[j],
        ) == Ok::<JsonValue, QueryErrorView>(#[trigger] all.drop_last()[j]) by {
            assert(project(select, whole[j]) == Ok::<JsonValue, QueryErrorView>(all[j]));
        }
        if part.last() == whole.last() && in_order_within(part.drop_last(), whole.drop_last()) {
            assert forall|i: int| 0 <= i < part.drop_last().len() implies project(
                select,
                part.drop_last()[i],
            ) == Ok::<JsonValue, QueryErrorView>(#[trigger] some.drop_last()[i]) by {
                assert(project(select, part[i]) == Ok::<JsonValue, QueryErrorView>(some[i]));
            }
            lemma_projections_in_order(
                select,
                part.drop_last(),
                whole.drop_last(),
                some.drop_last(),
                all.drop_last(),
            );
            assert(some.last() == all.last());
        } else {
            lemma_projections_in_order(select, part, whole.drop_last(), some, all.drop_last());
        }
    }
}

/// A filter keeps the order: where the query without filter and without
/// limit gives a list of rows, the rows that the same query gives with any
/// filter, and with any limit, stand in that list in the same order.
pub proof fn lemma_filter_keeps_the_order(
    query: QueryBlockView,
    condition: ExpressionView,
    body: JsonValue,
)
    requires
        execute(QueryBlockView { where_clause: None, limit: None, ..query }, body) is Ok,
    ensures
        execute(QueryBlockView { where_clause: None, limit: None, ..query }, body) matches Ok(
            JsonValue::Array(all),
        ) && execute(QueryBlockView { where_clause: Some(condition), ..query }, body) matches Ok(
            JsonValue::Array(some),
        ) && in_order_within(some, all),
{
    lemma_filter_gives_rows_of_the_unfiltered_result(query, condition, body);
    let found = descend(body, query.from_clause.path)->Ok_0;
    let rows = rows_of(found);
    let kept = kept_rows(rows, Some(condition));
    lemma_no_filter_keeps_all(rows);
    lemma_kept_rows_in_order(rows, Some(condition));
    lemma_project_all_rows(query.select_clause, rows, 0);
    lemma_project_all_rows(query.select_clause, kept, 0);
    let all = project_all(query.select_clause, rows)->Ok_0;
    let some = project_all(query.select_clause, kept)->Ok_0;
    assert forall|i: int| 0 <= i < kept.len() implies project(query.select_clause, kept[i])
        == Ok::<JsonValue, QueryErrorView>(#[trigger] some[i]) by {
        assert(project(query.select_clause, kept[0 + i]) == Ok::<JsonValue, QueryErrorView>(
            some[i],
        ));
    }
    assert forall|j: int| 0 <= j < rows.len() implies project(query.select_clause, rows[j])
        == Ok::<JsonValue, QueryErrorView>(#[trigger] all[j]) by {
        assert(project(query.select_clause, rows[0 + j]) == Ok::<JsonValue, QueryErrorView>(
            all[j],
        ));
    }
    lemma_projections_in_order(query.select_clause, kept, rows, some, all);
    match query.limit {
        Some(n) => {
            if n < some.len() {
                lemma_in_order_prefix(some, all, n as int);
            }
        },
        None => {},
    }
}

} // verus!
