//! The query executor: from a query and a document to the rows it selects.

use vstd::prelude::*;
use crate::ast::{
    BinaryOp, Expression, ExpressionView, FromType, Literal, LiteralView, QueryBlock,
    QueryBlockView, SelectClause, SelectClauseView, SelectField, SelectFieldView,
};
use crate::errors::{QueryError, QueryErrorView};
use crate::json::{
    find_member, json_eq, lemma_array_view, lemma_object_view, member, member_values, number_key,
    values, with_member, Json, JsonNumber, JsonValue,
};
use crate::number::{finite, is_finite};
use crate::pattern::{regex_is_match, regex_match};
use crate::text::{append, option_view, result_view, to_chars, to_text, views};

verus! {

/// The error for a key that an object does not hold.
pub open spec fn missing_field(field: Seq<char>) -> QueryErrorView {
    QueryErrorView::MissingField { field: field }
}

/// The error for a key asked of a value that is no object.
pub open spec fn not_an_object(field: Seq<char>) -> QueryErrorView {
    QueryErrorView::TypeError {
        message: "cannot access field `"@ + field + "` on non-object"@,
    }
}

/// The type error with a message.
pub open spec fn type_error(message: Seq<char>) -> QueryErrorView {
    QueryErrorView::TypeError { message: message }
}

/// The value found by following `path` from its key `k` on, downwards from
/// `value`. Each step needs an object that holds the key; a value that is no
/// object is a type error, an object without the key a missing field. The
/// empty path finds the value itself.
pub open spec fn descend_from(value: JsonValue, path: Seq<Seq<char>>, k: int) -> Result<
    JsonValue,
    QueryErrorView,
>
    decreases path.len() - k,
{
    if 0 <= k < path.len() {
        match value {
            JsonValue::Object(members) => match member(members, path[k]) {
                Some(inner) => descend_from(inner, path, k + 1),
                None => Err(missing_field(path[k])),
            },
            _ => Err(not_an_object(path[k])),
        }
    } else {
        Ok(value)
    }
}

/// The value found by following `path` downwards from `value`.
pub open spec fn descend(value: JsonValue, path: Seq<Seq<char>>) -> Result<
    JsonValue,
    QueryErrorView,
> {
    descend_from(value, path, 0)
}

/// A type error with the given message.
fn type_error_of(message: &str) -> (r: QueryError)
    ensures
        r@ == type_error(message@),
{
    QueryError::TypeError { message: message.to_owned() }
}

/// The error for a key asked of a value that is no object.
fn not_an_object_error(field: &String) -> (r: QueryError)
    ensures
        r@ == not_an_object(field@),
{
    let mut message = to_chars("cannot access field `");
    let name = to_chars(field.as_str());
    let tail = to_chars("` on non-object");
    append(&mut message, &name);
    append(&mut message, &tail);
    QueryError::TypeError { message: to_text(&message) }
}

/// Follows `path` downwards from `value`.
pub fn resolve_path<'a>(value: &'a Json, path: &Vec<String>) -> (r: Result<&'a Json, QueryError>)
    ensures
        match r {
            Ok(found) => descend(value@, views(path@)) == Ok::<JsonValue, QueryErrorView>(found@),
            Err(e) => descend(value@, views(path@)) == Err::<JsonValue, QueryErrorView>(e@),
        },
{
    let ghost keys = views(path@);
    let mut current: &Json = value;
    let mut k: usize = 0;
    while k < path.len()
        invariant
            k <= path.len(),
            keys == views(path@),
            descend_from(current@, keys, k as int) == descend(value@, keys),
        decreases path.len() - k,
    {
        let key = &path[k];
        assert(keys[k as int] == key@);
        match current {
            Json::Object(members) => {
                proof {
                    lemma_object_view(*members);
                }
                match find_member(members, key) {
                    Some(i) => {
                        assert(member_values(members@)[i as int].1 == members@[i as int].1@);
                        current = &members[i].1;
                    },
                    None => {
                        return Err(QueryError::MissingField { field: key.clone() });
                    },
                }
            },
            _ => {
                return Err(not_an_object_error(key));
            },
        }
        k += 1;
    }
    Ok(current)
}

/// The value of a match: whether the pattern was found, or a type error
/// that carries the reason for which the pattern is none.
pub open spec fn match_value(outcome: Result<bool, Seq<char>>) -> Result<
    JsonValue,
    QueryErrorView,
> {
    match outcome {
        Ok(found) => Ok(JsonValue::Bool(found)),
        Err(reason) => Err(type_error("Invalid regex pattern: "@ + reason)),
    }
}

/// Turns the outcome of a match into the value of the operator.
pub fn match_outcome(outcome: Result<bool, String>) -> (r: Result<Json, QueryError>)
    ensures
        result_view(r) == match_value(
            match outcome {
                Ok(found) => Ok(found),
                Err(reason) => Err(reason@),
            },
        ),
{
    match outcome {
        Ok(found) => Ok(Json::Bool(found)),
        Err(reason) => {
            let mut message = to_chars("Invalid regex pattern: ");
            let detail = to_chars(reason.as_str());
            append(&mut message, &detail);
            Err(QueryError::TypeError { message: to_text(&message) })
        },
    }
}

/// What a binary operator makes of two values. `Eq` and `Neq` compare any
/// two values and never fail. The four orderings need two numbers and
/// compare them as doubles. `And` and `Or` need two booleans. `RegexMatch`
/// needs a text and a pattern, and holds where the pattern matches anywhere
/// in the text. The left operand is looked at first.
pub open spec fn apply(left: JsonValue, op: BinaryOp, right: JsonValue) -> Result<
    JsonValue,
    QueryErrorView,
> {
    match op {
        BinaryOp::Eq => Ok(JsonValue::Bool(json_eq(left, right))),
        BinaryOp::Neq => Ok(JsonValue::Bool(!json_eq(left, right))),
        BinaryOp::Gt | BinaryOp::Gte | BinaryOp::Lt | BinaryOp::Lte => match left {
            JsonValue::Number(l) => match right {
                JsonValue::Number(r) => Ok(
                    JsonValue::Bool(
                        match op {
                            BinaryOp::Gt => number_key(l) > number_key(r),
                            BinaryOp::Gte => number_key(l) >= number_key(r),
                            BinaryOp::Lt => number_key(l) < number_key(r),
                            _ => number_key(l) <= number_key(r),
                        },
                    ),
                ),
                _ => Err(type_error("Right operand is not a number"@)),
            },
            _ => Err(type_error("Left operand is not a number"@)),
        },
        BinaryOp::And | BinaryOp::Or => match left {
            JsonValue::Bool(l) => match right {
                JsonValue::Bool(r) => Ok(
                    JsonValue::Bool(
                        if op == BinaryOp::And {
                            l && r
                        } else {
                            l || r
                        },
                    ),
                ),
                _ => Err(type_error("Right operand is not a boolean"@)),
            },
            _ => Err(type_error("Left operand is not a boolean"@)),
        },
        BinaryOp::RegexMatch => match left {
            JsonValue::String(text) => match right {
                JsonValue::String(pattern) => match_value(regex_match(pattern, text)),
                _ => Err(type_error("Right operand for regex match must be a string pattern"@)),
            },
            _ => Err(type_error("Left operand for regex match must be a string"@)),
        },
    }
}

/// Applies a binary operator to two values.
pub fn eval_binary(left: &Json, op: &BinaryOp, right: &Json) -> (r: Result<Json, QueryError>)
    ensures
        result_view(r) == apply(left@, *op, right@),
{
    match op {
        BinaryOp::Eq => Ok(Json::Bool(left.equals(right))),
        BinaryOp::Neq => Ok(Json::Bool(!left.equals(right))),
        BinaryOp::Gt | BinaryOp::Gte | BinaryOp::Lt | BinaryOp::Lte => {
            let l = match left {
                Json::Number(n) => *n,
                _ => {
                    return Err(type_error_of("Left operand is not a number"));
                },
            };
            let r = match right {
                Json::Number(n) => *n,
                _ => {
                    return Err(type_error_of("Right operand is not a number"));
                },
            };
            let result = match op {
                BinaryOp::Gt => r.less_than(&l),
                BinaryOp::Gte => !l.less_than(&r),
                BinaryOp::Lt => l.less_than(&r),
                _ => !r.less_than(&l),
            };
            Ok(Json::Bool(result))
        },
        BinaryOp::And | BinaryOp::Or => {
            let l = match left {
                Json::Bool(b) => *b,
                _ => {
                    return Err(type_error_of("Left operand is not a boolean"));
                },
            };
            let r = match right {
                Json::Bool(b) => *b,
                _ => {
                    return Err(type_error_of("Right operand is not a boolean"));
                },
            };
            let result = match op {
                BinaryOp::And => l && r,
                _ => l || r,
            };
            Ok(Json::Bool(result))
        },
        BinaryOp::RegexMatch => {
            let text = match left {
                Json::String(s) => s,
                _ => {
                    return Err(type_error_of("Left operand for regex match must be a string"));
                },
            };
            let pattern = match right {
                Json::String(s) => s,
                _ => {
                    return Err(
                        type_error_of("Right operand for regex match must be a string pattern"),
                    );
                },
            };
            match_outcome(regex_is_match(pattern.as_str(), text.as_str()))
        },
    }
}

/// The value of an expression on a row. A literal is its constant, and a
/// number that is no finite double is a type error; a field path is followed
/// from the row; an operator takes the values of both its sides, the left
/// one first, and an error on either side is the error of the whole.
pub open spec fn eval(e: ExpressionView, row: JsonValue) -> Result<JsonValue, QueryErrorView>
    decreases e,
{
    match e {
        ExpressionView::LiteralExpr(LiteralView::NumberLiteral(bits)) => if is_finite(bits) {
            Ok(JsonValue::Number(JsonNumber::Float(bits)))
        } else {
            Err(type_error("Invalid number"@))
        },
        ExpressionView::LiteralExpr(LiteralView::StringLiteral(s)) => Ok(JsonValue::String(s)),
        ExpressionView::LiteralExpr(LiteralView::BooleanLiteral(b)) => Ok(JsonValue::Bool(b)),
        ExpressionView::LiteralExpr(LiteralView::Null) => Ok(JsonValue::Null),
        ExpressionView::FieldPathExpr(path) => descend(row, path),
        ExpressionView::BinaryOpExpr { left, op, right } => match eval(*left, row) {
            Ok(l) => match eval(*right, row) {
                Ok(r) => apply(l, op, r),
                Err(e) => Err(e),
            },
            Err(e) => Err(e),
        },
    }
}

/// Evaluates an expression on a row.
pub fn eval_expr(expr: &Expression, row: &Json) -> (r: Result<Json, QueryError>)
    ensures
        result_view(r) == eval(expr@, row@),
    decreases expr,
{
    match expr {
        Expression::LiteralExpr(Literal::NumberLiteral(bits)) => {
            if finite(*bits) {
                Ok(Json::Number(JsonNumber::Float(*bits)))
            } else {
                Err(type_error_of("Invalid number"))
            }
        },
        Expression::LiteralExpr(Literal::StringLiteral(s)) => Ok(Json::String(s.clone())),
        Expression::LiteralExpr(Literal::BooleanLiteral(b)) => Ok(Json::Bool(*b)),
        Expression::LiteralExpr(Literal::Null) => Ok(Json::Null),
        Expression::FieldPathExpr(path) => {
            match resolve_path(row, &path.path) {
                Ok(found) => Ok(found.duplicate()),
                Err(e) => Err(e),
            }
        },
        Expression::BinaryOpExpr { left, op, right } => {
            let l = eval_expr(left, row)?;
            let r = eval_expr(right, row)?;
            eval_binary(&l, op, &r)
        },
    }
}

/// Whether a row passes a filter: without a filter every row does, and with
/// one the rows on which it is the boolean `true`. A row on which the filter
/// fails, or is anything else, does not pass.
pub open spec fn passes(filter: Option<ExpressionView>, row: JsonValue) -> bool {
    match filter {
        Some(condition) => eval(condition, row) == Ok::<JsonValue, QueryErrorView>(
            JsonValue::Bool(true),
        ),
        None => true,
    }
}

/// The value of a condition on a row, which must be a boolean.
fn eval_bool_expr(expr: &Expression, row: &Json) -> (r: Result<bool, QueryError>)
    ensures
        match r {
            Ok(b) => eval(expr@, row@) == Ok::<JsonValue, QueryErrorView>(JsonValue::Bool(b)),
            Err(_) => forall|b: bool|
                eval(expr@, row@) != Ok::<JsonValue, QueryErrorView>(JsonValue::Bool(b)),
        },
{
    match eval_expr(expr, row) {
        Ok(Json::Bool(b)) => Ok(b),
        Ok(_) => Err(type_error_of("WHERE expression must be bool")),
        Err(e) => Err(e),
    }
}

/// The object of the plain fields `names` of a row, from name `k` on, added
/// to `members`: each name is a key of the row, and an object without it, or
/// a row that is no object, is the error of the whole.
pub open spec fn fields_from(
    row: JsonValue,
    names: Seq<Seq<char>>,
    k: int,
    members: Seq<(Seq<char>, JsonValue)>,
) -> Result<JsonValue, QueryErrorView>
    decreases names.len() - k,
{
    if 0 <= k < names.len() {
        match descend(row, seq![names[k]]) {
            Ok(value) => fields_from(row, names, k + 1, with_member(members, names[k], value)),
            Err(e) => Err(e),
        }
    } else {
        Ok(JsonValue::Object(members))
    }
}

/// The value of one field of an object projection on a row: that of its
/// expression, or without one the row's member named like the alias.
pub open spec fn field_value(field: SelectFieldView, row: JsonValue) -> Result<
    JsonValue,
    QueryErrorView,
> {
    match field.expression {
        Some(e) => eval(e, row),
        None => descend(row, seq![field.alias]),
    }
}

/// The object of the fields `fields` of a row, from field `k` on, added to
/// `members`, each under its alias.
pub open spec fn objects_from(
    row: JsonValue,
    fields: Seq<SelectFieldView>,
    k: int,
    members: Seq<(Seq<char>, JsonValue)>,
) -> Result<JsonValue, QueryErrorView>
    decreases fields.len() - k,
{
    if 0 <= k < fields.len() {
        match field_value(fields[k], row) {
            Ok(value) => objects_from(
                row,
                fields,
                k + 1,
                with_member(members, fields[k].alias, value),
            ),
            Err(e) => Err(e),
        }
    } else {
        Ok(JsonValue::Object(members))
    }
}

/// The object that a projection makes of a row, its members in the order in
/// which the projection names them.
pub open spec fn project(select: SelectClauseView, row: JsonValue) -> Result<
    JsonValue,
    QueryErrorView,
> {
    match select {
        SelectClauseView::Fields(names) => fields_from(row, names, 0, Seq::empty()),
        SelectClauseView::Objects(fields) => objects_from(row, fields, 0, Seq::empty()),
    }
}

/// Sets the member `key` of an object under construction.
fn set_member(members: &mut Vec<(String, Json)>, key: String, value: Json)
    ensures
        member_values(final(members)@) == with_member(
            member_values(old(members)@),
            key@,
            value@,
        ),
{
    let ghost before = member_values(members@);
    match find_member(members, &key) {
        Some(i) => {
            members[i] = (key, value);
            assert(member_values(members@) =~= before.update(i as int, (key@, value@)));
        },
        None => {
            members.push((key, value));
            assert(member_values(members@) =~= before.push((key@, value@)));
        },
    }
}

/// The path of one key.
fn one_key(key: &String) -> (r: Vec<String>)
    ensures
        views(r@) == seq![key@],
{
    let mut path: Vec<String> = Vec::new();
    path.push(key.clone());
    assert(views(path@) =~= seq![key@]);
    path
}

/// The object of the plain fields `fields` of a row.
pub fn project_fields(row: &Json, fields: &Vec<String>) -> (r: Result<Json, QueryError>)
    ensures
        result_view(r) == project(SelectClauseView::Fields(views(fields@)), row@),
{
    let ghost names = views(fields@);
    let mut members: Vec<(String, Json)> = Vec::new();
    let mut k: usize = 0;
    assert(member_values(members@) =~= Seq::<(Seq<char>, JsonValue)>::empty());
    while k < fields.len()
        invariant
            k <= fields.len(),
            names == views(fields@),
            fields_from(row@, names, k as int, member_values(members@)) == fields_from(
                row@,
                names,
                0,
                Seq::empty(),
            ),
        decreases fields.len() - k,
    {
        let name = &fields[k];
        assert(names[k as int] == name@);
        let path = one_key(name);
        let found = resolve_path(row, &path)?;
        let value = found.duplicate();
        set_member(&mut members, name.clone(), value);
        k += 1;
    }
    proof {
        lemma_object_view(members);
    }
    Ok(Json::Object(members))
}

/// The object of the fields `fields` of a row, each under its alias.
pub fn project_object_fields(row: &Json, fields: &Vec<SelectField>) -> (r: Result<
    Json,
    QueryError,
>)
    ensures
        result_view(r) == project(SelectClauseView::Objects(views(fields@)), row@),
{
    let ghost all = views(fields@);
    let mut members: Vec<(String, Json)> = Vec::new();
    let mut k: usize = 0;
    assert(member_values(members@) =~= Seq::<(Seq<char>, JsonValue)>::empty());
    while k < fields.len()
        invariant
            k <= fields.len(),
            all == views(fields@),
            objects_from(row@, all, k as int, member_values(members@)) == objects_from(
                row@,
                all,
                0,
                Seq::empty(),
            ),
        decreases fields.len() - k,
    {
        let field = &fields[k];
        assert(all[k as int] == field@);
        let value = match &field.expression {
            Some(expression) => eval_expr(expression, row)?,
            None => {
                let path = one_key(&field.alias);
                let found = resolve_path(row, &path)?;
                found.duplicate()
            },
        };
        set_member(&mut members, field.alias.clone(), value);
        k += 1;
    }
    proof {
        lemma_object_view(members);
    }
    Ok(Json::Object(members))
}

/// The rows that a value gives: the items of an array, or the value itself
/// as the only row.
pub open spec fn rows_of(found: JsonValue) -> Seq<JsonValue> {
    match found {
        JsonValue::Array(items) => items,
        other => seq![other],
    }
}

/// The rows that pass a filter, in their order.
pub open spec fn kept_rows(rows: Seq<JsonValue>, filter: Option<ExpressionView>) -> Seq<JsonValue>
    decreases rows.len(),
{
    if rows.len() == 0 {
        Seq::empty()
    } else if passes(filter, rows.last()) {
        kept_rows(rows.drop_last(), filter).push(rows.last())
    } else {
        kept_rows(rows.drop_last(), filter)
    }
}

/// The projections of the rows from row `k` on, after `out`. The first row
/// that cannot be projected gives the error of the whole.
pub open spec fn project_from(
    select: SelectClauseView,
    rows: Seq<JsonValue>,
    k: int,
    out: Seq<JsonValue>,
) -> Result<Seq<JsonValue>, QueryErrorView>
    decreases rows.len() - k,
{
    if 0 <= k < rows.len() {
        match project(select, rows[k]) {
            Ok(object) => project_from(select, rows, k + 1, out.push(object)),
            Err(e) => Err(e),
        }
    } else {
        Ok(out)
    }
}

/// The projections of all rows, in their order.
pub open spec fn project_all(select: SelectClauseView, rows: Seq<JsonValue>) -> Result<
    Seq<JsonValue>,
    QueryErrorView,
> {
    project_from(select, rows, 0, Seq::empty())
}

/// The leading rows that a limit lets through: all of them without a limit.
pub open spec fn limited(rows: Seq<JsonValue>, limit: Option<u32>) -> Seq<JsonValue> {
    match limit {
        Some(n) => if n < rows.len() {
            rows.take(n as int)
        } else {
            rows
        },
        None => rows,
    }
}

/// The array of the projected rows that the limit lets through, or the
/// error of the projection.
pub open spec fn finished(
    projected: Result<Seq<JsonValue>, QueryErrorView>,
    limit: Option<u32>,
) -> Result<JsonValue, QueryErrorView> {
    match projected {
        Ok(rows) => Ok(JsonValue::Array(limited(rows, limit))),
        Err(e) => Err(e),
    }
}

/// The error of a query that takes its rows from the response.
pub open spec fn unsupported_source() -> QueryErrorView {
    type_error("Response from_type not supported yet"@)
}

/// The result of a query on a document. The rows are found under the path
/// of the `FROM` clause in the body; the filter drops the rows on which it
/// is not `true`, those on which it fails among them; the projection makes
/// an object of each row that is left, and fails as a whole where it fails
/// on one; the limit cuts the list. The result is the array of what is left.
pub open spec fn execute(query: QueryBlockView, body: JsonValue) -> Result<
    JsonValue,
    QueryErrorView,
> {
    if query.from_clause.from_type == FromType::Response {
        Err(unsupported_source())
    } else {
        match descend(body, query.from_clause.path) {
            Ok(found) => finished(
                project_all(query.select_clause, kept_rows(rows_of(found), query.where_clause)),
                query.limit,
            ),
            Err(e) => Err(e),
        }
    }
}

/// The object that a projection makes of a row.
fn project_row(select: &SelectClause, row: &Json) -> (r: Result<Json, QueryError>)
    ensures
        result_view(r) == project(select@, row@),
{
    match select {
        SelectClause::Fields(names) => project_fields(row, names),
        SelectClause::Objects(fields) => project_object_fields(row, fields),
    }
}

/// Whether a row passes a filter.
fn row_passes(filter: &Option<Expression>, row: &Json) -> (r: bool)
    ensures
        r == passes(option_view(*filter), row@),
{
    match filter {
        Some(condition) => match eval_bool_expr(condition, row) {
            Ok(b) => b,
            Err(_) => false,
        },
        None => true,
    }
}

/// Runs a query on a document.
pub fn execute_query(query: &QueryBlock, body: &Json) -> (r: Result<Json, QueryError>)
    ensures
        result_view(r) == execute(query@, body@),
{
    match query.from_clause.from_type {
        FromType::Body => {},
        FromType::Response => {
            return Err(type_error_of("Response from_type not supported yet"));
        },
    }
    let found = resolve_path(body, &query.from_clause.path)?;
    let ghost rows = rows_of(found@);
    let ghost filter = option_view(query.where_clause);
    let mut kept: Vec<&Json> = Vec::new();
    match found {
        Json::Array(items) => {
            proof {
                lemma_array_view(*items);
            }
            let mut i: usize = 0;
            assert(rows.take(0) =~= Seq::<JsonValue>::empty());
            while i < items.len()
                invariant
                    i <= items.len(),
                    rows == values(items@),
                    filter == option_view(query.where_clause),
                    row_values(kept@) == kept_rows(rows.take(i as int), filter),
                decreases items.len() - i,
            {
                let row = &items[i];
                proof {
                    assert(rows.take(i + 1).drop_last() =~= rows.take(i as int));
                    assert(rows.take(i + 1).last() == row@);
                }
                if row_passes(&query.where_clause, row) {
                    proof {
                        assert(row_values(kept@.push(row)) =~= row_values(kept@).push(row@));
                    }
                    kept.push(row);
                }
                i += 1;
            }
            assert(rows.take(items.len() as int) =~= rows);
        },
        other => {
            assert(rows =~= seq![other@]);
            assert(rows.drop_last() =~= Seq::<JsonValue>::empty());
            assert(kept_rows(rows.drop_last(), filter) =~= Seq::<JsonValue>::empty());
            if row_passes(&query.where_clause, other) {
                kept.push(other);
                assert(row_values(kept@) =~= seq![other@]);
                assert(kept_rows(rows, filter) =~= seq![other@]);
            } else {
                assert(row_values(kept@) =~= Seq::<JsonValue>::empty());
            }
        },
    }
    let ghost survivors = row_values(kept@);
    assert(survivors == kept_rows(rows, filter));
    assert(execute(query@, body@) == finished(
        project_all(query@.select_clause, survivors),
        query.limit,
    ));
    let mut projected: Vec<Json> = Vec::new();
    let mut k: usize = 0;
    assert(values(projected@) =~= Seq::<JsonValue>::empty());
    while k < kept.len()
        invariant
            k <= kept.len(),
            survivors == row_values(kept@),
            execute(query@, body@) == finished(
                project_all(query@.select_clause, survivors),
                query.limit,
            ),
            project_from(query@.select_clause, survivors, k as int, values(projected@))
                == project_all(query@.select_clause, survivors),
        decreases kept.len() - k,
    {
        assert(survivors[k as int] == kept@[k as int]@);
        let object = project_row(&query.select_clause, kept[k])?;
        proof {
            assert(values(projected@.push(object)) =~= values(projected@).push(object@));
        }
        projected.push(object);
        k += 1;
    }
    match query.limit {
        Some(n) => {
            if (n as usize) < projected.len() {
                let ghost before = values(projected@);
                projected.truncate(n as usize);
                assert(values(projected@) =~= before.take(n as int));
            }
        },
        None => {},
    }
    proof {
        lemma_array_view(projected);
    }
    Ok(Json::Array(projected))
}

/// The values of a list of borrowed rows.
pub open spec fn row_values(rows: Seq<&Json>) -> Seq<JsonValue> {
    Seq::new(rows.len(), |i: int| rows[i]@)
}

} // verus!
