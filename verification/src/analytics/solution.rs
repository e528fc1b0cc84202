//! Running a query: filtering, grouping, aggregating.
use vstd::prelude::*;
use crate::analytics::dataset::{
    column_names, column_position, columns_view, lemma_column_position, ColumnType, Dataset,
    DatasetView, Row, Value, ValueView,
};
use crate::analytics::query::{evaluable, holds, result_column_name, Aggregation, Condition, Query};

verus! {

/// The rows that satisfy `cond`, in order.
pub open spec fn filtered_rows(names: Seq<Seq<char>>, rows: Seq<Seq<ValueView>>, cond: Condition) -> Seq<Seq<ValueView>>
    decreases rows.len(),
{
    if rows.len() == 0 {
        Seq::empty()
    } else {
        let kept = filtered_rows(names, rows.drop_last(), cond);
        if holds(names, rows.last(), cond) {
            kept.push(rows.last())
        } else {
            kept
        }
    }
}

/// Filtering twice by the same condition keeps what filtering once keeps.
pub proof fn lemma_filter_idempotent(names: Seq<Seq<char>>, rows: Seq<Seq<ValueView>>, cond: Condition)
    ensures
        filtered_rows(names, filtered_rows(names, rows, cond), cond) == filtered_rows(names, rows, cond),
    decreases rows.len(),
{
    if rows.len() > 0 {
        let init = rows.drop_last();
        lemma_filter_idempotent(names, init, cond);
        let f = filtered_rows(names, init, cond);
        if holds(names, rows.last(), cond) {
            assert(f.push(rows.last()).drop_last() =~= f);
        }
    }
}

/// Filtering by one condition and then by another keeps the rows that satisfy both.
pub proof fn lemma_filter_compose(names: Seq<Seq<char>>, rows: Seq<Seq<ValueView>>, first: Condition, second: Condition)
    ensures
        filtered_rows(names, filtered_rows(names, rows, first), second) == filtered_rows(
            names,
            rows,
            Condition::And(Box::new(first), Box::new(second)),
        ),
    decreases rows.len(),
{
    if rows.len() > 0 {
        let init = rows.drop_last();
        lemma_filter_compose(names, init, first, second);
        let f = filtered_rows(names, init, first);
        if holds(names, rows.last(), first) {
            assert(f.push(rows.last()).drop_last() =~= f);
        }
    }
}

/// The distinct values of `vals`, in the order of their first occurrence.
pub open spec fn distinct_in_order(vals: Seq<ValueView>) -> Seq<ValueView>
    decreases vals.len(),
{
    if vals.len() == 0 {
        Seq::empty()
    } else {
        let seen = distinct_in_order(vals.drop_last());
        if seen.contains(vals.last()) {
            seen
        } else {
            seen.push(vals.last())
        }
    }
}

/// The rows whose value in column `idx` is `key`, in order.
pub open spec fn rows_with(rows: Seq<Seq<ValueView>>, idx: int, key: ValueView) -> Seq<Seq<ValueView>>
    decreases rows.len(),
{
    if rows.len() == 0 {
        Seq::empty()
    } else {
        let kept = rows_with(rows.drop_last(), idx, key);
        if rows.last()[idx] == key {
            kept.push(rows.last())
        } else {
            kept
        }
    }
}

/// The values of column `idx`, row by row.
pub open spec fn column_values(rows: Seq<Seq<ValueView>>, idx: int) -> Seq<ValueView> {
    rows.map_values(|r: Seq<ValueView>| r[idx])
}

/// The groups of `rows` by column `idx`: one per distinct value, in the order of first
/// occurrence, each with the rows that hold that value.
pub open spec fn groups_of(rows: Seq<Seq<ValueView>>, idx: int) -> Seq<(ValueView, Seq<Seq<ValueView>>)> {
    let keys = distinct_in_order(column_values(rows, idx));
    Seq::new(keys.len(), |g: int| (keys[g], rows_with(rows, idx, keys[g])))
}

/// The integer in a value (zero for a string).
pub open spec fn as_integer(v: ValueView) -> int {
    match v {
        ValueView::Integer(i) => i as int,
        ValueView::Text(_) => 0,
    }
}

/// The sum of the integers in column `idx`.
pub open spec fn column_sum(rows: Seq<Seq<ValueView>>, idx: int) -> int
    decreases rows.len(),
{
    if rows.len() == 0 {
        0
    } else {
        column_sum(rows.drop_last(), idx) + as_integer(rows.last()[idx])
    }
}

/// The sum of a column over two runs of rows is the sum over the first plus the sum over
/// the second: every row counts, whatever the rows around it hold.
pub proof fn lemma_column_sum_append(first: Seq<Seq<ValueView>>, second: Seq<Seq<ValueView>>, idx: int)
    ensures
        column_sum(first + second, idx) == column_sum(first, idx) + column_sum(second, idx),
    decreases second.len(),
{
    if second.len() == 0 {
        assert(first + second =~= first);
    } else {
        lemma_column_sum_append(first, second.drop_last(), idx);
        assert((first + second).drop_last() =~= first + second.drop_last());
        assert((first + second).last() == second.last());
    }
}

/// The sum of a column over one row is that row's integer in the column (zero for text);
/// with `lemma_column_sum_append`, `n` rows holding `v` sum to `n * v`.
pub proof fn lemma_column_sum_one(row: Seq<ValueView>, idx: int)
    ensures
        column_sum(seq![row], idx) == as_integer(row[idx]),
{
    assert(seq![row].drop_last() =~= Seq::<Seq<ValueView>>::empty());
    assert(column_sum(seq![row].drop_last(), idx) == 0);
    assert(seq![row].last() == row);
}

/// The conditions obey the laws of logic: `Or` and `And` do not depend on the order of
/// their sides and give back a condition combined with itself, `Or` holds when either
/// side does and `And` when both do, a double `Not` cancels, and De Morgan's laws hold.
pub proof fn lemma_condition_laws(names: Seq<Seq<char>>, row: Seq<ValueView>, a: Condition, b: Condition)
    ensures
        holds(names, row, Condition::Or(Box::new(a), Box::new(b))) <==> (holds(names, row, a) || holds(
            names,
            row,
            b,
        )),
        holds(names, row, Condition::And(Box::new(a), Box::new(b))) <==> (holds(names, row, a) && holds(
            names,
            row,
            b,
        )),
        holds(names, row, Condition::Not(Box::new(a))) <==> !holds(names, row, a),
        holds(names, row, Condition::Or(Box::new(a), Box::new(b))) == holds(
            names,
            row,
            Condition::Or(Box::new(b), Box::new(a)),
        ),
        holds(names, row, Condition::And(Box::new(a), Box::new(b))) == holds(
            names,
            row,
            Condition::And(Box::new(b), Box::new(a)),
        ),
        holds(names, row, Condition::Or(Box::new(a), Box::new(a))) == holds(names, row, a),
        holds(names, row, Condition::And(Box::new(a), Box::new(a))) == holds(names, row, a),
        holds(names, row, Condition::Not(Box::new(Condition::Not(Box::new(a))))) == holds(names, row, a),
        holds(names, row, Condition::Not(Box::new(Condition::Or(Box::new(a), Box::new(b))))) == holds(
            names,
            row,
            Condition::And(Box::new(Condition::Not(Box::new(a))), Box::new(Condition::Not(Box::new(b)))),
        ),
        holds(names, row, Condition::Not(Box::new(Condition::And(Box::new(a), Box::new(b))))) == holds(
            names,
            row,
            Condition::Or(Box::new(Condition::Not(Box::new(a))), Box::new(Condition::Not(Box::new(b)))),
        ),
{
    reveal_with_fuel(holds, 3);
}

/// A row is kept by a filter exactly when it is one of the rows and satisfies the condition.
pub proof fn lemma_filtered_contains(names: Seq<Seq<char>>, rows: Seq<Seq<ValueView>>, cond: Condition)
    ensures
        forall|r: Seq<ValueView>|
            #[trigger] filtered_rows(names, rows, cond).contains(r) <==> rows.contains(r) && holds(names, r, cond),
    decreases rows.len(),
{
    if rows.len() > 0 {
        let init = rows.drop_last();
        lemma_filtered_contains(names, init, cond);
        let kept = filtered_rows(names, init, cond);
        assert forall|r: Seq<ValueView>|
            #[trigger] filtered_rows(names, rows, cond).contains(r) <==> rows.contains(r) && holds(names, r, cond) by {
            if filtered_rows(names, rows, cond).contains(r) {
                if kept.contains(r) {
                    let k = choose|k: int| 0 <= k < init.len() && init[k] == r;
                    assert(rows[k] == r);
                } else {
                    let f = filtered_rows(names, rows, cond);
                    let k = choose|k: int| 0 <= k < f.len() && f[k] == r;
                    if holds(names, rows.last(), cond) {
                        if k < kept.len() {
                            assert(kept[k] == r);
                        }
                    }
                    assert(rows[rows.len() - 1] == r);
                }
            }
            if rows.contains(r) && holds(names, r, cond) {
                let k = choose|k: int| 0 <= k < rows.len() && rows[k] == r;
                if k < rows.len() - 1 {
                    assert(init[k] == r);
                    assert(kept.contains(r));
                    let q = choose|q: int| 0 <= q < kept.len() && kept[q] == r;
                    if holds(names, rows.last(), cond) {
                        assert(kept.push(rows.last())[q] == r);
                    }
                } else {
                    assert(kept.push(rows.last())[kept.len() as int] == r);
                }
            }
        }
    }
}

/// Filtering by `Or(a, b)` keeps exactly the rows that filtering by `a` or filtering by `b`
/// keeps, and filtering by `And(a, b)` those that both keep.
pub proof fn lemma_filter_or_and(names: Seq<Seq<char>>, rows: Seq<Seq<ValueView>>, a: Condition, b: Condition)
    ensures
        forall|r: Seq<ValueView>|
            #[trigger] filtered_rows(names, rows, Condition::Or(Box::new(a), Box::new(b))).contains(r) <==> (
            filtered_rows(names, rows, a).contains(r) || filtered_rows(names, rows, b).contains(r)),
        forall|r: Seq<ValueView>|
            #[trigger] filtered_rows(names, rows, Condition::And(Box::new(a), Box::new(b))).contains(r) <==> (
            filtered_rows(names, rows, a).contains(r) && filtered_rows(names, rows, b).contains(r)),
{
    lemma_filtered_contains(names, rows, a);
    lemma_filtered_contains(names, rows, b);
    lemma_filtered_contains(names, rows, Condition::Or(Box::new(a), Box::new(b)));
    lemma_filtered_contains(names, rows, Condition::And(Box::new(a), Box::new(b)));
}

/// Division of `a` by a positive `b`, rounded toward zero.
pub open spec fn div_toward_zero(a: int, b: int) -> int {
    if a >= 0 {
        a / b
    } else {
        -((-a) / b)
    }
}

/// The aggregated value of a group of rows with the given columns.
pub open spec fn aggregate_value(columns: Seq<(Seq<char>, ColumnType)>, rows: Seq<Seq<ValueView>>, a: Aggregation) -> int {
    match a {
        Aggregation::Count(_) => rows.len() as int,
        Aggregation::Sum(c) => column_sum(rows, column_position(column_names(columns), c@)),
        Aggregation::Average(c) => div_toward_zero(
            column_sum(rows, column_position(column_names(columns), c@)),
            rows.len() as int,
        ),
    }
}

/// How the aggregations relate: a count is the number of rows; an average is the sum
/// divided by the count, rounded toward zero, so that the count times the average falls
/// short of the sum (toward zero) by less than the count (see also
/// `lemma_column_sum_constant`).
pub proof fn lemma_aggregate_laws(columns: Seq<(Seq<char>, ColumnType)>, rows: Seq<Seq<ValueView>>, c: String)
    ensures
        aggregate_value(columns, rows, Aggregation::Count(c)) == rows.len(),
        aggregate_value(columns, rows, Aggregation::Average(c)) == div_toward_zero(
            aggregate_value(columns, rows, Aggregation::Sum(c)),
            aggregate_value(columns, rows, Aggregation::Count(c)),
        ),
        rows.len() > 0 && aggregate_value(columns, rows, Aggregation::Sum(c)) >= 0 ==> {
            let q = aggregate_value(columns, rows, Aggregation::Average(c));
            let s = aggregate_value(columns, rows, Aggregation::Sum(c));
            0 <= s - q * rows.len() < rows.len()
        },
        rows.len() > 0 && aggregate_value(columns, rows, Aggregation::Sum(c)) < 0 ==> {
            let q = aggregate_value(columns, rows, Aggregation::Average(c));
            let s = aggregate_value(columns, rows, Aggregation::Sum(c));
            -(rows.len() as int) < s - q * rows.len() <= 0
        },
{
    let idx = column_position(column_names(columns), c@);
    let n = rows.len() as int;
    let s = column_sum(rows, idx);
    if n > 0 {
        if s >= 0 {
            vstd::arithmetic::div_mod::lemma_fundamental_div_mod(s, n);
            assert(0 <= s % n < n);
            assert(s - (s / n) * n == s % n) by (nonlinear_arith)
                requires
                    s == n * (s / n) + s % n,
            ;
        } else {
            vstd::arithmetic::div_mod::lemma_fundamental_div_mod(-s, n);
            assert(0 <= (-s) % n < n);
            assert(s - (-((-s) / n)) * n == -((-s) % n)) by (nonlinear_arith)
                requires
                    -s == n * ((-s) / n) + (-s) % n,
            ;
        }
    }
}

/// Rows that all hold `v` in column `idx` sum to their number times `v`, so that their
/// average is `v`.
pub proof fn lemma_column_sum_constant(rows: Seq<Seq<ValueView>>, idx: int, v: int)
    requires
        forall|r: int| 0 <= r < rows.len() ==> as_integer(#[trigger] rows[r][idx]) == v,
    ensures
        column_sum(rows, idx) == rows.len() * v,
        rows.len() > 0 ==> div_toward_zero(column_sum(rows, idx), rows.len() as int) == v,
    decreases rows.len(),
{
    lemma_column_sum_constant_sum(rows, idx, v);
    let n = rows.len() as int;
    if n > 0 {
        if v >= 0 {
            assert(n * v >= 0) by (nonlinear_arith)
                requires
                    n > 0,
                    v >= 0,
            ;
            vstd::arithmetic::div_mod::lemma_div_multiples_vanish(v, n);
        } else {
            assert(n * v < 0 && -(n * v) == n * (-v)) by (nonlinear_arith)
                requires
                    n > 0,
                    v < 0,
            ;
            vstd::arithmetic::div_mod::lemma_div_multiples_vanish(-v, n);
        }
    }
}

/// Rows that all hold `v` in column `idx` sum to their number times `v`.
proof fn lemma_column_sum_constant_sum(rows: Seq<Seq<ValueView>>, idx: int, v: int)
    requires
        forall|r: int| 0 <= r < rows.len() ==> as_integer(#[trigger] rows[r][idx]) == v,
    ensures
        column_sum(rows, idx) == rows.len() * v,
    decreases rows.len(),
{
    if rows.len() > 0 {
        let init = rows.drop_last();
        assert forall|r: int| 0 <= r < init.len() implies as_integer(#[trigger] init[r][idx]) == v by {
            assert(init[r] == rows[r]);
        }
        lemma_column_sum_constant_sum(init, idx, v);
        assert(as_integer(rows[rows.len() - 1][idx]) == v);
        assert((rows.len() - 1) * v + v == rows.len() * v) by (nonlinear_arith);
    }
}

/// Column `idx` holds an integer in every row, and every running sum down the column
/// fits in 32 bits.
pub open spec fn summable(rows: Seq<Seq<ValueView>>, idx: int) -> bool {
    &&& forall|r: int| 0 <= r < rows.len() ==> 0 <= idx < (#[trigger] rows[r]).len() && rows[r][idx] is Integer
    &&& forall|k: int| 0 <= k <= rows.len() ==> i32::MIN <= #[trigger] column_sum(rows.take(k), idx) <= i32::MAX
}

/// The aggregation can be computed on a group: counts fit in 32 bits, sums and averages
/// read an existing integer column whose running sums fit, and averages need a row.
pub open spec fn aggregable(columns: Seq<(Seq<char>, ColumnType)>, rows: Seq<Seq<ValueView>>, a: Aggregation) -> bool {
    match a {
        Aggregation::Count(_) => rows.len() <= i32::MAX,
        Aggregation::Sum(c) => {
            let idx = column_position(column_names(columns), c@);
            idx >= 0 && summable(rows, idx)
        },
        Aggregation::Average(c) => {
            let idx = column_position(column_names(columns), c@);
            &&& idx >= 0
            &&& summable(rows, idx)
            &&& 0 < rows.len() <= i32::MAX
        },
    }
}

/// Whether `row` satisfies `condition`, columns being looked up by name in `dataset`.
pub fn row_matches_filter(dataset: &Dataset, row: &Row, condition: &Condition) -> (r: bool)
    requires
        evaluable(column_names(dataset@.columns), row@, *condition),
    ensures
        r == holds(column_names(dataset@.columns), row@, *condition),
    decreases condition,
{
    match condition {
        Condition::Equal(column_name, value) => {
            proof {
                lemma_column_position(column_names(dataset@.columns), column_name@);
            }
            let index = dataset.column_index(column_name);
            *row.get_value(index) == *value
        },
        Condition::Not(inner) => !row_matches_filter(dataset, row, inner),
        Condition::And(left, right) => {
            row_matches_filter(dataset, row, left) && row_matches_filter(dataset, row, right)
        },
        Condition::Or(left, right) => {
            row_matches_filter(dataset, row, left) || row_matches_filter(dataset, row, right)
        },
    }
}

/// A copy of the column list.
fn copy_columns(columns: &Vec<(String, ColumnType)>) -> (c: Vec<(String, ColumnType)>)
    ensures
        columns_view(c@) == columns_view(columns@),
{
    let mut c: Vec<(String, ColumnType)> = Vec::with_capacity(columns.len());
    let mut i: usize = 0;
    while i < columns.len()
        invariant
            i <= columns@.len(),
            c@.len() == i,
            forall|j: int| 0 <= j < i ==> (#[trigger] c@[j]).0@ == columns@[j].0@ && c@[j].1 == columns@[j].1,
        decreases columns@.len() - i,
    {
        let name = columns[i].0.clone();
        let typ = columns[i].1;
        c.push((name, typ));
        i = i + 1;
    }
    assert(columns_view(c@) =~= columns_view(columns@));
    c
}

/// The rows of `dataset` that satisfy `filter`, in order, under the same columns.
pub fn filter_dataset(dataset: &Dataset, filter: &Condition) -> (result: Dataset)
    requires
        forall|r: int|
            0 <= r < dataset@.rows.len() ==> evaluable(column_names(dataset@.columns), #[trigger] dataset@.rows[r], *filter),
    ensures
        result@.columns == dataset@.columns,
        result@.rows == filtered_rows(column_names(dataset@.columns), dataset@.rows, *filter),
{
    let mut result = Dataset::new(copy_columns(dataset.columns()));
    let rows = dataset.rows();
    let ghost names = column_names(dataset@.columns);
    let mut i: usize = 0;
    while i < rows.len()
        invariant
            rows@.map_values(|row: Row| row@) == dataset@.rows,
            names == column_names(dataset@.columns),
            forall|r: int| 0 <= r < dataset@.rows.len() ==> evaluable(names, #[trigger] dataset@.rows[r], *filter),
            i <= rows@.len(),
            result@.columns == dataset@.columns,
            result@.rows == filtered_rows(names, dataset@.rows.take(i as int), *filter),
        decreases rows@.len() - i,
    {
        let row = &rows[i];
        assert(dataset@.rows[i as int] == row@);
        assert(dataset@.rows.take(i + 1).drop_last() =~= dataset@.rows.take(i as int));
        if row_matches_filter(dataset, row, filter) {
            result.add_row(row.clone());
        }
        i = i + 1;
    }
    assert(dataset@.rows.take(rows@.len() as int) =~= dataset@.rows);
    result
}

/// The distinct values are pairwise different and are exactly the values that occur.
pub proof fn lemma_distinct_in_order(vals: Seq<ValueView>)
    ensures
        forall|a: int, b: int|
            0 <= a < b < distinct_in_order(vals).len() ==> #[trigger] distinct_in_order(vals)[a]
                != #[trigger] distinct_in_order(vals)[b],
        forall|x: ValueView| #[trigger] distinct_in_order(vals).contains(x) <==> vals.contains(x),
    decreases vals.len(),
{
    if vals.len() > 0 {
        let init = vals.drop_last();
        lemma_distinct_in_order(init);
        let seen = distinct_in_order(init);
        assert forall|x: ValueView| vals.contains(x) <==> (init.contains(x) || x == vals.last()) by {
            if vals.contains(x) {
                let i = choose|i: int| 0 <= i < vals.len() && vals[i] == x;
                if i < vals.len() - 1 {
                    assert(init[i] == x);
                }
            }
            if init.contains(x) {
                let i = choose|i: int| 0 <= i < init.len() && init[i] == x;
                assert(vals[i] == x);
            }
            if x == vals.last() {
                assert(vals[vals.len() - 1] == x);
            }
        }
        if !seen.contains(vals.last()) {
            let d = seen.push(vals.last());
            assert forall|x: ValueView| #[trigger] d.contains(x) <==> (seen.contains(x) || x == vals.last()) by {
                if d.contains(x) {
                    let i = choose|i: int| 0 <= i < d.len() && d[i] == x;
                    if i < seen.len() {
                        assert(seen[i] == x);
                    }
                }
                if seen.contains(x) {
                    let i = choose|i: int| 0 <= i < seen.len() && seen[i] == x;
                    assert(d[i] == x);
                }
                if x == vals.last() {
                    assert(d[seen.len() as int] == x);
                }
            }
            assert forall|a: int, b: int| 0 <= a < b < d.len() implies #[trigger] d[a] != #[trigger] d[b] by {
                if b == seen.len() {
                    assert(seen.contains(d[a]));
                }
            }
        }
    }
}

/// No row holds `key` in column `idx`: no row is kept.
proof fn lemma_rows_with_absent(rows: Seq<Seq<ValueView>>, idx: int, key: ValueView)
    requires
        forall|r: int| 0 <= r < rows.len() ==> (#[trigger] rows[r])[idx] != key,
    ensures
        rows_with(rows, idx, key) == Seq::<Seq<ValueView>>::empty(),
    decreases rows.len(),
{
    if rows.len() > 0 {
        let init = rows.drop_last();
        assert forall|r: int| 0 <= r < init.len() implies (#[trigger] init[r])[idx] != key by {
            assert(init[r] == rows[r]);
        }
        lemma_rows_with_absent(init, idx, key);
        assert(rows[rows.len() - 1][idx] != key);
    }
}

/// The number of rows in all the groups together.
pub open spec fn total_rows(groups: Seq<(ValueView, Seq<Seq<ValueView>>)>) -> int
    decreases groups.len(),
{
    if groups.len() == 0 {
        0
    } else {
        total_rows(groups.drop_last()) + groups.last().1.len()
    }
}

/// One group per key of `keys`, each with the rows that hold that key in column `idx`.
spec fn groups_for(rows: Seq<Seq<ValueView>>, idx: int, keys: Seq<ValueView>) -> Seq<(ValueView, Seq<Seq<ValueView>>)> {
    Seq::new(keys.len(), |g: int| (keys[g], rows_with(rows, idx, keys[g])))
}

/// Every row kept for `key` holds `key` in column `idx`, and is one of the rows.
proof fn lemma_rows_with_key(rows: Seq<Seq<ValueView>>, idx: int, key: ValueView)
    ensures
        forall|j: int| 0 <= j < rows_with(rows, idx, key).len() ==> (#[trigger] rows_with(rows, idx, key)[j])[idx] == key
            && rows.contains(rows_with(rows, idx, key)[j]),
    decreases rows.len(),
{
    if rows.len() > 0 {
        let init = rows.drop_last();
        lemma_rows_with_key(init, idx, key);
        let kept = rows_with(init, idx, key);
        assert forall|j: int| 0 <= j < rows_with(rows, idx, key).len() implies (#[trigger] rows_with(rows, idx, key)[j])[idx] == key
            && rows.contains(rows_with(rows, idx, key)[j]) by {
            let f = rows_with(rows, idx, key);
            if j < kept.len() {
                assert(f[j] == kept[j]);
                assert(init.contains(kept[j]));
                let i = choose|i: int| 0 <= i < init.len() && init[i] == kept[j];
                assert(rows[i] == kept[j]);
            } else {
                assert(f[j] == rows.last());
                assert(rows[rows.len() - 1] == rows.last());
            }
        }
    }
}

/// Adding one row to the table adds one row to the groups of distinct keys exactly when
/// its key is one of them.
proof fn lemma_total_after_push(init: Seq<Seq<ValueView>>, x: Seq<ValueView>, idx: int, keys: Seq<ValueView>)
    requires
        forall|a: int, b: int| 0 <= a < b < keys.len() ==> #[trigger] keys[a] != #[trigger] keys[b],
    ensures
        total_rows(groups_for(init.push(x), idx, keys)) == total_rows(groups_for(init, idx, keys)) + if keys.contains(x[idx]) {
            1int
        } else {
            0int
        },
    decreases keys.len(),
{
    let rows = init.push(x);
    if keys.len() > 0 {
        let ks = keys.drop_last();
        let last = keys.last();
        assert forall|a: int, b: int| 0 <= a < b < ks.len() implies #[trigger] ks[a] != #[trigger] ks[b] by {
            assert(ks[a] == keys[a] && ks[b] == keys[b]);
        }
        lemma_total_after_push(init, x, idx, ks);
        assert(groups_for(rows, idx, keys).drop_last() =~= groups_for(rows, idx, ks));
        assert(groups_for(init, idx, keys).drop_last() =~= groups_for(init, idx, ks));
        assert(rows.drop_last() =~= init);
        assert(rows.last() == x);
        assert(keys.contains(x[idx]) <==> (ks.contains(x[idx]) || last == x[idx])) by {
            if keys.contains(x[idx]) {
                let i = choose|i: int| 0 <= i < keys.len() && keys[i] == x[idx];
                if i < ks.len() {
                    assert(ks[i] == x[idx]);
                }
            }
            if ks.contains(x[idx]) {
                let i = choose|i: int| 0 <= i < ks.len() && ks[i] == x[idx];
                assert(keys[i] == x[idx]);
            }
            if last == x[idx] {
                assert(keys[keys.len() - 1] == x[idx]);
            }
        }
        if ks.contains(x[idx]) {
            let i = choose|i: int| 0 <= i < ks.len() && ks[i] == x[idx];
            assert(keys[i] != keys[keys.len() - 1]);
        }
    }
}

/// Grouping partitions the rows: the keys are pairwise different, every row's key is the
/// key of a group, every row of a group holds the group's key and is one of the rows, and
/// the groups together hold as many rows as there are.
pub proof fn lemma_groups_partition(rows: Seq<Seq<ValueView>>, idx: int)
    ensures
        forall|a: int, b: int|
            0 <= a < b < groups_of(rows, idx).len() ==> (#[trigger] groups_of(rows, idx)[a]).0
                != (#[trigger] groups_of(rows, idx)[b]).0,
        forall|r: int|
            0 <= r < rows.len() ==> exists|g: int|
                0 <= g < groups_of(rows, idx).len() && (#[trigger] groups_of(rows, idx)[g]).0 == (#[trigger] rows[r])[idx],
        forall|g: int, j: int|
            0 <= g < groups_of(rows, idx).len() && 0 <= j < groups_of(rows, idx)[g].1.len() ==> (
            #[trigger] groups_of(rows, idx)[g].1[j])[idx] == groups_of(rows, idx)[g].0 && rows.contains(
                groups_of(rows, idx)[g].1[j],
            ),
        total_rows(groups_of(rows, idx)) == rows.len(),
    decreases rows.len(),
{
    let vals = column_values(rows, idx);
    let keys = distinct_in_order(vals);
    lemma_distinct_in_order(vals);
    let groups = groups_of(rows, idx);
    assert(groups == groups_for(rows, idx, keys));
    assert forall|r: int| 0 <= r < rows.len() implies exists|g: int|
        0 <= g < groups.len() && (#[trigger] groups[g]).0 == (#[trigger] rows[r])[idx] by {
        assert(vals[r] == rows[r][idx]);
        assert(vals.contains(rows[r][idx]));
        assert(keys.contains(rows[r][idx]));
        let g = choose|g: int| 0 <= g < keys.len() && keys[g] == rows[r][idx];
        assert(groups[g].0 == keys[g]);
    }
    assert forall|g: int, j: int| 0 <= g < groups.len() && 0 <= j < groups[g].1.len() implies (
    #[trigger] groups[g].1[j])[idx] == groups[g].0 && rows.contains(groups[g].1[j]) by {
        lemma_rows_with_key(rows, idx, keys[g]);
    }
    if rows.len() == 0 {
        assert(vals =~= Seq::<ValueView>::empty());
        assert(groups.len() == 0);
    } else {
        let init = rows.drop_last();
        let x = rows.last();
        lemma_groups_partition(init, idx);
        let vals0 = column_values(init, idx);
        let keys0 = distinct_in_order(vals0);
        lemma_distinct_in_order(vals0);
        assert(vals.drop_last() =~= vals0);
        assert(vals.last() == x[idx]);
        assert(rows =~= init.push(x));
        assert(groups_of(init, idx) == groups_for(init, idx, keys0));
        lemma_total_after_push(init, x, idx, keys0);
        if keys0.contains(x[idx]) {
            assert(keys == keys0);
        } else {
            assert(keys == keys0.push(x[idx]));
            assert forall|r: int| 0 <= r < init.len() implies (#[trigger] init[r])[idx] != x[idx] by {
                assert(vals0[r] == init[r][idx]);
            }
            lemma_rows_with_absent(init, idx, x[idx]);
            assert(groups_for(rows, idx, keys).drop_last() =~= groups_for(rows, idx, keys0));
            assert(rows.drop_last() =~= init);
        }
    }
}

/// Groups the rows of `dataset` by their value in column `group_by_column`: one group
/// per distinct value, in the order in which the values first occur, each holding
/// (under the same columns) the rows with that value, in order.
pub fn group_by_dataset(dataset: Dataset, group_by_column: &String) -> (groups: Vec<(Value, Dataset)>)
    requires
        dataset@.well_formed(),
        dataset@.position(group_by_column@) >= 0,
    ensures
        groups@.len() == groups_of(dataset@.rows, dataset@.position(group_by_column@)).len(),
        forall|g: int|
            0 <= g < groups@.len() ==> (#[trigger] groups@[g]).0@ == groups_of(
                dataset@.rows,
                dataset@.position(group_by_column@),
            )[g].0 && groups@[g].1@.columns == dataset@.columns && groups@[g].1@.rows == groups_of(
                dataset@.rows,
                dataset@.position(group_by_column@),
            )[g].1,
{
    let idx = dataset.column_index(group_by_column);
    proof {
        lemma_column_position(column_names(dataset@.columns), group_by_column@);
    }
    let ghost all = dataset@.rows;
    let rows = dataset.rows();
    let mut groups: Vec<(Value, Dataset)> = Vec::new();
    let mut i: usize = 0;
    while i < rows.len()
        invariant
            rows@.map_values(|row: Row| row@) == all,
            all == dataset@.rows,
            dataset@.well_formed(),
            0 <= idx < dataset@.columns.len(),
            i <= rows@.len(),
            groups@.len() == distinct_in_order(column_values(all.take(i as int), idx as int)).len(),
            forall|g: int|
                0 <= g < groups@.len() ==> (#[trigger] groups@[g]).0@ == distinct_in_order(
                    column_values(all.take(i as int), idx as int),
                )[g] && groups@[g].1@.columns == dataset@.columns && groups@[g].1@.rows == rows_with(
                    all.take(i as int),
                    idx as int,
                    distinct_in_order(column_values(all.take(i as int), idx as int))[g],
                ),
        decreases rows@.len() - i,
    {
        let row = &rows[i];
        assert(all[i as int] == row@);
        assert(row@.len() == dataset@.columns.len());
        let v = row.get_value(idx);
        let ghost pre = all.take(i as int);
        let ghost post = all.take(i + 1);
        let ghost keys = distinct_in_order(column_values(pre, idx as int));
        proof {
            assert(post.drop_last() =~= pre);
            assert(column_values(post, idx as int).drop_last() =~= column_values(pre, idx as int));
            assert(column_values(post, idx as int).last() == v@);
            lemma_distinct_in_order(column_values(pre, idx as int));
        }
        let mut g: usize = 0;
        let mut found = false;
        while g < groups.len() && !found
            invariant
                g <= groups@.len(),
                found ==> g < groups@.len() && groups@[g as int].0@ == v@,
                forall|q: int| 0 <= q < g ==> (#[trigger] groups@[q]).0@ != v@,
            decreases groups@.len() - g, if found { 0int } else { 1int },
        {
            if groups[g].0 == *v {
                found = true;
            } else {
                g = g + 1;
            }
        }
        let ghost before = groups@;
        if found {
            groups[g].1.add_row(row.clone());
            proof {
                assert(keys.contains(v@)) by {
                    assert(keys[g as int] == v@);
                }
                assert(distinct_in_order(column_values(post, idx as int)) == keys);
                assert forall|q: int| 0 <= q < groups@.len() implies (#[trigger] groups@[q]).0@ == keys[q]
                    && groups@[q].1@.columns == dataset@.columns && groups@[q].1@.rows == rows_with(post, idx as int, keys[q]) by {
                    assert(post.last() == row@);
                    if q != g as int {
                        assert(groups@[q] == before[q]);
                        assert(keys[q] != keys[g as int]);
                    }
                }
            }
        } else {
            let mut d = Dataset::new(copy_columns(dataset.columns()));
            d.add_row(row.clone());
            groups.push((v.clone(), d));
            proof {
                assert(!keys.contains(v@)) by {
                    if keys.contains(v@) {
                        let q = choose|q: int| 0 <= q < keys.len() && keys[q] == v@;
                        assert(before[q].0@ != v@);
                    }
                }
                let nk = distinct_in_order(column_values(post, idx as int));
                assert(nk == keys.push(v@));
                assert forall|r: int| 0 <= r < pre.len() implies (#[trigger] pre[r])[idx as int] != v@ by {
                    assert(column_values(pre, idx as int)[r] == pre[r][idx as int]);
                    if pre[r][idx as int] == v@ {
                        assert(column_values(pre, idx as int).contains(v@));
                    }
                }
                lemma_rows_with_absent(pre, idx as int, v@);
                assert forall|q: int| 0 <= q < groups@.len() implies (#[trigger] groups@[q]).0@ == nk[q]
                    && groups@[q].1@.columns == dataset@.columns && groups@[q].1@.rows == rows_with(post, idx as int, nk[q]) by {
                    assert(post.last() == row@);
                    if q < before.len() {
                        assert(groups@[q] == before[q]);
                        assert(keys[q] != v@) by {
                            assert(keys.contains(keys[q]));
                        }
                    } else {
                        assert(groups@[q].1@.rows =~= seq![row@]);
                        assert(rows_with(post, idx as int, v@) =~= Seq::<Seq<ValueView>>::empty().push(row@));
                    }
                }
            }
        }
        i = i + 1;
    }
    assert(all.take(rows@.len() as int) =~= all);
    groups
}

/// Every kept row is one of the rows.
pub proof fn lemma_filtered_rows_subset(names: Seq<Seq<char>>, rows: Seq<Seq<ValueView>>, cond: Condition)
    ensures
        forall|r: int|
            0 <= r < filtered_rows(names, rows, cond).len() ==> rows.contains(
                #[trigger] filtered_rows(names, rows, cond)[r],
            ),
    decreases rows.len(),
{
    if rows.len() > 0 {
        let init = rows.drop_last();
        lemma_filtered_rows_subset(names, init, cond);
        let kept = filtered_rows(names, init, cond);
        assert forall|r: int| 0 <= r < filtered_rows(names, rows, cond).len() implies rows.contains(
            #[trigger] filtered_rows(names, rows, cond)[r],
        ) by {
            let f = filtered_rows(names, rows, cond);
            if r < kept.len() {
                assert(f[r] == kept[r]);
                assert(init.contains(kept[r]));
                let i = choose|i: int| 0 <= i < init.len() && init[i] == kept[r];
                assert(rows[i] == kept[r]);
            } else {
                assert(f[r] == rows.last());
                assert(rows[rows.len() - 1] == rows.last());
            }
        }
    }
}

/// The sum of column `idx` of `rows`, which must be summable.
fn sum_column(rows: &Vec<Row>, index: usize) -> (sum: i32)
    requires
        summable(rows@.map_values(|row: Row| row@), index as int),
    ensures
        sum == column_sum(rows@.map_values(|row: Row| row@), index as int),
{
    let ghost all = rows@.map_values(|row: Row| row@);
    let mut sum: i32 = 0;
    let mut k: usize = 0;
    while k < rows.len()
        invariant
            all == rows@.map_values(|row: Row| row@),
            summable(all, index as int),
            k <= rows@.len(),
            sum == column_sum(all.take(k as int), index as int),
        decreases rows@.len() - k,
    {
        assert(all[k as int] == rows@[k as int]@);
        assert(all.take(k + 1).drop_last() =~= all.take(k as int));
        assert(all.take(k + 1).last() == all[k as int]);
        let ghost next = column_sum(all.take(k + 1), index as int);
        assert(i32::MIN <= next <= i32::MAX);
        match rows[k].get_value(index) {
            Value::Integer(number) => {
                sum = sum + *number;
            },
            Value::String(_) => {
                assert(false);
            },
        }
        k = k + 1;
    }
    assert(all.take(rows@.len() as int) =~= all);
    sum
}

/// Reduces every group to one integer: `Count` gives its number of rows, `Sum` the sum
/// of the integers in the column, `Average` that sum divided by the number of rows
/// (rounded toward zero). The groups keep their keys and their order.
pub fn aggregate_dataset(dataset: Vec<(Value, Dataset)>, aggregation: &Aggregation) -> (result: Vec<(Value, Value)>)
    requires
        forall|g: int|
            0 <= g < dataset@.len() ==> aggregable(
                (#[trigger] dataset@[g]).1@.columns,
                dataset@[g].1@.rows,
                *aggregation,
            ),
    ensures
        result@.len() == dataset@.len(),
        forall|g: int|
            0 <= g < result@.len() ==> (#[trigger] result@[g]).0@ == dataset@[g].0@ && result@[g].1@
                == ValueView::Integer(
                aggregate_value(dataset@[g].1@.columns, dataset@[g].1@.rows, *aggregation) as i32,
            ),
{
    let mut result: Vec<(Value, Value)> = Vec::with_capacity(dataset.len());
    let mut g: usize = 0;
    while g < dataset.len()
        invariant
            forall|q: int|
                0 <= q < dataset@.len() ==> aggregable(
                    (#[trigger] dataset@[q]).1@.columns,
                    dataset@[q].1@.rows,
                    *aggregation,
                ),
            g <= dataset@.len(),
            result@.len() == g,
            forall|q: int|
                0 <= q < g ==> (#[trigger] result@[q]).0@ == dataset@[q].0@ && result@[q].1@
                    == ValueView::Integer(
                    aggregate_value(dataset@[q].1@.columns, dataset@[q].1@.rows, *aggregation) as i32,
                ),
        decreases dataset@.len() - g,
    {
        let group_value = &dataset[g].0;
        let grouped_dataset = &dataset[g].1;
        let ghost cols = grouped_dataset@.columns;
        let ghost rows = grouped_dataset@.rows;
        let value = match aggregation {
            Aggregation::Count(_column_name) => Value::Integer(grouped_dataset.len() as i32),
            Aggregation::Sum(column_name) => {
                proof {
                    lemma_column_position(column_names(cols), column_name@);
                }
                let index = grouped_dataset.column_index(column_name);
                let sum = sum_column(grouped_dataset.rows(), index);
                Value::Integer(sum)
            },
            Aggregation::Average(column_name) => {
                proof {
                    lemma_column_position(column_names(cols), column_name@);
                }
                let index = grouped_dataset.column_index(column_name);
                let sum = sum_column(grouped_dataset.rows(), index);
                let count = grouped_dataset.len() as i32;
                let average = sum / count;
                assert(average == div_toward_zero(sum as int, count as int));
                Value::Integer(average)
            },
        };
        result.push((group_value.clone(), value));
        g = g + 1;
    }
    result
}

/// The groups a query forms: the rows that pass its filter, grouped by its column.
pub open spec fn query_groups(d: DatasetView, q: Query) -> Seq<(ValueView, Seq<Seq<ValueView>>)> {
    groups_of(
        filtered_rows(column_names(d.columns), d.rows, q.spec_filter()),
        d.position(q.spec_group_by()),
    )
}

/// The query can run on the table without failing: the rows have one value per column,
/// the filter only looks up existing columns, the grouping column exists, and every
/// group can be aggregated.
pub open spec fn can_run(d: DatasetView, q: Query) -> bool {
    &&& d.well_formed()
    &&& forall|r: int|
        0 <= r < d.rows.len() ==> evaluable(column_names(d.columns), #[trigger] d.rows[r], q.spec_filter())
    &&& d.position(q.spec_group_by()) >= 0
    &&& forall|g: int|
        0 <= g < query_groups(d, q).len() ==> aggregable(
            d.columns,
            (#[trigger] query_groups(d, q)[g]).1,
            q.spec_aggregate(),
        )
}

/// `r` is the answer to query `q` on table `d`: two columns, the grouping column (with its
/// type) and the aggregate (an integer column named after the aggregation), and one row
/// per group holding the group's value and its aggregate, in the order of the groups.
pub open spec fn is_query_result(d: DatasetView, q: Query, r: DatasetView) -> bool {
    &&& r.columns == seq![
        (q.spec_group_by(), d.columns[d.position(q.spec_group_by())].1),
        (result_column_name(q.spec_aggregate()), ColumnType::Integer),
    ]
    &&& r.rows.len() == query_groups(d, q).len()
    &&& forall|g: int|
        0 <= g < r.rows.len() ==> #[trigger] r.rows[g] == seq![
            query_groups(d, q)[g].0,
            ValueView::Integer(
                aggregate_value(d.columns, query_groups(d, q)[g].1, q.spec_aggregate()) as i32,
            ),
        ]
}

/// A query has one answer: two tables that are both its answer on the same table are equal.
pub proof fn lemma_query_result_unique(d: DatasetView, q: Query, r1: DatasetView, r2: DatasetView)
    requires
        is_query_result(d, q, r1),
        is_query_result(d, q, r2),
    ensures
        r1 == r2,
{
    assert(r1.rows =~= r2.rows);
}

/// Runs `query` on `dataset`: filters the rows, groups them by the query's column and
/// aggregates every group (see `is_query_result`).
pub fn compute_query_on_dataset(dataset: &Dataset, query: &Query) -> (result: Dataset)
    requires
        can_run(dataset@, *query),
    ensures
        is_query_result(dataset@, *query, result@),
{
    let filtered = filter_dataset(dataset, query.get_filter());
    proof {
        lemma_filtered_rows_subset(column_names(dataset@.columns), dataset@.rows, query.spec_filter());
        assert forall|r: int| 0 <= r < filtered@.rows.len() implies (#[trigger] filtered@.rows[r]).len()
            == filtered@.columns.len() by {
            assert(dataset@.rows.contains(filtered@.rows[r]));
            let i = choose|i: int| 0 <= i < dataset@.rows.len() && dataset@.rows[i] == filtered@.rows[r];
        }
    }
    let grouped = group_by_dataset(filtered, query.get_group_by());
    let ghost groups = query_groups(dataset@, *query);
    assert forall|g: int| 0 <= g < grouped@.len() implies aggregable(
        (#[trigger] grouped@[g]).1@.columns,
        grouped@[g].1@.rows,
        query.spec_aggregate(),
    ) by {
        assert(groups[g].1 == grouped@[g].1@.rows);
    }
    let aggregated = aggregate_dataset(grouped, query.get_aggregate());
    let group_by_column_name = query.get_group_by();
    let group_by_column_type = dataset.column_type(group_by_column_name);
    let mut columns: Vec<(String, ColumnType)> = Vec::with_capacity(2);
    columns.push((group_by_column_name.clone(), *group_by_column_type));
    columns.push((query.get_aggregate().get_result_column_name(), ColumnType::Integer));
    let mut result = Dataset::new(columns);
    assert(result@.columns =~= seq![
        (query.spec_group_by(), dataset@.columns[dataset@.position(query.spec_group_by())].1),
        (result_column_name(query.spec_aggregate()), ColumnType::Integer),
    ]);
    let mut g: usize = 0;
    while g < aggregated.len()
        invariant
            aggregated@.len() == groups.len(),
            forall|q: int|
                0 <= q < aggregated@.len() ==> (#[trigger] aggregated@[q]).0@ == groups[q].0
                    && aggregated@[q].1@ == ValueView::Integer(
                    aggregate_value(dataset@.columns, groups[q].1, query.spec_aggregate()) as i32,
                ),
            g <= aggregated@.len(),
            result@.columns == seq![
                (query.spec_group_by(), dataset@.columns[dataset@.position(query.spec_group_by())].1),
                (result_column_name(query.spec_aggregate()), ColumnType::Integer),
            ],
            result@.rows.len() == g,
            forall|q: int|
                0 <= q < g ==> #[trigger] result@.rows[q] == seq![
                    groups[q].0,
                    ValueView::Integer(
                        aggregate_value(dataset@.columns, groups[q].1, query.spec_aggregate()) as i32,
                    ),
                ],
        decreases aggregated@.len() - g,
    {
        let mut values: Vec<Value> = Vec::with_capacity(2);
        values.push(aggregated[g].0.clone());
        values.push(aggregated[g].1.clone());
        let row = Row::new(values);
        assert(row@ =~= seq![aggregated@[g as int].0@, aggregated@[g as int].1@]);
        result.add_row(row);
        g = g + 1;
    }
    result
}


/// Whether checking `cond` on `row` only looks up columns of `dataset` that exist in the row.
fn condition_evaluable(dataset: &Dataset, row: &Row, cond: &Condition) -> (r: bool)
    ensures
        r == evaluable(column_names(dataset@.columns), row@, *cond),
    decreases cond,
{
    match cond {
        Condition::Equal(name, _) => match dataset.find_column(name) {
            Some(i) => i < row.len(),
            None => false,
        },
        Condition::Not(inner) => condition_evaluable(dataset, row, inner),
        Condition::And(left, right) => {
            if !condition_evaluable(dataset, row, left) {
                false
            } else if row_matches_filter(dataset, row, left) {
                condition_evaluable(dataset, row, right)
            } else {
                true
            }
        },
        Condition::Or(left, right) => {
            if !condition_evaluable(dataset, row, left) {
                false
            } else if row_matches_filter(dataset, row, left) {
                true
            } else {
                condition_evaluable(dataset, row, right)
            }
        },
    }
}

/// Whether column `index` of `rows` holds an integer in every row with every running sum
/// in 32 bits.
fn column_summable(rows: &Vec<Row>, index: usize) -> (r: bool)
    ensures
        r == summable(rows@.map_values(|row: Row| row@), index as int),
{
    let ghost all = rows@.map_values(|row: Row| row@);
    let mut sum: i64 = 0;
    let mut k: usize = 0;
    while k < rows.len()
        invariant
            all == rows@.map_values(|row: Row| row@),
            k <= rows@.len(),
            forall|r: int| 0 <= r < k ==> 0 <= index < (#[trigger] all[r]).len() && all[r][index as int] is Integer,
            forall|j: int| 0 <= j <= k ==> i32::MIN <= #[trigger] column_sum(all.take(j), index as int) <= i32::MAX,
            sum == column_sum(all.take(k as int), index as int),
        decreases rows@.len() - k,
    {
        let row = &rows[k];
        assert(all[k as int] == row@);
        if index >= row.len() {
            return false;
        }
        assert(all.take(k + 1).drop_last() =~= all.take(k as int));
        assert(all.take(k + 1).last() == all[k as int]);
        match row.get_value(index) {
            Value::Integer(number) => {
                let next: i64 = sum + (*number as i64);
                assert(next == column_sum(all.take(k + 1), index as int));
                if next < (i32::MIN as i64) || next > (i32::MAX as i64) {
                    return false;
                }
                sum = next;
            },
            Value::String(_) => {
                return false;
            },
        }
        k = k + 1;
    }
    assert(all.take(rows@.len() as int) =~= all);
    true
}

/// Whether `aggregation` can be computed on `group` (see `aggregable`).
fn group_aggregable(group: &Dataset, aggregation: &Aggregation) -> (r: bool)
    ensures
        r == aggregable(group@.columns, group@.rows, *aggregation),
{
    match aggregation {
        Aggregation::Count(_) => group.len() <= (i32::MAX as usize),
        Aggregation::Sum(column_name) => match group.find_column(column_name) {
            Some(i) => column_summable(group.rows(), i),
            None => false,
        },
        Aggregation::Average(column_name) => match group.find_column(column_name) {
            Some(i) => column_summable(group.rows(), i) && 0 < group.len() && group.len() <= (i32::MAX as usize),
            None => false,
        },
    }
}

/// Whether `query` can run on `dataset` (see `can_run`): callers that cannot know it ask
/// here before calling `compute_query_on_dataset`.
pub fn query_can_run(dataset: &Dataset, query: &Query) -> (r: bool)
    ensures
        r == can_run(dataset@, *query),
{
    let columns = dataset.columns();
    let rows = dataset.rows();
    let ghost names = column_names(dataset@.columns);
    let mut i: usize = 0;
    while i < rows.len()
        invariant
            rows@.map_values(|row: Row| row@) == dataset@.rows,
            columns_view(columns@) == dataset@.columns,
            names == column_names(dataset@.columns),
            i <= rows@.len(),
            forall|r: int| 0 <= r < i ==> (#[trigger] dataset@.rows[r]).len() == dataset@.columns.len()
                && evaluable(names, dataset@.rows[r], query.spec_filter()),
        decreases rows@.len() - i,
    {
        assert(dataset@.rows[i as int] == rows@[i as int]@);
        if rows[i].len() != columns.len() {
            return false;
        }
        if !condition_evaluable(dataset, &rows[i], query.get_filter()) {
            return false;
        }
        i = i + 1;
    }
    if dataset.find_column(query.get_group_by()).is_none() {
        return false;
    }
    let filtered = filter_dataset(dataset, query.get_filter());
    proof {
        lemma_filtered_rows_subset(names, dataset@.rows, query.spec_filter());
        assert forall|r: int| 0 <= r < filtered@.rows.len() implies (#[trigger] filtered@.rows[r]).len()
            == filtered@.columns.len() by {
            assert(dataset@.rows.contains(filtered@.rows[r]));
            let i = choose|i: int| 0 <= i < dataset@.rows.len() && dataset@.rows[i] == filtered@.rows[r];
        }
    }
    let grouped = group_by_dataset(filtered, query.get_group_by());
    let ghost groups = query_groups(dataset@, *query);
    let mut g: usize = 0;
    while g < grouped.len()
        invariant
            groups == query_groups(dataset@, *query),
            grouped@.len() == groups.len(),
            forall|q: int| 0 <= q < grouped@.len() ==> (#[trigger] grouped@[q]).1@.columns == dataset@.columns
                && grouped@[q].1@.rows == groups[q].1,
            g <= grouped@.len(),
            forall|q: int| 0 <= q < g ==> aggregable(dataset@.columns, (#[trigger] groups[q]).1, query.spec_aggregate()),
        decreases grouped@.len() - g,
    {
        if !group_aggregable(&grouped[g].1, query.get_aggregate()) {
            return false;
        }
        g = g + 1;
    }
    true
}

} // verus!
