//! In-memory tables: typed columns and rows of integer or string values.
use vstd::prelude::*;
use vstd::std_specs::cmp::PartialEqSpecImpl;

verus! {

/// A value of a cell: a 32-bit integer or a string.
#[derive(Debug)]
pub enum Value {
    Integer(i32),
    String(String),
}

/// The mathematical value of a cell.
pub enum ValueView {
    Integer(i32),
    Text(Seq<char>),
}

impl View for Value {
    type V = ValueView;

    open spec fn view(&self) -> ValueView {
        match self {
            Value::Integer(i) => ValueView::Integer(*i),
            Value::String(s) => ValueView::Text(s@),
        }
    }
}

impl PartialEq for Value {
    fn eq(&self, other: &Value) -> (r: bool) {
        match (self, other) {
            (Value::Integer(a), Value::Integer(b)) => *a == *b,
            (Value::String(a), Value::String(b)) => a.eq(b),
            _ => false,
        }
    }
}

impl PartialEqSpecImpl for Value {
    open spec fn obeys_eq_spec() -> bool {
        true
    }

    open spec fn eq_spec(&self, other: &Value) -> bool {
        self@ == other@
    }
}

impl Clone for Value {
    fn clone(&self) -> (r: Value)
        ensures
            r@ == self@,
    {
        match self {
            Value::Integer(i) => Value::Integer(*i),
            Value::String(s) => Value::String(s.clone()),
        }
    }
}

/// The type of a column.
#[derive(Clone, Copy, Debug, PartialEq, Eq, Structural)]
pub enum ColumnType {
    Integer,
    String,
}

/// A row: one value per column.
pub struct Row {
    values: Vec<Value>,
}

impl View for Row {
    type V = Seq<ValueView>;

    closed spec fn view(&self) -> Seq<ValueView> {
        self.values@.map_values(|v: Value| v@)
    }
}

impl Row {
    /// A row holding `values`, in order.
    pub fn new(values: Vec<Value>) -> (r: Row)
        ensures
            r@ == values@.map_values(|v: Value| v@),
    {
        Row { values }
    }

    /// The value in column `index`.
    pub fn get_value(&self, index: usize) -> (v: &Value)
        requires
            index < self@.len(),
        ensures
            v@ == self@[index as int],
    {
        &self.values[index]
    }

    /// The number of values.
    pub fn len(&self) -> (n: usize)
        ensures
            n == self@.len(),
    {
        self.values.len()
    }
}

impl Clone for Row {
    fn clone(&self) -> (r: Row)
        ensures
            r@ == self@,
    {
        let mut values: Vec<Value> = Vec::with_capacity(self.values.len());
        let mut i: usize = 0;
        while i < self.values.len()
            invariant
                i <= self.values@.len(),
                values@.len() == i,
                forall|j: int| 0 <= j < i ==> (#[trigger] values@[j])@ == self.values@[j]@,
            decreases self.values@.len() - i,
        {
            values.push(self.values[i].clone());
            i = i + 1;
        }
        let r = Row { values };
        assert(r@ =~= self@);
        r
    }
}

/// The name and type of every column.
pub open spec fn columns_view(columns: Seq<(String, ColumnType)>) -> Seq<(Seq<char>, ColumnType)> {
    columns.map_values(|c: (String, ColumnType)| (c.0@, c.1))
}

/// A table: named, typed columns and a list of rows.
pub struct Dataset {
    columns: Vec<(String, ColumnType)>,
    rows: Vec<Row>,
}

/// The mathematical content of a table.
pub struct DatasetView {
    pub columns: Seq<(Seq<char>, ColumnType)>,
    pub rows: Seq<Seq<ValueView>>,
}

impl View for Dataset {
    type V = DatasetView;

    closed spec fn view(&self) -> DatasetView {
        DatasetView {
            columns: columns_view(self.columns@),
            rows: self.rows@.map_values(|r: Row| r@),
        }
    }
}

/// The names of the columns.
pub open spec fn column_names(columns: Seq<(Seq<char>, ColumnType)>) -> Seq<Seq<char>> {
    columns.map_values(|c: (Seq<char>, ColumnType)| c.0)
}

/// The position of the first column named `name`, or -1 when there is none.
pub open spec fn column_position(names: Seq<Seq<char>>, name: Seq<char>) -> int
    decreases names.len(),
{
    if names.len() == 0 {
        -1
    } else {
        let p = column_position(names.drop_last(), name);
        if p >= 0 {
            p
        } else if names.last() == name {
            names.len() - 1
        } else {
            -1
        }
    }
}

/// A column position is either -1 (absent) or the first position with that name.
pub proof fn lemma_column_position(names: Seq<Seq<char>>, name: Seq<char>)
    ensures
        -1 <= column_position(names, name) < names.len(),
        column_position(names, name) >= 0 ==> names[column_position(names, name)] == name,
        column_position(names, name) >= 0 ==> forall|q: int|
            0 <= q < column_position(names, name) ==> #[trigger] names[q] != name,
        column_position(names, name) == -1 <==> forall|q: int| 0 <= q < names.len() ==> #[trigger] names[q] != name,
    decreases names.len(),
{
    if names.len() > 0 {
        lemma_column_position(names.drop_last(), name);
        let p = column_position(names.drop_last(), name);
        if p >= 0 {
            assert(names[p] == names.drop_last()[p]);
            assert forall|q: int| 0 <= q < p implies #[trigger] names[q] != name by {
                assert(names[q] == names.drop_last()[q]);
            }
        } else {
            assert forall|q: int| 0 <= q < names.len() - 1 implies #[trigger] names[q] != name by {
                assert(names[q] == names.drop_last()[q]);
            }
        }
    }
}

impl DatasetView {
    /// Every row has exactly one value per column.
    pub open spec fn well_formed(self) -> bool {
        forall|r: int| 0 <= r < self.rows.len() ==> (#[trigger] self.rows[r]).len() == self.columns.len()
    }

    /// The position of the first column named `name`, or -1.
    pub open spec fn position(self, name: Seq<char>) -> int {
        column_position(column_names(self.columns), name)
    }
}

impl Clone for Dataset {
    fn clone(&self) -> (d: Dataset)
        ensures
            d@ == self@,
    {
        let mut columns: Vec<(String, ColumnType)> = Vec::with_capacity(self.columns.len());
        let mut i: usize = 0;
        while i < self.columns.len()
            invariant
                i <= self.columns@.len(),
                columns@.len() == i,
                forall|j: int| 0 <= j < i ==> (#[trigger] columns@[j]).0@ == self.columns@[j].0@ && columns@[j].1 == self.columns@[j].1,
            decreases self.columns@.len() - i,
        {
            columns.push((self.columns[i].0.clone(), self.columns[i].1));
            i = i + 1;
        }
        let mut rows: Vec<Row> = Vec::with_capacity(self.rows.len());
        let mut k: usize = 0;
        while k < self.rows.len()
            invariant
                k <= self.rows@.len(),
                rows@.len() == k,
                forall|j: int| 0 <= j < k ==> (#[trigger] rows@[j])@ == self.rows@[j]@,
            decreases self.rows@.len() - k,
        {
            rows.push(self.rows[k].clone());
            k = k + 1;
        }
        let d = Dataset { columns, rows };
        assert(d@.columns =~= self@.columns);
        assert(d@.rows =~= self@.rows);
        d
    }
}

impl Dataset {
    /// An empty table with the given columns.
    pub fn new(columns: Vec<(String, ColumnType)>) -> (d: Dataset)
        ensures
            d@.columns == columns_view(columns@),
            d@.rows == Seq::<Seq<ValueView>>::empty(),
    {
        let d = Dataset { columns, rows: Vec::new() };
        assert(d@.rows =~= Seq::<Seq<ValueView>>::empty());
        d
    }

    /// The columns.
    pub fn columns(&self) -> (c: &Vec<(String, ColumnType)>)
        ensures
            columns_view(c@) == self@.columns,
    {
        &self.columns
    }

    /// The rows, in order.
    pub fn rows(&self) -> (r: &Vec<Row>)
        ensures
            r@.map_values(|row: Row| row@) == self@.rows,
    {
        &self.rows
    }

    /// Appends `row`.
    pub fn add_row(&mut self, row: Row)
        ensures
            final(self)@.columns == old(self)@.columns,
            final(self)@.rows == old(self)@.rows.push(row@),
    {
        self.rows.push(row);
        assert(self@.rows =~= old(self)@.rows.push(row@));
    }

    /// The number of rows.
    pub fn len(&self) -> (n: usize)
        ensures
            n == self@.rows.len(),
    {
        self.rows.len()
    }

    /// The position of the first column named `name`, if there is one.
    pub fn find_column(&self, name: &String) -> (r: Option<usize>)
        ensures
            match r {
                Some(i) => i == self@.position(name@),
                None => self@.position(name@) == -1,
            },
    {
        let ghost names = column_names(self@.columns);
        proof {
            lemma_column_position(names, name@);
        }
        let mut i: usize = 0;
        while i < self.columns.len()
            invariant
                names == column_names(self@.columns),
                names.len() == self.columns@.len(),
                i <= self.columns@.len(),
                forall|q: int| 0 <= q < i ==> #[trigger] names[q] != name@,
                -1 <= column_position(names, name@) < names.len(),
                column_position(names, name@) >= 0 ==> names[column_position(names, name@)] == name@,
                column_position(names, name@) >= 0 ==> forall|q: int|
                    0 <= q < column_position(names, name@) ==> #[trigger] names[q] != name@,
                column_position(names, name@) == -1 <==> forall|q: int| 0 <= q < names.len() ==> #[trigger] names[q] != name@,
            decreases self.columns@.len() - i,
        {
            let same = self.columns[i].0.eq(name);
            assert(names[i as int] == self.columns@[i as int].0@);
            if same {
                return Some(i);
            }
            i = i + 1;
        }
        None
    }

    /// The position of the first column named `name`.
    pub fn column_index(&self, name: &String) -> (i: usize)
        requires
            self@.position(name@) >= 0,
        ensures
            i == self@.position(name@),
    {
        match self.find_column(name) {
            Some(i) => i,
            None => {
                assert(false);
                0
            },
        }
    }

    /// The type of the first column named `name`.
    pub fn column_type(&self, name: &String) -> (t: &ColumnType)
        requires
            self@.position(name@) >= 0,
        ensures
            *t == self@.columns[self@.position(name@)].1,
    {
        let i = self.column_index(name);
        proof {
            lemma_column_position(column_names(self@.columns), name@);
        }
        assert(self@.columns[i as int].1 == self.columns@[i as int].1);
        &self.columns[i].1
    }
}

} // verus!
