//! Tabular data: values, rows and datasets with named, typed columns.
use vstd::prelude::*;

verus! {

/// The type of the values that a column holds.
#[derive(Clone, Copy, Debug, PartialEq, Eq, Structural)]
pub enum ColumnType {
    Integer,
    String,
}

/// One cell of a dataset.
#[derive(Debug)]
pub enum Value {
    Integer(i32),
    String(String),
}

/// The mathematical model of a [`Value`]: an integer or a sequence of characters.
pub enum SpecValue {
    Integer(i32),
    Text(Seq<char>),
}

impl View for Value {
    type V = SpecValue;

    open spec fn view(&self) -> SpecValue {
        match self {
            Value::Integer(i) => SpecValue::Integer(*i),
            Value::String(s) => SpecValue::Text(s@),
        }
    }
}

/// The models of a sequence of values.
pub open spec fn values_view(vs: Seq<Value>) -> Seq<SpecValue> {
    vs.map_values(|v: Value| v@)
}

/// The models of a list of column declarations.
pub open spec fn columns_view(cs: Seq<(String, ColumnType)>) -> Seq<(Seq<char>, ColumnType)> {
    cs.map_values(|c: (String, ColumnType)| (c.0@, c.1))
}

impl Value {
    /// Whether two values are equal: same variant and same content.
    pub fn same_value(&self, other: &Value) -> (r: bool)
        ensures
            r == (self@ == other@),
    {
        match (self, other) {
            (Value::Integer(a), Value::Integer(b)) => *a == *b,
            (Value::String(a), Value::String(b)) => *a == *b,
            (Value::Integer(_), Value::String(_)) => false,
            (Value::String(_), Value::Integer(_)) => false,
        }
    }

    /// A copy of this value.
    pub fn duplicate(&self) -> (r: Value)
        ensures
            r@ == self@,
    {
        match self {
            Value::Integer(i) => Value::Integer(*i),
            Value::String(s) => Value::String(s.clone()),
        }
    }
}

impl PartialEq for Value {
    fn eq(&self, other: &Value) -> (r: bool) {
        self.same_value(other)
    }
}

impl vstd::std_specs::cmp::PartialEqSpecImpl for Value {
    open spec fn obeys_eq_spec() -> bool {
        true
    }

    open spec fn eq_spec(&self, other: &Value) -> bool {
        self@ == other@
    }
}

impl Eq for Value {

}

impl Clone for Value {
    fn clone(&self) -> (r: Self)
        ensures
            r@ == self@,
    {
        self.duplicate()
    }
}

/// Copies a list of values.
pub fn copy_values(vs: &Vec<Value>) -> (r: Vec<Value>)
    ensures
        values_view(r@) == values_view(vs@),
{
    let mut out: Vec<Value> = Vec::new();
    let mut i: usize = 0;
    while i < vs.len()
        invariant
            i <= vs.len(),
            out@.len() == i,
            forall|j: int| 0 <= j < i ==> (#[trigger] out@[j])@ == vs@[j]@,
        decreases vs.len() - i,
    {
        out.push(vs[i].duplicate());
        i = i + 1;
    }
    assert(values_view(out@) =~= values_view(vs@));
    out
}

/// Copies a list of column declarations.
pub fn copy_columns(cs: &Vec<(String, ColumnType)>) -> (r: Vec<(String, ColumnType)>)
    ensures
        columns_view(r@) == columns_view(cs@),
{
    let mut out: Vec<(String, ColumnType)> = Vec::new();
    let mut i: usize = 0;
    while i < cs.len()
        invariant
            i <= cs.len(),
            out@.len() == i,
            forall|j: int| 0 <= j < i ==> (#[trigger] out@[j]).0@ == cs@[j].0@ && out@[j].1 == cs@[j].1,
        decreases cs.len() - i,
    {
        let name = cs[i].0.clone();
        out.push((name, cs[i].1));
        i = i + 1;
    }
    assert(columns_view(out@) =~= columns_view(cs@));
    out
}

/// One record of a dataset: a value per column.
#[derive(Debug)]
pub struct Row {
    values: Vec<Value>,
}

impl View for Row {
    type V = Seq<SpecValue>;

    closed spec fn view(&self) -> Seq<SpecValue> {
        values_view(self.values@)
    }
}

impl Row {
    /// A row holding the given values, in order.
    pub fn new(values: Vec<Value>) -> (r: Row)
        ensures
            r@ == values_view(values@),
    {
        Row { values }
    }

    /// The number of values in the row.
    pub fn len(&self) -> (r: usize)
        ensures
            r == self@.len(),
    {
        self.values.len()
    }

    /// The value at position `index`.
    pub fn get_value(&self, index: usize) -> (r: &Value)
        requires
            index < self@.len(),
        ensures
            r@ == self@[index as int],
    {
        &self.values[index]
    }

    /// A copy of this row.
    pub fn duplicate(&self) -> (r: Row)
        ensures
            r@ == self@,
    {
        Row { values: copy_values(&self.values) }
    }
}

impl Clone for Row {
    fn clone(&self) -> (r: Self)
        ensures
            r@ == self@,
    {
        self.duplicate()
    }
}

/// The model of a list of rows.
pub open spec fn rows_view(rs: Seq<Row>) -> Seq<Seq<SpecValue>> {
    rs.map_values(|r: Row| r@)
}

/// The mathematical model of a [`Dataset`].
pub struct SpecDataset {
    pub columns: Seq<(Seq<char>, ColumnType)>,
    pub rows: Seq<Seq<SpecValue>>,
}

impl SpecDataset {
    /// Every row holds exactly one value per column.
    pub open spec fn wf(self) -> bool {
        forall|i: int| 0 <= i < self.rows.len() ==> (#[trigger] self.rows[i]).len() == self.columns.len()
    }
}

/// Some column carries the given name.
pub open spec fn has_column(cols: Seq<(Seq<char>, ColumnType)>, name: Seq<char>) -> bool {
    exists|i: int| 0 <= i < cols.len() && (#[trigger] cols[i]).0 == name
}

/// `i` is the first position of a column with the given name.
pub open spec fn is_first_position(cols: Seq<(Seq<char>, ColumnType)>, name: Seq<char>, i: int) -> bool {
    &&& 0 <= i < cols.len()
    &&& cols[i].0 == name
    &&& forall|j: int| 0 <= j < i ==> (#[trigger] cols[j]).0 != name
}

/// The position of the first column with the given name.
pub open spec fn column_position(cols: Seq<(Seq<char>, ColumnType)>, name: Seq<char>) -> int {
    choose|i: int| is_first_position(cols, name, i)
}

/// The first position of a name is unique, and it is what [`column_position`] picks.
pub proof fn lemma_column_position(cols: Seq<(Seq<char>, ColumnType)>, name: Seq<char>, i: int)
    requires
        is_first_position(cols, name, i),
    ensures
        column_position(cols, name) == i,
{
    let k = column_position(cols, name);
    assert(is_first_position(cols, name, k));
    if k < i {
        assert(cols[k].0 != name);
    } else if k > i {
        assert(cols[i].0 != name);
    }
}

/// A column that exists has a first position.
pub proof fn lemma_column_position_exists(cols: Seq<(Seq<char>, ColumnType)>, name: Seq<char>)
    requires
        has_column(cols, name),
    ensures
        is_first_position(cols, name, column_position(cols, name)),
        0 <= column_position(cols, name) < cols.len(),
        cols[column_position(cols, name)].0 == name,
{
    let w = choose|i: int| 0 <= i < cols.len() && (#[trigger] cols[i]).0 == name;
    lemma_first_position_below(cols, name, w);
    let k = choose|k: int| is_first_position(cols, name, k);
    assert(is_first_position(cols, name, k));
}

proof fn lemma_first_position_below(cols: Seq<(Seq<char>, ColumnType)>, name: Seq<char>, w: int)
    requires
        0 <= w < cols.len(),
        cols[w].0 == name,
    ensures
        exists|k: int| is_first_position(cols, name, k),
    decreases w,
{
    if forall|j: int| 0 <= j < w ==> (#[trigger] cols[j]).0 != name {
        assert(is_first_position(cols, name, w));
    } else {
        let j = choose|j: int| 0 <= j < w && (#[trigger] cols[j]).0 == name;
        lemma_first_position_below(cols, name, j);
    }
}

/// A table: named, typed columns and a list of rows.
#[derive(Debug)]
pub struct Dataset {
    columns: Vec<(String, ColumnType)>,
    rows: Vec<Row>,
}

impl View for Dataset {
    type V = SpecDataset;

    closed spec fn view(&self) -> SpecDataset {
        SpecDataset { columns: columns_view(self.columns@), rows: rows_view(self.rows@) }
    }
}

impl Dataset {
    /// An empty dataset with the given columns.
    pub fn new(columns: Vec<(String, ColumnType)>) -> (r: Dataset)
        ensures
            r@.columns == columns_view(columns@),
            r@.rows == Seq::<Seq<SpecValue>>::empty(),
            r@.wf(),
    {
        let r = Dataset { columns, rows: Vec::new() };
        assert(r@.rows =~= Seq::<Seq<SpecValue>>::empty());
        r
    }

    /// The column declarations.
    pub fn columns(&self) -> (r: &Vec<(String, ColumnType)>)
        ensures
            columns_view(r@) == self@.columns,
    {
        &self.columns
    }

    /// The rows, in order.
    pub fn rows(&self) -> (r: &Vec<Row>)
        ensures
            rows_view(r@) == self@.rows,
    {
        &self.rows
    }

    /// The number of rows.
    pub fn len(&self) -> (r: usize)
        ensures
            r == self@.rows.len(),
    {
        self.rows.len()
    }

    /// Appends a row.
    pub fn add_row(&mut self, row: Row)
        ensures
            final(self)@.columns == old(self)@.columns,
            final(self)@.rows == old(self)@.rows.push(row@),
    {
        self.rows.push(row);
        assert(rows_view(self.rows@) =~= rows_view(old(self).rows@).push(row@));
    }

    /// The position of the first column with the given name.
    pub fn column_index(&self, name: &String) -> (r: usize)
        requires
            has_column(self@.columns, name@),
        ensures
            r == column_position(self@.columns, name@),
            r < self@.columns.len(),
    {
        proof {
            lemma_column_position_exists(self@.columns, name@);
        }
        let mut i: usize = 0;
        while i < self.columns.len()
            invariant
                i <= self.columns@.len(),
                self@.columns == columns_view(self.columns@),
                has_column(self@.columns, name@),
                forall|j: int| 0 <= j < i ==> (#[trigger] self@.columns[j]).0 != name@,
            decreases self.columns.len() - i,
        {
            if self.columns[i].0 == *name {
                proof {
                    assert(is_first_position(self@.columns, name@, i as int));
                    lemma_column_position(self@.columns, name@, i as int);
                }
                return i;
            }
            i = i + 1;
        }
        proof {
            let w = choose|w: int| 0 <= w < self@.columns.len() && (#[trigger] self@.columns[w]).0 == name@;
            assert(self@.columns[w].0 != name@);
        }
        0
    }

    /// The type of the first column with the given name.
    pub fn column_type(&self, name: &String) -> (r: &ColumnType)
        requires
            has_column(self@.columns, name@),
        ensures
            *r == self@.columns[column_position(self@.columns, name@)].1,
    {
        let i = self.column_index(name);
        &self.columns[i].1
    }

    /// A copy of this dataset.
    pub fn duplicate(&self) -> (r: Dataset)
        ensures
            r@ == self@,
    {
        let columns = copy_columns(&self.columns);
        let mut rows: Vec<Row> = Vec::new();
        let mut i: usize = 0;
        while i < self.rows.len()
            invariant
                i <= self.rows@.len(),
                rows@.len() == i,
                forall|j: int| 0 <= j < i ==> (#[trigger] rows@[j])@ == self.rows@[j]@,
            decreases self.rows.len() - i,
        {
            rows.push(self.rows[i].duplicate());
            i = i + 1;
        }
        let r = Dataset { columns, rows };
        assert(rows_view(r.rows@) =~= rows_view(self.rows@));
        r
    }
}

impl Clone for Dataset {
    fn clone(&self) -> (r: Self)
        ensures
            r@ == self@,
    {
        self.duplicate()
    }
}

} // verus!
