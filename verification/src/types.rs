//! The columnar data model: data types, nullable cell values, columns,
//! schemas and record batches, with their well-formedness conditions.

use vstd::prelude::*;

verus! {

/// The column data types the operators support. Dates and timestamps
/// are carried as integers of the corresponding width; unsupported
/// types never enter the model.
#[derive(Clone, Copy, PartialEq, Eq, Structural, Debug)]
pub enum DataType {
    Boolean,
    Int8,
    Int16,
    Int32,
    Int64,
    UInt8,
    UInt16,
    UInt32,
    UInt64,
    Date32,
    Date64,
    TimestampMillisecond,
    TimestampMicrosecond,
    TimestampNanosecond,
    Utf8,
    LargeUtf8,
}

/// One non-null cell. Signed integers, dates and timestamps share the
/// `Int` payload; the column's `DataType` fixes the width.
#[derive(Clone, Debug)]
pub enum CellValue {
    Int(i64),
    UInt(u64),
    Bool(bool),
    Str(String),
}

/// The mathematical value of a cell.
pub enum CellModel {
    Int(i64),
    UInt(u64),
    Bool(bool),
    Str(Seq<char>),
}

impl View for CellValue {
    type V = CellModel;

    open spec fn view(&self) -> CellModel {
        match self {
            CellValue::Int(v) => CellModel::Int(*v),
            CellValue::UInt(v) => CellModel::UInt(*v),
            CellValue::Bool(v) => CellModel::Bool(*v),
            CellValue::Str(s) => CellModel::Str(s@),
        }
    }
}

/// Whether a cell value is one that a column of type `dt` may hold:
/// the payload variant matches and integers fit the declared width.
pub open spec fn cell_fits(dt: DataType, c: CellModel) -> bool {
    match dt {
        DataType::Boolean => c is Bool,
        DataType::Int8 => c matches CellModel::Int(v) && i8::MIN <= v <= i8::MAX,
        DataType::Int16 => c matches CellModel::Int(v) && i16::MIN <= v <= i16::MAX,
        DataType::Int32 => c matches CellModel::Int(v) && i32::MIN <= v <= i32::MAX,
        DataType::Int64 => c is Int,
        DataType::UInt8 => c matches CellModel::UInt(v) && v <= u8::MAX,
        DataType::UInt16 => c matches CellModel::UInt(v) && v <= u16::MAX,
        DataType::UInt32 => c matches CellModel::UInt(v) && v <= u32::MAX,
        DataType::UInt64 => c is UInt,
        DataType::Date32 => c matches CellModel::Int(v) && i32::MIN <= v <= i32::MAX,
        DataType::Date64 => c is Int,
        DataType::TimestampMillisecond => c is Int,
        DataType::TimestampMicrosecond => c is Int,
        DataType::TimestampNanosecond => c is Int,
        DataType::Utf8 => c matches CellModel::Str(s) && vstd::utf8::encode_utf8(s).len()
            < 0x1_0000_0000_0000_0000,
        DataType::LargeUtf8 => c matches CellModel::Str(s) && vstd::utf8::encode_utf8(s).len()
            < 0x1_0000_0000_0000_0000,
    }
}

/// The mathematical value of one nullable cell.
pub open spec fn cell_model(c: Option<CellValue>) -> Option<CellModel> {
    match c {
        Option::None => Option::<CellModel>::None,
        Option::Some(v) => Option::Some(v@),
    }
}

/// The mathematical values of a sequence of nullable cells.
pub open spec fn cell_models(vs: Seq<Option<CellValue>>) -> Seq<Option<CellModel>> {
    vs.map_values(|c: Option<CellValue>| cell_model(c))
}

impl CellValue {
    /// An exact copy of the cell.
    pub fn duplicate(&self) -> (r: CellValue)
        ensures
            r@ == self@,
    {
        match self {
            CellValue::Int(v) => CellValue::Int(*v),
            CellValue::UInt(v) => CellValue::UInt(*v),
            CellValue::Bool(v) => CellValue::Bool(*v),
            CellValue::Str(s) => CellValue::Str(s.clone()),
        }
    }
}

/// An exact copy of a nullable cell.
pub fn duplicate_cell(c: &Option<CellValue>) -> (r: Option<CellValue>)
    ensures
        cell_model(r) == cell_model(*c),
{
    match c {
        Option::None => Option::None,
        Option::Some(v) => Option::Some(v.duplicate()),
    }
}

/// A typed, nullable column: one entry per row.
#[derive(Clone, Debug)]
pub struct Column {
    pub data_type: DataType,
    pub values: Vec<Option<CellValue>>,
}

impl Column {
    /// The cells of the column as mathematical values.
    pub open spec fn cells(&self) -> Seq<Option<CellModel>> {
        cell_models(self.values@)
    }

    /// Every non-null cell fits the column's data type.
    pub open spec fn wf(&self) -> bool {
        forall|i: int|
            0 <= i < self.cells().len() && self.cells()[i] is Some ==> cell_fits(
                self.data_type,
                self.cells()[i]->0,
            )
    }

    /// Number of rows.
    pub fn len(&self) -> (n: usize)
        ensures
            n == self.cells().len(),
    {
        self.values.len()
    }
}

/// A named, typed field of a schema.
#[derive(Clone, Debug)]
pub struct Field {
    pub name: String,
    pub data_type: DataType,
    pub nullable: bool,
}

/// An ordered list of fields.
#[derive(Clone, Debug)]
pub struct Schema {
    pub fields: Vec<Field>,
}

impl Schema {
    /// The position of the first field with the given name, if any.
    pub fn index_of(&self, name: &String) -> (r: Option<usize>)
        ensures
            match r {
                Option::Some(i) => i < self.fields@.len() && self.fields@[i as int].name@ == name@
                    && forall|j: int| 0 <= j < i ==> self.fields@[j].name@ != name@,
                Option::None => forall|j: int|
                    0 <= j < self.fields@.len() ==> self.fields@[j].name@ != name@,
            },
    {
        let n = self.fields.len();
        for i in 0..n
            invariant
                n == self.fields@.len(),
                forall|j: int| 0 <= j < i ==> self.fields@[j].name@ != name@,
        {
            if self.fields[i].name.eq(name) {
                return Option::Some(i);
            }
        }
        Option::None
    }
}

/// A record batch: columns of equal length matching a schema.
#[derive(Clone, Debug)]
pub struct Batch {
    pub schema: Schema,
    pub columns: Vec<Column>,
    pub num_rows: usize,
}

impl Batch {
    /// Columns line up with the schema and all share `num_rows` rows.
    pub open spec fn wf(&self) -> bool {
        &&& self.columns@.len() == self.schema.fields@.len()
        &&& forall|i: int|
            0 <= i < self.columns@.len() ==> (#[trigger] self.columns@[i]).data_type
                == self.schema.fields@[i].data_type
        &&& forall|i: int|
            0 <= i < self.columns@.len() ==> (#[trigger] self.columns@[i]).cells().len()
                == self.num_rows
        &&& forall|i: int| 0 <= i < self.columns@.len() ==> (#[trigger] self.columns@[i]).wf()
    }
}

/// The error kinds the operators surface.
#[derive(Clone, Copy, PartialEq, Eq, Structural, Debug)]
pub enum ExecError {
    /// A memory grant was denied, or a spill was requested and refused.
    ResourcesExhausted,
    /// An invariant of the engine was broken, such as a schema lookup
    /// that failed during execution.
    Internal,
    /// A foreign error surfaced through an input stream.
    External,
}

/// How a join combines its two inputs.
#[derive(Clone, Copy, PartialEq, Eq, Structural, Debug)]
pub enum JoinType {
    Inner,
    Left,
    Right,
    Full,
}

/// Partitioning mode to use for hash join.
#[derive(Clone, Copy, PartialEq, Eq, Structural, Debug)]
pub enum PartitionMode {
    /// Left/right children are partitioned using the left and right keys.
    Partitioned,
    /// Left side will collected into one partition.
    CollectLeft,
}

/// Whether the aggregator consumes raw values or partial states.
#[derive(Clone, Copy, PartialEq, Eq, Structural, Debug)]
pub enum AggregateMode {
    Partial,
    Final,
    FinalPartitioned,
}

} // verus!
