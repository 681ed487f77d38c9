//! Reading tensors, and what is known of them, from ONNX messages.
use crate::grid::{ints, lemma_nonzero_product_grows, nonzero_product, product};
use crate::grid_laws::{points_of_grids_are_multiplied, zero_extents_are_left_out};
use vstd::prelude::*;
use vstd::string::StringExecFns;

verus! {

/// The types that an ONNX message names for the elements of a tensor.
#[allow(non_camel_case_types)]
#[derive(Debug, Clone, Copy, PartialEq, Eq, Structural)]
pub enum TensorProto_DataType {
    UNDEFINED,
    FLOAT,
    UINT8,
    INT8,
    UINT16,
    INT16,
    INT32,
    INT64,
    STRING,
    BOOL,
    FLOAT16,
    DOUBLE,
    UINT32,
    UINT64,
    COMPLEX64,
    COMPLEX128,
}

/// What an ONNX message says of the type of a tensor.
#[allow(non_camel_case_types)]
#[derive(Debug, Clone, PartialEq)]
pub struct TypeProto_Tensor {
    /// The type of the elements, where the message gives one.
    pub elem_type: Option<TensorProto_DataType>,
    /// The extents, where the message gives a shape. An extent that the message leaves unset, or gives
    /// by name alone, stands here as 0.
    pub shape: Option<Vec<i64>>,
}

/// A tensor in an ONNX message.
#[derive(Debug, Clone, PartialEq)]
pub struct TensorProto {
    pub data_type: TensorProto_DataType,
    pub dims: Vec<i64>,
    /// The elements as bytes, little end first, where the message holds them so.
    pub raw_data: Option<Vec<u8>>,
    /// The elements as the bit patterns of single-precision numbers.
    pub float_data: Vec<u32>,
    /// The elements as integers.
    pub int32_data: Vec<i32>,
}

/// The types of the elements of a tensor.
#[derive(Debug, Clone, Copy, PartialEq, Eq, Structural)]
pub enum DatumType {
    Bool,
    U8,
    I8,
    I32,
    F32,
    F64,
    String,
}

/// What is known of a tensor before there is one.
#[derive(Debug, Clone, PartialEq)]
pub struct TensorFact {
    /// The type of the elements, if it is known.
    pub datum_type: Option<DatumType>,
    /// The shape, if it is known.
    pub shape: Option<Vec<usize>>,
}

/// The elements of a tensor, in row-major order.
#[derive(Debug, Clone, PartialEq)]
pub enum TensorData {
    Bool(Vec<bool>),
    /// The bit patterns of single-precision numbers.
    F32(Vec<u32>),
}

/// A tensor.
#[derive(Debug, Clone, PartialEq)]
pub struct Tensor {
    pub shape: Vec<usize>,
    pub data: TensorData,
}

/// Why a message cannot be read.
#[derive(Debug, Clone, Copy, PartialEq, Eq, Structural)]
pub enum TfdError {
    /// There is no such type of elements here.
    UnknownDatumType(TensorProto_DataType),
    /// The shape does not have room for exactly the elements.
    IncompatibleShape,
}

impl TensorData {
    /// How many elements there are.
    pub open spec fn count(self) -> int {
        match self {
            TensorData::Bool(flags) => flags@.len() as int,
            TensorData::F32(words) => words@.len() as int,
        }
    }
}

impl Tensor {
    /// The shape has room for exactly the elements.
    pub open spec fn wf(self) -> bool {
        holds(self.shape@, self.data.count())
    }
}

impl TensorProto_DataType {
    /// The type of elements that the message names, if there is such a type here.
    pub open spec fn datum_type(self) -> Option<DatumType> {
        match self {
            TensorProto_DataType::BOOL => Some(DatumType::Bool),
            TensorProto_DataType::UINT8 => Some(DatumType::U8),
            TensorProto_DataType::INT8 => Some(DatumType::I8),
            TensorProto_DataType::INT32 => Some(DatumType::I32),
            TensorProto_DataType::FLOAT => Some(DatumType::F32),
            TensorProto_DataType::DOUBLE => Some(DatumType::F64),
            TensorProto_DataType::STRING => Some(DatumType::String),
            _ => None,
        }
    }

    /// The name of the type in the message.
    pub open spec fn spelling(self) -> Seq<char> {
        match self {
            TensorProto_DataType::UNDEFINED => "UNDEFINED"@,
            TensorProto_DataType::FLOAT => "FLOAT"@,
            TensorProto_DataType::UINT8 => "UINT8"@,
            TensorProto_DataType::INT8 => "INT8"@,
            TensorProto_DataType::UINT16 => "UINT16"@,
            TensorProto_DataType::INT16 => "INT16"@,
            TensorProto_DataType::INT32 => "INT32"@,
            TensorProto_DataType::INT64 => "INT64"@,
            TensorProto_DataType::STRING => "STRING"@,
            TensorProto_DataType::BOOL => "BOOL"@,
            TensorProto_DataType::FLOAT16 => "FLOAT16"@,
            TensorProto_DataType::DOUBLE => "DOUBLE"@,
            TensorProto_DataType::UINT32 => "UINT32"@,
            TensorProto_DataType::UINT64 => "UINT64"@,
            TensorProto_DataType::COMPLEX64 => "COMPLEX64"@,
            TensorProto_DataType::COMPLEX128 => "COMPLEX128"@,
        }
    }

    /// The name of the type in the message.
    pub fn name(&self) -> (name: &'static str)
        ensures
            name@ == self.spelling(),
            *self == TensorProto_DataType::UNDEFINED ==> name@ == "UNDEFINED"@,
            *self == TensorProto_DataType::FLOAT ==> name@ == "FLOAT"@,
            *self == TensorProto_DataType::UINT8 ==> name@ == "UINT8"@,
            *self == TensorProto_DataType::INT8 ==> name@ == "INT8"@,
            *self == TensorProto_DataType::UINT16 ==> name@ == "UINT16"@,
            *self == TensorProto_DataType::INT16 ==> name@ == "INT16"@,
            *self == TensorProto_DataType::INT32 ==> name@ == "INT32"@,
            *self == TensorProto_DataType::INT64 ==> name@ == "INT64"@,
            *self == TensorProto_DataType::STRING ==> name@ == "STRING"@,
            *self == TensorProto_DataType::BOOL ==> name@ == "BOOL"@,
            *self == TensorProto_DataType::FLOAT16 ==> name@ == "FLOAT16"@,
            *self == TensorProto_DataType::DOUBLE ==> name@ == "DOUBLE"@,
            *self == TensorProto_DataType::UINT32 ==> name@ == "UINT32"@,
            *self == TensorProto_DataType::UINT64 ==> name@ == "UINT64"@,
            *self == TensorProto_DataType::COMPLEX64 ==> name@ == "COMPLEX64"@,
            *self == TensorProto_DataType::COMPLEX128 ==> name@ == "COMPLEX128"@,
    {
        match self {
            TensorProto_DataType::UNDEFINED => "UNDEFINED",
            TensorProto_DataType::FLOAT => "FLOAT",
            TensorProto_DataType::UINT8 => "UINT8",
            TensorProto_DataType::INT8 => "INT8",
            TensorProto_DataType::UINT16 => "UINT16",
            TensorProto_DataType::INT16 => "INT16",
            TensorProto_DataType::INT32 => "INT32",
            TensorProto_DataType::INT64 => "INT64",
            TensorProto_DataType::STRING => "STRING",
            TensorProto_DataType::BOOL => "BOOL",
            TensorProto_DataType::FLOAT16 => "FLOAT16",
            TensorProto_DataType::DOUBLE => "DOUBLE",
            TensorProto_DataType::UINT32 => "UINT32",
            TensorProto_DataType::UINT64 => "UINT64",
            TensorProto_DataType::COMPLEX64 => "COMPLEX64",
            TensorProto_DataType::COMPLEX128 => "COMPLEX128",
        }
    }
}

impl TfdError {
    /// What to tell of the error.
    pub fn message(&self) -> (message: String)
        ensures
            message@ == (match *self {
                TfdError::UnknownDatumType(t) => "Unknown DatumType "@ + t.spelling(),
                TfdError::IncompatibleShape => "incompatible shapes"@,
            }),
    {
        match self {
            TfdError::UnknownDatumType(t) => {
                let mut message = "Unknown DatumType ".to_string();
                message.append(t.name());
                message
            },
            TfdError::IncompatibleShape => "incompatible shapes".to_string(),
        }
    }
}

impl DatumType {
    /// The type of elements that a message names.
    pub fn tfd_from(t: &TensorProto_DataType) -> (res: Result<DatumType, TfdError>)
        ensures
            res == (match t.datum_type() {
                Some(dt) => Ok(dt),
                None => Err(TfdError::UnknownDatumType(*t)),
            }),
            res == Ok::<DatumType, TfdError>(DatumType::Bool) <==> *t == TensorProto_DataType::BOOL,
            res == Ok::<DatumType, TfdError>(DatumType::U8) <==> *t == TensorProto_DataType::UINT8,
            res == Ok::<DatumType, TfdError>(DatumType::I8) <==> *t == TensorProto_DataType::INT8,
            res == Ok::<DatumType, TfdError>(DatumType::I32) <==> *t == TensorProto_DataType::INT32,
            res == Ok::<DatumType, TfdError>(DatumType::F32) <==> *t == TensorProto_DataType::FLOAT,
            res == Ok::<DatumType, TfdError>(DatumType::F64) <==> *t == TensorProto_DataType::DOUBLE,
            res == Ok::<DatumType, TfdError>(DatumType::String) <==> *t == TensorProto_DataType::STRING,
            res is Err ==> res == Err::<DatumType, TfdError>(TfdError::UnknownDatumType(*t)),
    {
        match t {
            TensorProto_DataType::BOOL => Ok(DatumType::Bool),
            TensorProto_DataType::UINT8 => Ok(DatumType::U8),
            TensorProto_DataType::INT8 => Ok(DatumType::I8),
            TensorProto_DataType::INT32 => Ok(DatumType::I32),
            TensorProto_DataType::FLOAT => Ok(DatumType::F32),
            TensorProto_DataType::DOUBLE => Ok(DatumType::F64),
            TensorProto_DataType::STRING => Ok(DatumType::String),
            _ => Err(TfdError::UnknownDatumType(*t)),
        }
    }
}

/// The extents that a message gives. A negative one wraps around.
pub open spec fn extents_of(dims: Seq<i64>) -> Seq<usize> {
    Seq::new(dims.len(), |i: int| dims[i] as usize)
}

/// The extents that a message gives.
fn read_extents(dims: &Vec<i64>) -> (shape: Vec<usize>)
    ensures
        shape@ == extents_of(dims@),
        shape@.len() == dims@.len(),
        forall|i: int|
            0 <= i < dims@.len() ==> #[trigger] shape@[i] == dims@[i] as int % (usize::MAX + 1),
{
    let mut shape: Vec<usize> = Vec::new();
    for i in 0..dims.len()
        invariant
            shape@ == extents_of(dims@).take(i as int),
    {
        shape.push(
            #[verifier::truncate]
            (dims[i] as usize),
        );
        assert(shape@ =~= extents_of(dims@).take(i + 1));
    }
    assert(extents_of(dims@).take(dims@.len() as int) =~= extents_of(dims@));
    proof {
        assert forall|i: int| 0 <= i < dims@.len() implies #[trigger] shape@[i] == dims@[i] as int % (
        usize::MAX + 1) by {
            extents_are_read_in_their_places(dims@, i);
        }
    }
    shape
}

/// An extent is read where it stands in the message, and as it is wherever a `usize` holds it; any
/// other is counted round.
pub proof fn extents_are_read_in_their_places(dims: Seq<i64>, i: int)
    requires
        0 <= i < dims.len(),
    ensures
        extents_of(dims).len() == dims.len(),
        0 <= dims[i] <= usize::MAX ==> extents_of(dims)[i] == dims[i],
        extents_of(dims)[i] == dims[i] as int % (usize::MAX + 1),
{
    let d = dims[i];
    assert(usize::BITS == 64 ==> (d as usize) == d as int % 0x1_0000_0000_0000_0000) by {
        assert(usize::BITS == 64 && d >= 0 ==> (d as usize) == d) by (bit_vector);
        assert(usize::BITS == 64 && d < 0 ==> (d as usize) == d + 0x1_0000_0000_0000_0000)
            by (bit_vector);
    }
    assert(usize::BITS == 32 ==> (d as usize) == d as int % 0x1_0000_0000) by {
        assert(usize::BITS == 32 ==> (d as usize) == (d as u64) % 0x1_0000_0000) by (bit_vector);
        assert(d >= 0 ==> (d as u64) == d) by (bit_vector);
        assert(d < 0 ==> (d as u64) == d + 0x1_0000_0000_0000_0000) by (bit_vector);
    }
}

impl Default for TensorFact {
    /// Nothing is known.
    fn default() -> (fact: TensorFact)
        ensures
            fact.datum_type is None,
            fact.shape is None,
    {
        TensorFact { datum_type: None, shape: None }
    }
}

impl TensorFact {
    /// The same, and the type of the elements.
    pub fn with_datum_type(self, dt: DatumType) -> (fact: TensorFact)
        ensures
            fact == (TensorFact { datum_type: Some(dt), ..self }),
    {
        TensorFact { datum_type: Some(dt), ..self }
    }

    /// The same, and the shape.
    pub fn with_shape(self, shape: Vec<usize>) -> (fact: TensorFact)
        ensures
            fact == (TensorFact { shape: Some(shape), ..self }),
    {
        TensorFact { shape: Some(shape), ..self }
    }

    /// What a message says of a tensor.
    pub fn tfd_from(t: &TypeProto_Tensor) -> (res: Result<TensorFact, TfdError>)
        ensures
            match t.elem_type {
                Some(e) if e.datum_type() is None => res == Err::<TensorFact, TfdError>(
                    TfdError::UnknownDatumType(e),
                ),
                _ => {
                    &&& res is Ok
                    &&& res->Ok_0.datum_type == (match t.elem_type {
                        Some(e) => e.datum_type(),
                        None => None,
                    })
                    &&& res->Ok_0.shape is Some == t.shape is Some
                    &&& t.shape is Some ==> res->Ok_0.shape->Some_0@ == extents_of(
                        t.shape->Some_0@,
                    )
                },
            },
            res is Ok && t.shape is Some ==> {
                let (dims, shape) = (t.shape->Some_0@, res->Ok_0.shape->Some_0@);
                &&& shape.len() == dims.len()
                &&& forall|i: int|
                    0 <= i < dims.len() ==> #[trigger] shape[i] == dims[i] as int % (usize::MAX + 1)
            },
            t.elem_type is None ==> res is Ok && res->Ok_0.datum_type is None,
            res is Ok ==> (res->Ok_0.datum_type == Some(DatumType::Bool) <==> t.elem_type == Some(
                TensorProto_DataType::BOOL,
            )),
            res is Ok ==> (res->Ok_0.datum_type == Some(DatumType::U8) <==> t.elem_type == Some(
                TensorProto_DataType::UINT8,
            )),
            res is Ok ==> (res->Ok_0.datum_type == Some(DatumType::I8) <==> t.elem_type == Some(
                TensorProto_DataType::INT8,
            )),
            res is Ok ==> (res->Ok_0.datum_type == Some(DatumType::I32) <==> t.elem_type == Some(
                TensorProto_DataType::INT32,
            )),
            res is Ok ==> (res->Ok_0.datum_type == Some(DatumType::F32) <==> t.elem_type == Some(
                TensorProto_DataType::FLOAT,
            )),
            res is Ok ==> (res->Ok_0.datum_type == Some(DatumType::F64) <==> t.elem_type == Some(
                TensorProto_DataType::DOUBLE,
            )),
            res is Ok ==> (res->Ok_0.datum_type == Some(DatumType::String) <==> t.elem_type == Some(
                TensorProto_DataType::STRING,
            )),
    {
        let mut fact = TensorFact::default();
        if let Some(e) = &t.elem_type {
            match DatumType::tfd_from(e) {
                Ok(dt) => {
                    fact = fact.with_datum_type(dt);
                },
                Err(error) => {
                    return Err(error);
                },
            }
        }
        if let Some(dims) = &t.shape {
            fact = fact.with_shape(read_extents(dims));
        }
        Ok(fact)
    }
}

/// Whether a shape has room for exactly so many elements, and its extents that are not zero multiply
/// to no more than an `isize` holds.
pub open spec fn holds(shape: Seq<usize>, count: int) -> bool {
    &&& nonzero_product(ints(shape)) <= isize::MAX
    &&& product(ints(shape)) == count
}

/// Whether a shape has room for exactly so many elements.
fn shape_holds(shape: &Vec<usize>, count: usize) -> (res: bool)
    ensures
        res == holds(shape@, count as int),
{
    let ghost dims = ints(shape@);
    let mut nonzero: usize = 1;
    let mut empty = false;
    let mut i: usize = shape.len();
    assert(dims.skip(i as int) =~= Seq::<int>::empty());
    while i > 0
        invariant
            dims == ints(shape@),
            i <= shape@.len(),
            1 <= nonzero <= isize::MAX,
            nonzero == nonzero_product(dims.skip(i as int)),
            product(dims.skip(i as int)) == (if empty {
                0
            } else {
                nonzero as int
            }),
        decreases i,
    {
        i = i - 1;
        let dim = shape[i];
        let ghost tail = dims.skip(i as int);
        proof {
            assert(tail.skip(1) =~= dims.skip(i + 1));
            assert(tail[0] == dim);
        }
        if dim == 0 {
            empty = true;
            assert(0 * product(tail.skip(1)) == 0);
        } else {
            let more = dim.checked_mul(nonzero);
            let fits = match more {
                Some(p) => p <= isize::MAX as usize,
                None => false,
            };
            if !fits {
                proof {
                    lemma_nonzero_product_grows(dims, i as int);
                }
                return false;
            }
            proof {
                assert(dim * 0 == 0);
                assert(1 <= dim * nonzero) by (nonlinear_arith)
                    requires
                        1 <= dim,
                        1 <= nonzero,
                ;
            }
            nonzero = dim * nonzero;
        }
    }
    assert(dims.skip(0) =~= dims);
    if empty {
        count == 0
    } else {
        count == nonzero
    }
}

/// The number that four bytes spell, little end first.
pub open spec fn little_endian(b0: u8, b1: u8, b2: u8, b3: u8) -> int {
    b0 + 0x100 * b1 + 0x1_0000 * b2 + 0x100_0000 * b3
}

/// The bit patterns that the bytes spell, four bytes each. A rest of less than four is left.
pub open spec fn words_of(raw: Seq<u8>) -> Seq<u32> {
    Seq::new(
        raw.len() / 4,
        |i: int|
            little_endian(raw[4 * i], raw[4 * i + 1], raw[4 * i + 2], raw[4 * i + 3]) as u32,
    )
}

/// For each byte, whether it is not zero.
pub open spec fn flags_of_bytes(raw: Seq<u8>) -> Seq<bool> {
    Seq::new(raw.len(), |i: int| raw[i] != 0)
}

/// For each integer, whether it is not zero.
pub open spec fn flags_of_ints(data: Seq<i32>) -> Seq<bool> {
    Seq::new(data.len(), |i: int| data[i] != 0)
}

/// Whether each word holds its four bytes, the lowest first.
pub open spec fn spelled_by(words: Seq<u32>, raw: Seq<u8>) -> bool {
    &&& words.len() == raw.len() / 4
    &&& forall|i: int|
        0 <= i < words.len() ==> {
            &&& #[trigger] words[i] % 0x100 == raw[4 * i]
            &&& words[i] / 0x100 % 0x100 == raw[4 * i + 1]
            &&& words[i] / 0x1_0000 % 0x100 == raw[4 * i + 2]
            &&& words[i] / 0x100_0000 == raw[4 * i + 3]
        }
}

/// The words that are read from raw bytes hold these bytes, four each, the lowest first.
pub proof fn words_hold_their_bytes(raw: Seq<u8>)
    ensures
        words_of(raw).len() == raw.len() / 4,
        forall|i: int|
            0 <= i < raw.len() / 4 ==> {
                let word = #[trigger] words_of(raw)[i] as int;
                &&& word % 0x100 == raw[4 * i]
                &&& word / 0x100 % 0x100 == raw[4 * i + 1]
                &&& word / 0x1_0000 % 0x100 == raw[4 * i + 2]
                &&& word / 0x100_0000 == raw[4 * i + 3]
            },
        spelled_by(words_of(raw), raw),
{
}

/// A flag is set exactly where the byte, or the integer, is not zero.
pub proof fn flags_are_what_is_not_zero(raw: Seq<u8>, data: Seq<i32>)
    ensures
        flags_of_bytes(raw).len() == raw.len(),
        forall|i: int| 0 <= i < raw.len() ==> (#[trigger] flags_of_bytes(raw)[i] <==> raw[i] > 0),
        flags_of_ints(data).len() == data.len(),
        forall|i: int|
            0 <= i < data.len() ==> (!#[trigger] flags_of_ints(data)[i] <==> 0 <= data[i] <= 0),
{
}

/// Raw bytes come before the listed elements: with them the lists are not looked at, and without them
/// the elements are the listed ones.
pub proof fn raw_bytes_come_first(a: TensorProto, b: TensorProto)
    ensures
        a.raw_data is Some && a.raw_data == b.raw_data ==> a.words() == b.words() && a.flags()
            == b.flags(),
        a.raw_data is Some ==> spelled_by(a.words(), a.raw_data->Some_0@) && a.flags()
            == a.raw_data->Some_0@.map_values(|x: u8| x != 0),
        a.raw_data is None ==> a.words() == a.float_data@ && a.flags()
            == a.int32_data@.map_values(|x: i32| x != 0),
{
    if a.raw_data is Some {
        words_hold_their_bytes(a.raw_data->Some_0@);
        assert(a.flags() =~= a.raw_data->Some_0@.map_values(|x: u8| x != 0));
    } else {
        assert(a.flags() =~= a.int32_data@.map_values(|x: i32| x != 0));
    }
}

/// A shape holds as many elements as its extents multiply to, and no other number.
pub proof fn shapes_hold_as_many_as_they_have_places(shape: Seq<usize>, count: int, extent: usize)
    ensures
        holds(Seq::<usize>::empty(), count) <==> count == 1,
        holds(shape, count) ==> count == product(ints(shape)) && nonzero_product(ints(shape))
            <= isize::MAX,
        nonzero_product(ints(shape)) * extent <= isize::MAX && extent > 0 && holds(shape, count)
            ==> holds(shape.push(extent), count * extent),
        holds(shape, count) ==> holds(shape.push(0), 0),
{
    assert(ints(Seq::<usize>::empty()) =~= Seq::<int>::empty());
    assert(ints(shape.push(extent)) =~= ints(shape) + seq![extent as int]);
    assert(ints(shape.push(0)) =~= ints(shape) + seq![0int]);
    points_of_grids_are_multiplied(ints(shape), seq![extent as int], extent as int);
    zero_extents_are_left_out(ints(shape), seq![extent as int], extent as int);
    points_of_grids_are_multiplied(ints(shape), seq![0int], 0);
    zero_extents_are_left_out(ints(shape), seq![0int], 0);
    assert(product(ints(shape)) * 0 == 0);
}

/// Of the types in a message these are known, each as the type that it names, and no other.
pub proof fn known_types_are_these(t: TensorProto_DataType)
    ensures
        t.datum_type() == Some(DatumType::Bool) <==> t == TensorProto_DataType::BOOL,
        t.datum_type() == Some(DatumType::U8) <==> t == TensorProto_DataType::UINT8,
        t.datum_type() == Some(DatumType::I8) <==> t == TensorProto_DataType::INT8,
        t.datum_type() == Some(DatumType::I32) <==> t == TensorProto_DataType::INT32,
        t.datum_type() == Some(DatumType::F32) <==> t == TensorProto_DataType::FLOAT,
        t.datum_type() == Some(DatumType::F64) <==> t == TensorProto_DataType::DOUBLE,
        t.datum_type() == Some(DatumType::String) <==> t == TensorProto_DataType::STRING,
{
}

/// Numbers and truth values can be read, and a type that is not known can be refused.
pub proof fn numbers_and_truth_values_are_readable(t: TensorProto)
    ensures
        t.data_type == TensorProto_DataType::FLOAT || t.data_type == TensorProto_DataType::BOOL
            ==> t.readable(),
        t.data_type.datum_type() is None ==> t.readable(),
{
}

/// A type is spelled as it is named.
pub proof fn types_are_spelled_as_they_are_named(t: TensorProto_DataType)
    ensures
        t == TensorProto_DataType::UNDEFINED ==> t.spelling() == "UNDEFINED"@,
        t == TensorProto_DataType::FLOAT ==> t.spelling() == "FLOAT"@,
        t == TensorProto_DataType::UINT8 ==> t.spelling() == "UINT8"@,
        t == TensorProto_DataType::INT8 ==> t.spelling() == "INT8"@,
        t == TensorProto_DataType::UINT16 ==> t.spelling() == "UINT16"@,
        t == TensorProto_DataType::INT16 ==> t.spelling() == "INT16"@,
        t == TensorProto_DataType::INT32 ==> t.spelling() == "INT32"@,
        t == TensorProto_DataType::INT64 ==> t.spelling() == "INT64"@,
        t == TensorProto_DataType::STRING ==> t.spelling() == "STRING"@,
        t == TensorProto_DataType::BOOL ==> t.spelling() == "BOOL"@,
        t == TensorProto_DataType::FLOAT16 ==> t.spelling() == "FLOAT16"@,
        t == TensorProto_DataType::DOUBLE ==> t.spelling() == "DOUBLE"@,
        t == TensorProto_DataType::UINT32 ==> t.spelling() == "UINT32"@,
        t == TensorProto_DataType::UINT64 ==> t.spelling() == "UINT64"@,
        t == TensorProto_DataType::COMPLEX64 ==> t.spelling() == "COMPLEX64"@,
        t == TensorProto_DataType::COMPLEX128 ==> t.spelling() == "COMPLEX128"@,
{
}

fn read_words(raw: &Vec<u8>) -> (words: Vec<u32>)
    ensures
        words@ == words_of(raw@),
{
    let count = raw.len() / 4;
    let mut words: Vec<u32> = Vec::new();
    for i in 0..count
        invariant
            count == raw@.len() / 4,
            words@ == words_of(raw@).take(i as int),
    {
        assert(4 * i + 3 < raw.len());
        let word: u32 = raw[4 * i] as u32 + 0x100 * raw[4 * i + 1] as u32 + 0x1_0000 * raw[4 * i
            + 2] as u32 + 0x100_0000 * raw[4 * i + 3] as u32;
        words.push(word);
        assert(words@ =~= words_of(raw@).take(i + 1));
    }
    assert(words_of(raw@).take(count as int) =~= words_of(raw@));
    words
}

fn read_byte_flags(raw: &Vec<u8>) -> (flags: Vec<bool>)
    ensures
        flags@ == flags_of_bytes(raw@),
{
    let mut flags: Vec<bool> = Vec::new();
    for i in 0..raw.len()
        invariant
            flags@ == flags_of_bytes(raw@).take(i as int),
    {
        flags.push(raw[i] != 0);
        assert(flags@ =~= flags_of_bytes(raw@).take(i + 1));
    }
    assert(flags_of_bytes(raw@).take(raw@.len() as int) =~= flags_of_bytes(raw@));
    flags
}

fn read_int_flags(data: &Vec<i32>) -> (flags: Vec<bool>)
    ensures
        flags@ == flags_of_ints(data@),
{
    let mut flags: Vec<bool> = Vec::new();
    for i in 0..data.len()
        invariant
            flags@ == flags_of_ints(data@).take(i as int),
    {
        flags.push(data[i] != 0);
        assert(flags@ =~= flags_of_ints(data@).take(i + 1));
    }
    assert(flags_of_ints(data@).take(data@.len() as int) =~= flags_of_ints(data@));
    flags
}

impl TensorProto {
    /// The bit patterns of the elements of a tensor of single-precision numbers.
    pub open spec fn words(&self) -> Seq<u32> {
        match self.raw_data {
            Some(raw) => words_of(raw@),
            None => self.float_data@,
        }
    }

    /// The elements of a tensor of truth values.
    pub open spec fn flags(&self) -> Seq<bool> {
        match self.raw_data {
            Some(raw) => flags_of_bytes(raw@),
            None => flags_of_ints(self.int32_data@),
        }
    }

    /// Whether the elements are of a type that can be read, or of one that is not known at all.
    pub open spec fn readable(&self) -> bool {
        match self.data_type.datum_type() {
            Some(dt) => dt == DatumType::F32 || dt == DatumType::Bool,
            None => true,
        }
    }
}

impl Tensor {
    /// The tensor in a message.
    pub fn tfd_from(t: &TensorProto) -> (res: Result<Tensor, TfdError>)
        requires
            t.readable(),
        ensures
            res is Ok ==> res->Ok_0.wf(),
            res is Ok ==> product(ints(res->Ok_0.shape@)) == (match res->Ok_0.data {
                TensorData::Bool(flags) => flags@.len(),
                TensorData::F32(words) => words@.len(),
            }),
            res is Ok ==> res->Ok_0.shape@.len() == t.dims@.len(),
            res is Ok ==> forall|i: int|
                0 <= i < t.dims@.len() ==> #[trigger] res->Ok_0.shape@[i] == t.dims@[i] as int % (
                usize::MAX + 1),
            res is Ok ==> (res->Ok_0.data is F32 <==> t.data_type == TensorProto_DataType::FLOAT),
            res is Ok ==> (res->Ok_0.data is Bool <==> t.data_type == TensorProto_DataType::BOOL),
            res is Ok ==> (match (res->Ok_0.data, t.raw_data) {
                (TensorData::F32(words), Some(raw)) => spelled_by(words@, raw@),
                (TensorData::F32(words), None) => words@ == t.float_data@,
                (TensorData::Bool(flags), Some(raw)) => {
                    &&& flags@.len() == raw@.len()
                    &&& forall|i: int|
                        0 <= i < raw@.len() ==> #[trigger] flags@[i] == (raw@[i] != 0)
                },
                (TensorData::Bool(flags), None) => {
                    &&& flags@.len() == t.int32_data@.len()
                    &&& forall|i: int|
                        0 <= i < t.int32_data@.len() ==> #[trigger] flags@[i] == (t.int32_data@[i]
                            != 0)
                },
            }),
            res is Err ==> res == (if t.data_type == TensorProto_DataType::FLOAT || t.data_type
                == TensorProto_DataType::BOOL {
                Err::<Tensor, TfdError>(TfdError::IncompatibleShape)
            } else {
                Err::<Tensor, TfdError>(TfdError::UnknownDatumType(t.data_type))
            }),
            ({
                let shape = extents_of(t.dims@);
                match t.data_type.datum_type() {
                    None => res == Err::<Tensor, TfdError>(
                        TfdError::UnknownDatumType(t.data_type),
                    ),
                    Some(DatumType::F32) => if holds(shape, t.words().len() as int) {
                        &&& res is Ok
                        &&& res->Ok_0.shape@ == shape
                        &&& res->Ok_0.data is F32
                        &&& res->Ok_0.data->F32_0@ == t.words()
                    } else {
                        res == Err::<Tensor, TfdError>(TfdError::IncompatibleShape)
                    },
                    _ => if holds(shape, t.flags().len() as int) {
                        &&& res is Ok
                        &&& res->Ok_0.shape@ == shape
                        &&& res->Ok_0.data is Bool
                        &&& res->Ok_0.data->Bool_0@ == t.flags()
                    } else {
                        res == Err::<Tensor, TfdError>(TfdError::IncompatibleShape)
                    },
                }
            }),
    {
        let dt = match DatumType::tfd_from(&t.data_type) {
            Ok(dt) => dt,
            Err(error) => {
                return Err(error);
            },
        };
        let shape = read_extents(&t.dims);
        proof {
            raw_bytes_come_first(*t, *t);
        }
        if dt == DatumType::F32 {
            let words = match &t.raw_data {
                Some(raw) => read_words(raw),
                None => {
                    let mut words: Vec<u32> = Vec::new();
                    words.extend_from_slice(t.float_data.as_slice());
                    assert(words@ =~= t.float_data@);
                    words
                },
            };
            if !shape_holds(&shape, words.len()) {
                return Err(TfdError::IncompatibleShape);
            }
            Ok(Tensor { shape, data: TensorData::F32(words) })
        } else {
            let flags = match &t.raw_data {
                Some(raw) => read_byte_flags(raw),
                None => read_int_flags(&t.int32_data),
            };
            if !shape_holds(&shape, flags.len()) {
                return Err(TfdError::IncompatibleShape);
            }
            Ok(Tensor { shape, data: TensorData::Bool(flags) })
        }
    }
}

/// The bytes that spell the bit patterns, little end first.
pub open spec fn bytes_of(words: Seq<u32>) -> Seq<u8> {
    Seq::new(
        4 * words.len(),
        |i: int|
            {
                let w = words[i / 4] as int;
                (if i % 4 == 0 {
                    w % 0x100
                } else if i % 4 == 1 {
                    w / 0x100 % 0x100
                } else if i % 4 == 2 {
                    w / 0x1_0000 % 0x100
                } else {
                    w / 0x100_0000
                }) as u8
            },
    )
}

/// Bit patterns that are written out as raw bytes are read back as they were.
pub proof fn raw_words_are_read_back(words: Seq<u32>)
    ensures
        words_of(bytes_of(words)) == words,
{
    let raw = bytes_of(words);
    assert forall|i: int| 0 <= i < words.len() implies #[trigger] words_of(raw)[i] == words[i] by {
        assert((4 * i) / 4 == i && (4 * i) % 4 == 0);
        assert((4 * i + 1) / 4 == i && (4 * i + 1) % 4 == 1);
        assert((4 * i + 2) / 4 == i && (4 * i + 2) % 4 == 2);
        assert((4 * i + 3) / 4 == i && (4 * i + 3) % 4 == 3);
        let w = words[i];
        assert(w == w % 0x100 + 0x100 * (w / 0x100 % 0x100) + 0x1_0000 * (w / 0x1_0000 % 0x100)
            + 0x100_0000 * (w / 0x100_0000)) by (bit_vector);
    }
    assert(words_of(raw) =~= words);
}

/// A message with raw bytes is read like one that lists its elements: as bit patterns where the bytes
/// spell the listed ones, and as truth values where the same elements are zero.
pub proof fn raw_bytes_read_like_listed_elements(raw: TensorProto, listed: TensorProto)
    requires
        listed.raw_data is None,
        raw.raw_data is Some,
    ensures
        raw.raw_data->Some_0@ == bytes_of(listed.float_data@) ==> raw.words() == listed.words(),
        raw.raw_data->Some_0@.len() == listed.int32_data@.len() && (forall|i: int|
            0 <= i < listed.int32_data@.len() ==> (#[trigger] raw.raw_data->Some_0@[i] == 0) == (
            listed.int32_data@[i] == 0)) ==> raw.flags() == listed.flags(),
{
    raw_words_are_read_back(listed.float_data@);
    if raw.raw_data->Some_0@.len() == listed.int32_data@.len() && (forall|i: int|
        0 <= i < listed.int32_data@.len() ==> (#[trigger] raw.raw_data->Some_0@[i] == 0) == (
        listed.int32_data@[i] == 0)) {
        assert(raw.flags() =~= listed.flags());
    }
}

/// No two types in a message stand for the same type of elements.
pub proof fn types_are_told_apart(a: TensorProto_DataType, b: TensorProto_DataType)
    requires
        a.datum_type() is Some,
        a.datum_type() == b.datum_type(),
    ensures
        a == b,
{
}

} // verus!
