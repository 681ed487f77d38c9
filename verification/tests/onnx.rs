use nn_patches::onnx::{
    DatumType, Tensor, TensorData, TensorFact, TensorProto, TensorProto_DataType, TfdError,
    TypeProto_Tensor,
};

fn message(data_type: TensorProto_DataType, dims: Vec<i64>) -> TensorProto {
    TensorProto { data_type, dims, raw_data: None, float_data: vec![], int32_data: vec![] }
}

#[test]
fn known_types_are_read() {
    let known = [
        (TensorProto_DataType::BOOL, DatumType::Bool),
        (TensorProto_DataType::UINT8, DatumType::U8),
        (TensorProto_DataType::INT8, DatumType::I8),
        (TensorProto_DataType::INT32, DatumType::I32),
        (TensorProto_DataType::FLOAT, DatumType::F32),
        (TensorProto_DataType::DOUBLE, DatumType::F64),
        (TensorProto_DataType::STRING, DatumType::String),
    ];
    for (i, (t, dt)) in known.iter().enumerate() {
        assert_eq!(DatumType::tfd_from(t), Ok(*dt));
        for (_, other) in &known[i + 1..] {
            assert_ne!(dt, other);
        }
    }
}

#[test]
fn unknown_types_are_refused() {
    let unknown = [
        (TensorProto_DataType::UNDEFINED, "UNDEFINED"),
        (TensorProto_DataType::UINT16, "UINT16"),
        (TensorProto_DataType::INT16, "INT16"),
        (TensorProto_DataType::INT64, "INT64"),
        (TensorProto_DataType::FLOAT16, "FLOAT16"),
        (TensorProto_DataType::UINT32, "UINT32"),
        (TensorProto_DataType::UINT64, "UINT64"),
        (TensorProto_DataType::COMPLEX64, "COMPLEX64"),
        (TensorProto_DataType::COMPLEX128, "COMPLEX128"),
    ];
    for (t, name) in unknown {
        let error = DatumType::tfd_from(&t).unwrap_err();
        assert_eq!(error, TfdError::UnknownDatumType(t));
        assert_eq!(error.message(), format!("Unknown DatumType {}", name));
        assert_eq!(Tensor::tfd_from(&message(t, vec![])).unwrap_err(), error);
    }
}

#[test]
fn names_are_those_of_the_message() {
    for t in [
        TensorProto_DataType::FLOAT,
        TensorProto_DataType::UINT8,
        TensorProto_DataType::INT8,
        TensorProto_DataType::INT32,
        TensorProto_DataType::STRING,
        TensorProto_DataType::BOOL,
        TensorProto_DataType::DOUBLE,
        TensorProto_DataType::COMPLEX64,
    ] {
        assert_eq!(t.name(), format!("{:?}", t));
    }
}

#[test]
fn facts_hold_what_the_message_says() {
    let nothing = TypeProto_Tensor { elem_type: None, shape: None };
    assert_eq!(TensorFact::tfd_from(&nothing), Ok(TensorFact::default()));
    let all = TypeProto_Tensor {
        elem_type: Some(TensorProto_DataType::FLOAT),
        shape: Some(vec![1, 3, 224]),
    };
    assert_eq!(
        TensorFact::tfd_from(&all),
        Ok(TensorFact::default().with_datum_type(DatumType::F32).with_shape(vec![1, 3, 224]))
    );
    let shape = TypeProto_Tensor { elem_type: None, shape: Some(vec![-1]) };
    assert_eq!(TensorFact::tfd_from(&shape).unwrap().shape, Some(vec![-1i64 as usize]));
    let unset = TypeProto_Tensor { elem_type: None, shape: Some(vec![1, 0, 224]) };
    assert_eq!(TensorFact::tfd_from(&unset).unwrap().shape, Some(vec![1, 0, 224]));
    let unknown =
        TypeProto_Tensor { elem_type: Some(TensorProto_DataType::INT64), shape: Some(vec![2]) };
    assert_eq!(
        TensorFact::tfd_from(&unknown),
        Err(TfdError::UnknownDatumType(TensorProto_DataType::INT64))
    );
}

#[test]
fn numbers_are_read_from_either_field() {
    let numbers = [1.0f32, -2.5, 0.0, f32::MAX, f32::MIN_POSITIVE, -0.0];
    let bits: Vec<u32> = numbers.iter().map(|x| x.to_bits()).collect();
    let mut listed = message(TensorProto_DataType::FLOAT, vec![2, 3]);
    listed.float_data = bits.clone();
    let tensor = Tensor::tfd_from(&listed).unwrap();
    assert_eq!(tensor, Tensor { shape: vec![2, 3], data: TensorData::F32(bits) });
    let mut raw = message(TensorProto_DataType::FLOAT, vec![2, 3]);
    raw.raw_data = Some(numbers.iter().flat_map(|x| x.to_le_bytes()).collect());
    assert_eq!(Tensor::tfd_from(&raw), Ok(tensor));
}

#[test]
fn raw_bytes_are_read_little_end_first() {
    let mut raw = message(TensorProto_DataType::FLOAT, vec![1]);
    raw.raw_data = Some(vec![0x01, 0x20, 0x03, 0xc0]);
    raw.float_data = vec![7];
    assert_eq!(
        Tensor::tfd_from(&raw),
        Ok(Tensor { shape: vec![1], data: TensorData::F32(vec![0xc003_2001]) })
    );
    raw.raw_data = Some(vec![0x01, 0x20, 0x03, 0xc0, 0xff, 0xff, 0xff]);
    assert!(Tensor::tfd_from(&raw).is_ok());
}

#[test]
fn truth_values_are_read_from_either_field() {
    let flags = TensorData::Bool(vec![false, true, true, false]);
    let mut listed = message(TensorProto_DataType::BOOL, vec![4]);
    listed.int32_data = vec![0, 1, -7, 0];
    assert_eq!(Tensor::tfd_from(&listed), Ok(Tensor { shape: vec![4], data: flags.clone() }));
    let mut raw = message(TensorProto_DataType::BOOL, vec![4]);
    raw.raw_data = Some(vec![0, 1, 255, 0]);
    assert_eq!(Tensor::tfd_from(&raw), Ok(Tensor { shape: vec![4], data: flags }));
}

#[test]
fn the_shape_has_to_fit_the_elements() {
    let refused = Err(TfdError::IncompatibleShape);
    let mut t = message(TensorProto_DataType::FLOAT, vec![2, 2]);
    t.float_data = vec![0; 3];
    assert_eq!(Tensor::tfd_from(&t), refused);
    t.float_data = vec![0; 5];
    assert_eq!(Tensor::tfd_from(&t), refused);
    t.dims = vec![-1];
    assert_eq!(Tensor::tfd_from(&t), refused);
    t.dims = vec![i64::MAX, 0, i64::MAX];
    t.float_data = vec![];
    assert_eq!(Tensor::tfd_from(&t), refused);
    t.dims = vec![7, 0];
    assert_eq!(
        Tensor::tfd_from(&t),
        Ok(Tensor { shape: vec![7, 0], data: TensorData::F32(vec![]) })
    );
    t.dims = vec![];
    assert_eq!(Tensor::tfd_from(&t), refused);
    t.float_data = vec![5];
    assert!(Tensor::tfd_from(&t).is_ok());
    let mut flags = message(TensorProto_DataType::BOOL, vec![2]);
    flags.raw_data = Some(vec![1]);
    assert_eq!(Tensor::tfd_from(&flags), refused);
    assert_eq!(TfdError::IncompatibleShape.message(), "incompatible shapes");
}
