use ferrum_core::InferError;

#[test]
fn display_shape_mismatch() {
    let e = InferError::ShapeMismatch { expected: 4, got: 3 };
    let s = e.to_string();
    assert!(s.contains("expected 4") && s.contains("got 3"));
}

#[test]
fn display_dim_mismatch() {
    let e = InferError::DimMismatch("test msg".into());
    assert!(e.to_string().contains("test msg"));
}

#[test]
fn display_not_a_matrix() {
    let e = InferError::NotAMatrix(vec![3]);
    let s = e.to_string();
    assert!(s.contains("rank-2") && s.contains("[3]"));
}

#[test]
fn display_io() {
    let e = InferError::Io("disk full".into());
    assert!(e.to_string().contains("disk full"));
}

#[test]
fn display_format() {
    let e = InferError::Format("bad magic".into());
    assert!(e.to_string().contains("bad magic"));
}

#[test]
fn display_parse_error() {
    let e = InferError::ParseError("not a float".into());
    assert!(e.to_string().contains("not a float"));
}

#[test]
fn io_conversion() {
    let io_err = std::io::Error::new(std::io::ErrorKind::NotFound, "file missing");
    let e: InferError = io_err.into();
    assert!(matches!(e, InferError::Io(_)));
    assert!(e.to_string().contains("file missing"));
}

#[test]
fn parse_float_conversion() {
    let r: std::result::Result<f32, _> = "not_a_float".parse();
    let text = r.clone().unwrap_err().to_string();
    let e: InferError = r.unwrap_err().into();
    assert!(matches!(e, InferError::ParseError(_)));
    assert!(e.to_string().contains(&text));
}

#[test]
fn clone_and_eq() {
    let a = InferError::DimMismatch("a".into());
    let b = a.clone();
    assert_eq!(a, b);
}
