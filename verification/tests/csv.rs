use ferrum_core::csv::{
    fit_normalizer_with_target, train_val_split, CsvDataset, ModelMetadata, Normalizer, TaskType,
};
use ferrum_core::decimal::Decimals;
use ferrum_core::rng::Rng;
use ferrum_core::{InferError, Tensor, F32};

struct Dec;

impl Decimals for Dec {
    fn parse(&self, text: &String) -> Option<F32> {
        text.parse::<f32>().ok().map(f)
    }
    fn fixed(&self, x: F32, digits: usize) -> String {
        format!("{:.*}", digits, g(x))
    }
}

fn f(x: f32) -> F32 {
    F32::from_bits(x.to_bits())
}

fn g(x: F32) -> f32 {
    f32::from_bits(x.to_bits())
}

fn fv(v: Vec<f32>) -> Vec<F32> {
    v.into_iter().map(f).collect()
}

fn gv(v: &[F32]) -> Vec<f32> {
    v.iter().map(|x| g(*x)).collect()
}

const SNIPPET: &str = "\
sepal_length,sepal_width,petal_length,petal_width,species
5.1,3.5,1.4,0.2,Iris-setosa
4.9,3.0,1.4,0.2,Iris-setosa
6.3,3.3,6.0,2.5,Iris-virginica
5.8,2.7,5.1,1.9,Iris-virginica
7.0,3.2,4.7,1.4,Iris-versicolor
6.4,3.2,4.5,1.5,Iris-versicolor
";

const REGRESSION: &str = "\
x1,x2,price
1.0,2.0,100000.0
2.0,3.0,200000.0
3.0,4.0,300000.0
4.0,5.0,400000.0
5.0,6.0,500000.0
6.0,7.0,600000.0
";

#[test]
fn classification_parses_header_and_rows() {
    let ds = CsvDataset::from_str(&Dec, SNIPPET).unwrap();
    assert_eq!(ds.rows.len(), 6);
    assert_eq!(ds.num_features, 4);
    assert_eq!(ds.num_classes, 3);
    assert_eq!(ds.task, TaskType::Classification);
}

#[test]
fn feature_names_read_from_header() {
    let ds = CsvDataset::from_str(&Dec, SNIPPET).unwrap();
    assert_eq!(ds.feature_names[0], "sepal_length");
    assert_eq!(ds.feature_names[3], "petal_width");
}

#[test]
fn regression_detected_automatically() {
    let ds = CsvDataset::from_str(&Dec, REGRESSION).unwrap();
    assert_eq!(ds.task, TaskType::Regression);
    assert_eq!(ds.num_features, 2);
}

#[test]
fn regression_targets_correct() {
    let ds = CsvDataset::from_str(&Dec, REGRESSION).unwrap();
    assert_eq!(ds.rows[0].target, f(100000.0));
    assert_eq!(ds.rows[5].target, f(600000.0));
}

#[test]
fn feature_ranges_computed() {
    let ds = CsvDataset::from_str(&Dec, SNIPPET).unwrap();
    assert!((g(ds.feature_ranges[0][0]) - 4.9).abs() < 0.01);
    assert!((g(ds.feature_ranges[0][1]) - 7.0).abs() < 0.01);
}

#[test]
fn to_tensors_shape() {
    let ds = CsvDataset::from_str(&Dec, SNIPPET).unwrap();
    let (x, labels, _) = ds.to_tensors().unwrap();
    assert_eq!(x.shape, vec![6, 4]);
    assert_eq!(labels.len(), 6);
}

#[test]
fn normalizer_zero_mean() {
    let ds = CsvDataset::from_str(&Dec, SNIPPET).unwrap();
    let (x, _, _) = ds.to_tensors().unwrap();
    let norm = Normalizer::fit(&x).unwrap();
    let z = norm.transform(&x).unwrap();
    let (n, cols) = z.matrix_dims().unwrap();
    for c in 0..cols {
        let mean: f32 = (0..n).map(|r| g(z.at(r, c))).sum::<f32>() / n as f32;
        assert!(mean.abs() < 1e-4, "col {c} mean = {mean}");
    }
}

#[test]
fn normalizer_encode_decode_roundtrip() {
    let ds = CsvDataset::from_str(&Dec, SNIPPET).unwrap();
    let (x, _, _) = ds.to_tensors().unwrap();
    let n1 = Normalizer::fit(&x).unwrap();
    let n2 = Normalizer::decode(&Dec, &n1.encode(&Dec)).unwrap();
    for (a, b) in gv(&n1.means).iter().zip(&gv(&n2.means)) {
        assert!((a - b).abs() < 1e-6);
    }
}

#[test]
fn metadata_json_roundtrip() {
    let ds = CsvDataset::from_str(&Dec, SNIPPET).unwrap();
    let meta = ModelMetadata {
        dataset_name: "test".into(),
        task: TaskType::Classification,
        feature_names: ds.feature_names.clone(),
        feature_ranges: ds.feature_ranges.clone(),
        class_names: ds.class_names.clone(),
        target_name: "".into(),
        target_range: [f(0.0), f(1.0)],
        input_dim: 4,
        output_dim: 3,
        tokenizer_state: String::new(),
    };
    let json = meta.to_json(&Dec);
    let meta2 = ModelMetadata::from_json(&Dec, &json).unwrap();
    assert_eq!(meta2.task, TaskType::Classification);
    assert_eq!(meta2.feature_names, ds.feature_names);
    assert_eq!(meta2.class_names, ds.class_names);
    assert_eq!(meta2.input_dim, 4);
    assert_eq!(
        meta2.feature_ranges.len(),
        ds.feature_ranges.len(),
        "feature_ranges count must survive round-trip"
    );
    assert_eq!(meta2.feature_ranges.len(), 4);
    for (a, b) in meta2.feature_ranges.iter().zip(&ds.feature_ranges) {
        assert!((g(a[0]) - g(b[0])).abs() < 1e-3, "range lo mismatch");
        assert!((g(a[1]) - g(b[1])).abs() < 1e-3, "range hi mismatch");
    }
}

#[test]
fn regression_metadata_roundtrip() {
    let ds = CsvDataset::from_str(&Dec, REGRESSION).unwrap();
    let meta = ModelMetadata {
        dataset_name: "reg".into(),
        task: TaskType::Regression,
        feature_names: ds.feature_names.clone(),
        feature_ranges: ds.feature_ranges.clone(),
        class_names: vec![],
        target_name: "price".into(),
        target_range: ds.target_range,
        input_dim: 2,
        output_dim: 1,
        tokenizer_state: String::new(),
    };
    let json = meta.to_json(&Dec);
    let meta2 = ModelMetadata::from_json(&Dec, &json).unwrap();
    assert_eq!(meta2.task, TaskType::Regression);
    assert_eq!(meta2.target_name, "price");
    assert!((g(meta2.target_range[0]) - 100000.0).abs() < 1.0);
}

#[test]
fn train_val_split_preserves_total() {
    let ds = CsvDataset::from_str(&Dec, SNIPPET).unwrap();
    let mut rng = Rng::new(42);
    let (tr, va) = train_val_split(&ds, f(0.33), &mut rng);
    assert_eq!(tr.rows.len() + va.rows.len(), 6);
}

#[test]
fn constant_column_doesnt_divide_by_zero() {
    let csv = "a,b,label\n1.0,0.0,x\n2.0,0.0,y\n3.0,0.0,x\n";
    let ds = CsvDataset::from_str(&Dec, csv).unwrap();
    let (x, _, _) = ds.to_tensors().unwrap();
    let norm = Normalizer::fit(&x).unwrap();
    assert_eq!(g(norm.stds[1]), 1.0);
}

#[test]
fn fit_with_target_normalizer() {
    let ds = CsvDataset::from_str(&Dec, REGRESSION).unwrap();
    let (x, _, targets) = ds.to_tensors().unwrap();
    let norm = fit_normalizer_with_target(&x, &targets).unwrap();
    assert_eq!(norm.means.len(), 3);
    let back = g(norm.denormalise_target(norm.normalise_target(f(300000.0))));
    assert!((back - 300000.0).abs() < 1.0);
}

#[test]
fn a_text_without_rows_is_refused() {
    assert!(matches!(CsvDataset::from_str(&Dec, ""), Err(InferError::Format(_))));
}

#[test]
fn a_task_can_be_forced() {
    let ds =
        CsvDataset::from_str_with_task(&Dec, REGRESSION, Some(TaskType::Classification)).unwrap();
    assert_eq!(ds.task, TaskType::Classification);
    assert_eq!(ds.num_classes, 6);
}

#[test]
fn task_names_are_read_back() {
    for t in [TaskType::Classification, TaskType::Regression] {
        assert_eq!(TaskType::from_str(t.as_str()), Some(t));
    }
    assert_eq!(TaskType::from_str("other"), None);
}

#[test]
fn one_row_is_normalized_like_a_matrix() {
    let norm = Normalizer { means: fv(vec![1.0, 2.0, 3.0]), stds: fv(vec![2.0, 4.0, 0.5]) };
    let row = norm.transform_row(&fv(vec![3.0, 0.0, 4.0])).unwrap();
    assert_eq!(row.shape, vec![1, 3]);
    assert_eq!(gv(&row.data), vec![1.0, -0.5, 2.0]);
    let all = norm.transform(&Tensor::row(fv(vec![3.0, 0.0, 4.0])).unwrap()).unwrap();
    assert_eq!(row.data, all.data);
    assert!(norm.transform_row(&fv(vec![1.0])).is_err());
}

#[test]
fn errors_count_all_lines_behind_the_header() {
    let text = "a,b,label\n1,2,x\n\n3,y\n";
    match CsvDataset::from_str(&Dec, text) {
        Err(InferError::Format(t)) => assert_eq!(t, "line 2: 1 features, expected 2"),
        _ => panic!("rows of different lengths"),
    }
    let text = "\n\na,b,label\n1,2,x\nalone\n\n3,t\"wo,y\n";
    match CsvDataset::from_str(&Dec, text) {
        Err(InferError::ParseError(t)) => assert_eq!(t, "line 3, col 1: \"t\\\"wo\""),
        _ => panic!("a cell is no number"),
    }
    match CsvDataset::from_str(&Dec, "a,b\n") {
        Err(InferError::Format(t)) => assert_eq!(t, "no data rows"),
        _ => panic!("no rows"),
    }
}

#[test]
fn texts_of_any_kind_come_back_from_json() {
    let mut meta = ModelMetadata {
        dataset_name: "a \"quoted\", name".into(),
        task: TaskType::Classification,
        feature_names: vec!["x,y".into(), "[z]".into(), "\\".into(), String::new()],
        feature_ranges: vec![],
        class_names: vec!["\"".into(), "target_name\":\"no".into()],
        target_name: String::new(),
        target_range: [f(0.0), f(1.0)],
        input_dim: 4,
        output_dim: 2,
        tokenizer_state: "\\\" \"task\":\"regression\"".into(),
    };
    let back = ModelMetadata::from_json(&Dec, &meta.to_json(&Dec)).unwrap();
    assert_eq!(back.dataset_name, meta.dataset_name);
    assert_eq!(back.task, TaskType::Classification);
    assert_eq!(back.feature_names, meta.feature_names);
    assert_eq!(back.class_names, meta.class_names);
    assert_eq!(back.target_name, "");
    assert_eq!(back.tokenizer_state, meta.tokenizer_state);
    meta.dataset_name = String::new();
    meta.feature_names = vec![];
    meta.target_name = "\\".into();
    let back = ModelMetadata::from_json(&Dec, &meta.to_json(&Dec)).unwrap();
    assert_eq!(back.dataset_name, "");
    assert!(back.feature_names.is_empty());
    assert_eq!(back.target_name, "\\");
}

#[test]
fn lists_are_split_outside_quotes() {
    let json = "{\"task\":\"regression\",\"feature_names\": [ \"a,b\" , plain , \"c]d\"],\"x\":1}";
    let meta = ModelMetadata::from_json(&Dec, json).unwrap();
    assert_eq!(meta.feature_names, vec!["a,b", "plain", "c]d"]);
}

#[test]
fn rows_are_equal_by_their_values() {
    let row = |x: f32| ferrum_core::csv::CsvRow { features: fv(vec![x]), label: 0, target: f(1.0) };
    assert_eq!(row(0.0), row(-0.0));
    assert_ne!(row(f32::NAN), row(f32::NAN));
    assert_ne!(row(1.0), row(2.0));
}

#[test]
fn the_first_target_that_is_no_number_is_named() {
    let text = "a,y\n1,2\n2,\"low\"\n3,high\n";
    match CsvDataset::from_str_with_task(&Dec, text, Some(TaskType::Regression)) {
        Err(InferError::ParseError(t)) => assert_eq!(t, "regression target: low"),
        _ => panic!("a target is no number"),
    }
}
