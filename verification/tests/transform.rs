use svgm::passes::convert_transform::{parse_transform_list, ConvertTransform, TransformKind};

#[test]
fn reads_transform_lists() {
    let items = parse_transform_list("translate(10,20) scale(2),rotate(45 1 2)").unwrap();
    assert_eq!(items.len(), 3);
    assert_eq!(items[0].kind, TransformKind::Translate);
    assert_eq!(items[0].args, vec!["10".to_string(), "20".to_string()]);
    assert_eq!(items[1].kind, TransformKind::Scale);
    assert_eq!(items[1].args, vec!["2".to_string()]);
    assert_eq!(items[2].kind, TransformKind::Rotate);
    assert_eq!(items[2].args, vec!["45".to_string(), "1".to_string(), "2".to_string()]);
}

#[test]
fn reads_number_forms_in_transforms() {
    let items = parse_transform_list("matrix(1e2,-.5,+3.,0,1E-2 4)").unwrap();
    assert_eq!(items[0].kind, TransformKind::Matrix);
    assert_eq!(items[0].args, vec!["1e2", "-.5", "+3.", "0", "1E-2", "4"]);
}

#[test]
fn rejects_malformed_transforms() {
    assert!(parse_transform_list("translate(1,2,3)").is_none());
    assert!(parse_transform_list("rotate(1,2)").is_none());
    assert!(parse_transform_list("skew(1)").is_none());
    assert!(parse_transform_list("translate 1 2").is_none());
    assert!(parse_transform_list("translate(1").is_none());
    assert!(parse_transform_list("scale(1e)").is_none());
    assert!(parse_transform_list("(1)").is_none());
}

#[test]
fn empty_transform_list_is_empty() {
    assert_eq!(parse_transform_list("  ").unwrap().len(), 0);
}

#[test]
fn transform_default_precision() {
    assert_eq!(ConvertTransform::default().precision, 3);
}
