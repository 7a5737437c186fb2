use svgm::optimize;
use svgm::optimizer::default_passes;
use svgm::passes::Pass;

#[test]
fn full_optimizer_convergence() {
    let input = "<svg xmlns=\"http://www.w3.org/2000/svg\"><path d=\"M0 0L10 10\" fill=\"red\"/><path d=\"M20 20L30 30\" fill=\"red\"/></svg>";
    let result1 = optimize(input).unwrap();
    let result2 = optimize(&result1.data).unwrap();
    assert_eq!(result1.data, result2.data, "should converge");
}

#[test]
fn converged_output_takes_one_round() {
    let input = "<svg xmlns=\"http://www.w3.org/2000/svg\"><g><rect fill=\"black\" class=\" a  b \"/></g></svg>";
    let result1 = optimize(input).unwrap();
    assert!(result1.iterations >= 2 && result1.iterations < 10);
    let result2 = optimize(&result1.data).unwrap();
    assert_eq!(result2.iterations, 1);
    assert_eq!(result1.data, result2.data);
    assert_eq!(result1.data, "<svg xmlns=\"http://www.w3.org/2000/svg\"><rect class=\"a b\"/></svg>");
}

#[test]
fn already_optimal_takes_one_round() {
    let input = "<svg xmlns=\"http://www.w3.org/2000/svg\"><rect/></svg>";
    let result = optimize(input).unwrap();
    assert_eq!(result.iterations, 1);
    assert_eq!(result.data, input);
}

#[test]
fn unparsable_input_is_an_error() {
    assert!(optimize("<svg").is_err());
}

#[test]
fn default_pass_order() {
    let names: Vec<&str> = default_passes().iter().map(|p| p.name()).collect();
    assert_eq!(
        names,
        vec![
            "removeDoctype",
            "removeProcInst",
            "removeComments",
            "removeMetadata",
            "removeEditorData",
            "removeEmptyAttrs",
            "removeEmptyText",
            "removeEmptyContainers",
            "removeUnusedNamespaces",
            "cleanupAttrs",
            "cleanupNumericValues",
            "convertColors",
            "removeUnknownsAndDefaults",
            "convertShapeToPath",
            "collapseGroups",
            "cleanupIds",
            "convertPathData",
            "mergePaths",
            "minifyWhitespace"
        ]
    );
}
