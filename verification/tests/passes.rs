use svgm::parser::parse;
use svgm::passes::cleanup_attrs::CleanupAttrs;
use svgm::passes::cleanup_ids::CleanupIds;
use svgm::passes::cleanup_numeric_values::CleanupNumericValues;
use svgm::passes::collapse_groups::CollapseGroups;
use svgm::passes::convert_colors::ConvertColors;
use svgm::passes::convert_shape_to_path::ConvertShapeToPath;
use svgm::passes::merge_paths::MergePaths;
use svgm::passes::minify_whitespace::MinifyWhitespace;
use svgm::passes::remove_desc::RemoveDesc;
use svgm::passes::remove_editor_data::RemoveEditorData;
use svgm::passes::remove_empty_attrs::RemoveEmptyAttrs;
use svgm::passes::remove_nodes::{
    RemoveComments, RemoveDoctype, RemoveEmptyContainers, RemoveEmptyText, RemoveMetadata, RemoveProcInst,
};
use svgm::passes::remove_unknowns_and_defaults::RemoveUnknownsAndDefaults;
use svgm::passes::remove_unused_namespaces::RemoveUnusedNamespaces;
use svgm::passes::{Pass, PassResult};
use svgm::serializer::serialize;

#[test]
fn collapses_whitespace_in_attrs() {
    let input = "<svg xmlns=\"http://www.w3.org/2000/svg\"><rect class=\"  a   b  \"/></svg>";
    let mut doc = parse(input).unwrap();
    assert_eq!(CleanupAttrs.run(&mut doc), PassResult::Changed);
    let output = serialize(&doc);
    assert!(output.contains("class=\"a b\""));
}

#[test]
fn handles_newlines_in_attrs() {
    let input = "<svg xmlns=\"http://www.w3.org/2000/svg\"><path d=\"M 0\n0 L\n10 10\"/></svg>";
    let mut doc = parse(input).unwrap();
    assert_eq!(CleanupAttrs.run(&mut doc), PassResult::Changed);
    let output = serialize(&doc);
    assert!(output.contains("d=\"M 0 0 L 10 10\""));
}

#[test]
fn cleanup_attrs_reports_unchanged_on_clean_values() {
    let input = "<svg xmlns=\"http://www.w3.org/2000/svg\"><rect class=\"a b\"/></svg>";
    let mut doc = parse(input).unwrap();
    assert_eq!(CleanupAttrs.run(&mut doc), PassResult::Unchanged);
    assert_eq!(serialize(&doc), input);
}

#[test]
fn collapses_attr_less_group() {
    let input = r#"<svg xmlns="http://www.w3.org/2000/svg"><g><rect/><circle r="5"/></g></svg>"#;
    let mut doc = parse(input).unwrap();
    assert_eq!(CollapseGroups.run(&mut doc), PassResult::Changed);
    let output = serialize(&doc);
    assert!(!output.contains("<g>"), "group should be removed: {output}");
    assert!(output.contains("<rect/>"));
    assert!(output.contains("<circle"));
}

#[test]
fn merges_single_child_attrs() {
    let input = r#"<svg xmlns="http://www.w3.org/2000/svg"><g fill="red"><rect width="10"/></g></svg>"#;
    let mut doc = parse(input).unwrap();
    assert_eq!(CollapseGroups.run(&mut doc), PassResult::Changed);
    let output = serialize(&doc);
    assert!(!output.contains("<g"), "group should be removed: {output}");
    assert!(output.contains("fill=\"red\""));
    assert!(output.contains("width=\"10\""));
}

#[test]
fn keeps_group_with_conflicting_attrs() {
    let input = r#"<svg xmlns="http://www.w3.org/2000/svg"><g fill="red"><rect fill="blue"/></g></svg>"#;
    let mut doc = parse(input).unwrap();
    assert_eq!(CollapseGroups.run(&mut doc), PassResult::Unchanged);
}

#[test]
fn keeps_group_with_transform() {
    let input = r#"<svg xmlns="http://www.w3.org/2000/svg"><g transform="translate(10,10)"><rect/></g></svg>"#;
    let mut doc = parse(input).unwrap();
    assert_eq!(CollapseGroups.run(&mut doc), PassResult::Unchanged);
}

#[test]
fn collapses_nested_groups() {
    let input = r#"<svg xmlns="http://www.w3.org/2000/svg"><g><g><rect/></g></g></svg>"#;
    let mut doc = parse(input).unwrap();
    CollapseGroups.run(&mut doc);
    CollapseGroups.run(&mut doc);
    let output = serialize(&doc);
    assert!(!output.contains("<g"), "all groups should be removed: {output}");
    assert!(output.contains("<rect/>"));
}

#[test]
fn keeps_group_with_id() {
    let input = r#"<svg xmlns="http://www.w3.org/2000/svg"><g id="layer1"><rect/></g></svg>"#;
    let mut doc = parse(input).unwrap();
    let result = CollapseGroups.run(&mut doc);
    assert_eq!(result, PassResult::Changed);
}

#[test]
fn removes_desc_and_title() {
    let input = r#"<svg xmlns="http://www.w3.org/2000/svg"><title>My SVG</title><desc>A description</desc><rect/></svg>"#;
    let mut doc = parse(input).unwrap();
    assert_eq!(RemoveDesc.run(&mut doc), PassResult::Changed);
    let output = serialize(&doc);
    assert!(!output.contains("desc"));
    assert!(!output.contains("title"));
    assert!(output.contains("<rect"));
}

#[test]
fn removes_default_fill_black() {
    let input = r#"<svg xmlns="http://www.w3.org/2000/svg"><rect fill="black" width="10"/></svg>"#;
    let mut doc = parse(input).unwrap();
    assert_eq!(RemoveUnknownsAndDefaults.run(&mut doc), PassResult::Changed);
    let output = serialize(&doc);
    assert!(!output.contains("fill"), "default fill=black should be removed: {output}");
}

#[test]
fn removes_default_opacity() {
    let input = r#"<svg xmlns="http://www.w3.org/2000/svg"><rect opacity="1" fill-opacity="1" stroke-opacity="1"/></svg>"#;
    let mut doc = parse(input).unwrap();
    assert_eq!(RemoveUnknownsAndDefaults.run(&mut doc), PassResult::Changed);
    let output = serialize(&doc);
    assert!(!output.contains("opacity"), "default opacities should be removed: {output}");
}

#[test]
fn removes_default_stroke_none() {
    let input = r#"<svg xmlns="http://www.w3.org/2000/svg"><rect stroke="none"/></svg>"#;
    let mut doc = parse(input).unwrap();
    assert_eq!(RemoveUnknownsAndDefaults.run(&mut doc), PassResult::Changed);
    let output = serialize(&doc);
    assert!(!output.contains("stroke"), "default stroke=none should be removed: {output}");
}

#[test]
fn keeps_non_default_fill() {
    let input = r#"<svg xmlns="http://www.w3.org/2000/svg"><rect fill="red"/></svg>"#;
    let mut doc = parse(input).unwrap();
    assert_eq!(RemoveUnknownsAndDefaults.run(&mut doc), PassResult::Unchanged);
}

#[test]
fn keeps_fill_on_svg_element() {
    let input = r#"<svg xmlns="http://www.w3.org/2000/svg" fill="black"><rect/></svg>"#;
    let mut doc = parse(input).unwrap();
    assert_eq!(RemoveUnknownsAndDefaults.run(&mut doc), PassResult::Unchanged);
}

#[test]
fn removes_version_from_svg() {
    let input = r#"<svg xmlns="http://www.w3.org/2000/svg" version="1.1"><rect/></svg>"#;
    let mut doc = parse(input).unwrap();
    assert_eq!(RemoveUnknownsAndDefaults.run(&mut doc), PassResult::Changed);
    let output = serialize(&doc);
    assert!(!output.contains("version"));
}

#[test]
fn removes_hex_default_fill() {
    let input = "<svg xmlns=\"http://www.w3.org/2000/svg\"><path fill=\"#000000\" d=\"M0 0\"/></svg>";
    let mut doc = parse(input).unwrap();
    assert_eq!(RemoveUnknownsAndDefaults.run(&mut doc), PassResult::Changed);
    let output = serialize(&doc);
    assert!(!output.contains("fill"), "fill=#000000 should be removed: {output}");
}

fn run_merge(input: &str) -> (PassResult, String) {
    let mut doc = parse(input).unwrap();
    let result = MergePaths.run(&mut doc);
    (result, serialize(&doc))
}

#[test]
fn merges_adjacent_paths_same_attrs() {
    let input = "<svg xmlns=\"http://www.w3.org/2000/svg\"><path d=\"M0 0L10 10\" fill=\"red\"/><path d=\"M20 20L30 30\" fill=\"red\"/></svg>";
    let (result, output) = run_merge(input);
    assert_eq!(result, PassResult::Changed);
    assert_eq!(output.matches("<path").count(), 1);
    assert!(output.contains("M0 0L10 10") && output.contains("M20 20L30 30"), "expected merged d, got: {output}");
}

#[test]
fn merges_three_adjacent_paths() {
    let input = "<svg xmlns=\"http://www.w3.org/2000/svg\"><path d=\"M0 0L10 10\" fill=\"red\"/><path d=\"M20 20L30 30\" fill=\"red\"/><path d=\"M40 40L50 50\" fill=\"red\"/></svg>";
    let (result, output) = run_merge(input);
    assert_eq!(result, PassResult::Changed);
    assert_eq!(output.matches("<path").count(), 1);
}

#[test]
fn no_merge_different_attrs() {
    let input = "<svg xmlns=\"http://www.w3.org/2000/svg\"><path d=\"M0 0L10 10\" fill=\"red\"/><path d=\"M20 20L30 30\" fill=\"blue\"/></svg>";
    let (result, _) = run_merge(input);
    assert_eq!(result, PassResult::Unchanged);
}

#[test]
fn no_merge_single_path() {
    let input = "<svg xmlns=\"http://www.w3.org/2000/svg\"><path d=\"M0 0L10 10\" fill=\"red\"/></svg>";
    let (result, _) = run_merge(input);
    assert_eq!(result, PassResult::Unchanged);
}

#[test]
fn no_merge_with_id() {
    let input = "<svg xmlns=\"http://www.w3.org/2000/svg\"><path d=\"M0 0L10 10\" fill=\"red\" id=\"a\"/><path d=\"M20 20L30 30\" fill=\"red\"/></svg>";
    let (result, _) = run_merge(input);
    assert_eq!(result, PassResult::Unchanged);
}

#[test]
fn no_merge_with_fill_rule() {
    let input = "<svg xmlns=\"http://www.w3.org/2000/svg\"><path d=\"M0 0L10 10\" fill=\"red\" fill-rule=\"evenodd\"/><path d=\"M20 20L30 30\" fill=\"red\" fill-rule=\"evenodd\"/></svg>";
    let (result, _) = run_merge(input);
    assert_eq!(result, PassResult::Unchanged);
}

#[test]
fn no_merge_with_markers() {
    let input = "<svg xmlns=\"http://www.w3.org/2000/svg\"><path d=\"M0 0L10 10\" fill=\"red\" marker-end=\"url(#arrow)\"/><path d=\"M20 20L30 30\" fill=\"red\" marker-end=\"url(#arrow)\"/></svg>";
    let (result, _) = run_merge(input);
    assert_eq!(result, PassResult::Unchanged);
}

#[test]
fn no_merge_with_animation_child() {
    let input = "<svg xmlns=\"http://www.w3.org/2000/svg\"><path d=\"M0 0L10 10\" fill=\"red\"><animate attributeName=\"d\" to=\"M0 0L20 20\" dur=\"1s\"/></path><path d=\"M20 20L30 30\" fill=\"red\"/></svg>";
    let (result, _) = run_merge(input);
    assert_eq!(result, PassResult::Unchanged);
}

#[test]
fn merges_paths_with_whitespace_between() {
    let input = "<svg xmlns=\"http://www.w3.org/2000/svg\"><path d=\"M0 0L10 10\" fill=\"red\"/>  \n  <path d=\"M20 20L30 30\" fill=\"red\"/></svg>";
    let (result, output) = run_merge(input);
    assert_eq!(result, PassResult::Changed);
    assert_eq!(output.matches("<path").count(), 1);
}

#[test]
fn no_merge_non_adjacent() {
    let input = "<svg xmlns=\"http://www.w3.org/2000/svg\"><path d=\"M0 0L10 10\" fill=\"red\"/><rect width=\"10\" height=\"10\"/><path d=\"M20 20L30 30\" fill=\"red\"/></svg>";
    let (result, _) = run_merge(input);
    assert_eq!(result, PassResult::Unchanged);
}

#[test]
fn merges_with_different_attr_order() {
    let input = "<svg xmlns=\"http://www.w3.org/2000/svg\"><path d=\"M0 0L10 10\" fill=\"red\" stroke=\"black\"/><path d=\"M20 20L30 30\" stroke=\"black\" fill=\"red\"/></svg>";
    let (result, output) = run_merge(input);
    assert_eq!(result, PassResult::Changed);
    assert_eq!(output.matches("<path").count(), 1);
}

#[test]
fn pass_result_changed_flag() {
    assert!(PassResult::Changed.changed());
    assert!(!PassResult::Unchanged.changed());
}

#[test]
fn pass_names() {
    assert_eq!(CleanupAttrs.name(), "cleanupAttrs");
    assert_eq!(CollapseGroups.name(), "collapseGroups");
    assert_eq!(MergePaths.name(), "mergePaths");
    assert_eq!(RemoveDesc.name(), "removeDesc");
    assert_eq!(RemoveUnknownsAndDefaults.name(), "removeUnknownsAndDefaults");
}

#[test]
fn keeps_group_that_references_content() {
    for attr in ["clip-path=\"url(#c)\"", "mask=\"url(#m)\"", "filter=\"url(#f)\""] {
        let input = format!("<svg xmlns=\"http://www.w3.org/2000/svg\"><g {attr}><rect/></g></svg>");
        let mut doc = parse(&input).unwrap();
        assert_eq!(CollapseGroups.run(&mut doc), PassResult::Unchanged);
        assert_eq!(serialize(&doc), input);
    }
}

#[test]
fn foreign_object_content_is_untouched() {
    let input = "<svg xmlns=\"http://www.w3.org/2000/svg\"><foreignObject><g><div class=\" a  b \" fill=\"black\"/></g><path d=\"M0 0\"/><path d=\"M1 1\"/></foreignObject></svg>";
    for pass in [0, 1, 2, 3, 4] {
        let mut doc = parse(input).unwrap();
        let r = match pass {
            0 => CleanupAttrs.run(&mut doc),
            1 => CollapseGroups.run(&mut doc),
            2 => MergePaths.run(&mut doc),
            3 => RemoveDesc.run(&mut doc),
            _ => RemoveUnknownsAndDefaults.run(&mut doc),
        };
        assert_eq!(r, PassResult::Unchanged);
        assert_eq!(serialize(&doc), input);
    }
}

#[test]
fn keeps_default_fill_under_inherited_fill() {
    let input = r#"<svg xmlns="http://www.w3.org/2000/svg"><g fill="red"><rect fill="black" width="10"/></g></svg>"#;
    let mut doc = parse(input).unwrap();
    RemoveUnknownsAndDefaults.run(&mut doc);
    let output = serialize(&doc);
    assert!(output.contains("<rect fill=\"black\""), "fill=black overrides an inherited fill: {output}");
}

#[test]
fn merge_makes_a_leading_relative_move_absolute() {
    let input = "<svg xmlns=\"http://www.w3.org/2000/svg\"><path d=\"M0 0L10 10\"/><path d=\"m20 20h10\"/></svg>";
    let (result, output) = run_merge(input);
    assert_eq!(result, PassResult::Changed);
    assert_eq!(output, "<svg xmlns=\"http://www.w3.org/2000/svg\"><path d=\"M0 0L10 10 M20 20h10\"/></svg>");
}

#[test]
fn no_merge_when_lines_follow_a_leading_relative_move_implicitly() {
    let input = "<svg xmlns=\"http://www.w3.org/2000/svg\"><path d=\"M0 0L10 10z\"/><path d=\" m20,20 5 5\"/></svg>";
    let (result, output) = run_merge(input);
    assert_eq!(result, PassResult::Unchanged);
    assert_eq!(output.matches("<path").count(), 2);
}

#[test]
fn merge_rewrites_a_spaced_leading_relative_move_in_place() {
    let input = "<svg xmlns=\"http://www.w3.org/2000/svg\"><path d=\"M0 0L10 10z\"/><path d=\" m20,20h5\"/></svg>";
    let (result, output) = run_merge(input);
    assert_eq!(result, PassResult::Changed);
    assert_eq!(output, "<svg xmlns=\"http://www.w3.org/2000/svg\"><path d=\"M0 0L10 10z M20,20h5\"/></svg>");
}

#[test]
fn no_merge_with_clip_path_mask_or_url_paint() {
    for attr in ["clip-path=\"url(#c)\"", "mask=\"url(#m)\"", "mask-image=\"url(#m)\"", "fill=\"url(#g)\"", "stroke=\"url(#g)\"", "filter=\"url(#f)\""] {
        let input = format!("<svg xmlns=\"http://www.w3.org/2000/svg\"><path d=\"M0 0L10 10\" {attr}/><path d=\"M20 20L30 30\" {attr}/></svg>");
        let (result, output) = run_merge(&input);
        assert_eq!(result, PassResult::Unchanged, "{attr}");
        assert_eq!(output.matches("<path").count(), 2);
    }
}

#[test]
fn no_merge_under_ancestor_with_clip_path_or_markers() {
    for attr in ["clip-path=\"url(#c)\"", "mask=\"url(#m)\"", "marker-end=\"url(#a)\""] {
        let input = format!("<svg xmlns=\"http://www.w3.org/2000/svg\"><g {attr}><path d=\"M0 0L10 10\"/><path d=\"M20 20L30 30\"/></g></svg>");
        let (result, output) = run_merge(&input);
        assert_eq!(result, PassResult::Unchanged, "{attr}");
        assert_eq!(output.matches("<path").count(), 2);
    }
}

#[test]
fn value_holding_double_quote_stays_well_formed() {
    let input = "<svg xmlns=\"http://www.w3.org/2000/svg\"><text font-family='\"Open Sans\"'>a</text></svg>";
    let doc = parse(input).unwrap();
    let output = serialize(&doc);
    assert_eq!(output, "<svg xmlns=\"http://www.w3.org/2000/svg\"><text font-family=\"&quot;Open Sans&quot;\">a</text></svg>");
    assert!(parse(&output).is_ok());
}

#[test]
fn no_merge_of_overlapping_paths() {
    let input = "<svg xmlns=\"http://www.w3.org/2000/svg\"><path d=\"M0 0h10v10h-10z\"/><path d=\"M5 5h10v10h-10z\"/></svg>";
    let (result, output) = run_merge(input);
    assert_eq!(result, PassResult::Unchanged);
    assert_eq!(output, input);
}

#[test]
fn merges_paths_that_lie_apart() {
    let input = "<svg xmlns=\"http://www.w3.org/2000/svg\"><path d=\"M0 0h10v10h-10z\"/><path d=\"M20 20h10v10h-10z\"/></svg>";
    let (result, output) = run_merge(input);
    assert_eq!(result, PassResult::Changed);
    assert_eq!(output.matches("<path").count(), 1);
}

#[test]
fn removes_comments_doctype_and_processing_instructions() {
    let input = "<?xml version=\"1.0\"?><!DOCTYPE svg><svg xmlns=\"http://www.w3.org/2000/svg\"><!-- note --><rect/><foreignObject><!-- kept --></foreignObject></svg>";
    let mut doc = parse(input).unwrap();
    assert_eq!(RemoveComments.run(&mut doc), PassResult::Changed);
    assert_eq!(RemoveDoctype.run(&mut doc), PassResult::Changed);
    assert_eq!(RemoveProcInst.run(&mut doc), PassResult::Changed);
    assert_eq!(RemoveComments.run(&mut doc), PassResult::Unchanged);
    let output = serialize(&doc);
    assert_eq!(output, "<svg xmlns=\"http://www.w3.org/2000/svg\"><rect/><foreignObject><!-- kept --></foreignObject></svg>");
}

#[test]
fn removes_metadata_outside_foreign_object() {
    let input = "<svg xmlns=\"http://www.w3.org/2000/svg\"><metadata><rdf/></metadata><rect/><foreignObject><metadata/></foreignObject></svg>";
    let mut doc = parse(input).unwrap();
    assert_eq!(RemoveMetadata.run(&mut doc), PassResult::Changed);
    assert_eq!(RemoveMetadata.run(&mut doc), PassResult::Unchanged);
    let output = serialize(&doc);
    assert_eq!(output, "<svg xmlns=\"http://www.w3.org/2000/svg\"><rect/><foreignObject><metadata/></foreignObject></svg>");
}

#[test]
fn removes_empty_text_elements() {
    let input = "<svg xmlns=\"http://www.w3.org/2000/svg\"><text/><text x=\"1\">hi<tspan/></text></svg>";
    let mut doc = parse(input).unwrap();
    assert_eq!(RemoveEmptyText.run(&mut doc), PassResult::Changed);
    assert_eq!(RemoveEmptyText.run(&mut doc), PassResult::Unchanged);
    assert_eq!(serialize(&doc), "<svg xmlns=\"http://www.w3.org/2000/svg\"><text x=\"1\">hi</text></svg>");
}

#[test]
fn removes_empty_containers_but_keeps_referenced_ones() {
    let input = "<svg xmlns=\"http://www.w3.org/2000/svg\"><g/><defs/><defs id=\"d\"/><symbol id=\"s\"/><g filter=\"url(#f)\"/><pattern width=\"1\"/><g><rect/></g></svg>";
    let mut doc = parse(input).unwrap();
    assert_eq!(RemoveEmptyContainers.run(&mut doc), PassResult::Changed);
    assert_eq!(RemoveEmptyContainers.run(&mut doc), PassResult::Unchanged);
    assert_eq!(
        serialize(&doc),
        "<svg xmlns=\"http://www.w3.org/2000/svg\"><defs id=\"d\"/><symbol id=\"s\"/><g filter=\"url(#f)\"/><pattern width=\"1\"/><g><rect/></g></svg>"
    );
}

#[test]
fn nested_empty_groups_go_in_successive_runs() {
    let input = "<svg xmlns=\"http://www.w3.org/2000/svg\"><g><g/></g><rect/></svg>";
    let mut doc = parse(input).unwrap();
    assert_eq!(RemoveEmptyContainers.run(&mut doc), PassResult::Changed);
    assert_eq!(serialize(&doc), "<svg xmlns=\"http://www.w3.org/2000/svg\"><g/><rect/></svg>");
    assert_eq!(RemoveEmptyContainers.run(&mut doc), PassResult::Changed);
    assert_eq!(serialize(&doc), "<svg xmlns=\"http://www.w3.org/2000/svg\"><rect/></svg>");
}

#[test]
fn removes_empty_attributes_but_keeps_conditions() {
    let input = "<svg xmlns=\"http://www.w3.org/2000/svg\"><rect class=\"\" fill=\"red\" systemLanguage=\"\"/><foreignObject><p a=\"\"/></foreignObject></svg>";
    let mut doc = parse(input).unwrap();
    assert_eq!(RemoveEmptyAttrs.run(&mut doc), PassResult::Changed);
    assert_eq!(RemoveEmptyAttrs.run(&mut doc), PassResult::Unchanged);
    assert_eq!(
        serialize(&doc),
        "<svg xmlns=\"http://www.w3.org/2000/svg\"><rect fill=\"red\" systemLanguage=\"\"/><foreignObject><p a=\"\"/></foreignObject></svg>"
    );
}

#[test]
fn removes_unused_namespace_declarations() {
    let input = "<svg xmlns=\"http://www.w3.org/2000/svg\" xmlns:xlink=\"http://www.w3.org/1999/xlink\" xmlns:sketch=\"http://www.bohemiancoding.com/sketch/ns\" xmlns:a=\"urn:a\"><use xlink:href=\"#x\"/><a:thing/></svg>";
    let mut doc = parse(input).unwrap();
    assert_eq!(RemoveUnusedNamespaces.run(&mut doc), PassResult::Changed);
    assert_eq!(RemoveUnusedNamespaces.run(&mut doc), PassResult::Unchanged);
    assert_eq!(
        serialize(&doc),
        "<svg xmlns=\"http://www.w3.org/2000/svg\" xmlns:xlink=\"http://www.w3.org/1999/xlink\" xmlns:a=\"urn:a\"><use xlink:href=\"#x\"/><a:thing/></svg>"
    );
}

#[test]
fn rounds_numeric_values_and_drops_px() {
    let input = "<svg xmlns=\"http://www.w3.org/2000/svg\"><rect x=\"0.50000\" y=\"-0.1234567\" width=\"10px\" height=\"1e2\" rx=\"1 2\" id=\"1.50\" opacity=\"0.9999\"/></svg>";
    let mut doc = parse(input).unwrap();
    let pass = CleanupNumericValues { precision: 3 };
    assert_eq!(pass.run(&mut doc), PassResult::Changed);
    assert_eq!(pass.run(&mut doc), PassResult::Unchanged);
    assert_eq!(
        serialize(&doc),
        "<svg xmlns=\"http://www.w3.org/2000/svg\"><rect x=\".5\" y=\"-.123\" width=\"10\" height=\"100\" rx=\"1 2\" id=\"1.50\" opacity=\"1\"/></svg>"
    );
}

#[test]
fn numeric_values_keep_the_configured_precision() {
    let input = "<svg xmlns=\"http://www.w3.org/2000/svg\"><circle r=\"2.46\" cx=\"3\"/></svg>";
    let mut doc = parse(input).unwrap();
    let pass = CleanupNumericValues { precision: 1 };
    assert_eq!(pass.run(&mut doc), PassResult::Changed);
    assert_eq!(serialize(&doc), "<svg xmlns=\"http://www.w3.org/2000/svg\"><circle r=\"2.5\" cx=\"3\"/></svg>");
    assert_eq!(CleanupNumericValues::default().precision, 3);
}

#[test]
fn shortens_hex_colors_and_uses_shorter_names() {
    let input = "<svg xmlns=\"http://www.w3.org/2000/svg\"><rect fill=\"#AABBCC\" stroke=\"#FF0000\"/><circle fill=\"#808080\" stroke=\"#123456\" stop-color=\"#FFF\" class=\"#aabbcc\"/><foreignObject><p fill=\"#aabbcc\"/></foreignObject></svg>";
    let mut doc = parse(input).unwrap();
    assert_eq!(ConvertColors.run(&mut doc), PassResult::Changed);
    assert_eq!(ConvertColors.run(&mut doc), PassResult::Unchanged);
    assert_eq!(
        serialize(&doc),
        "<svg xmlns=\"http://www.w3.org/2000/svg\"><rect fill=\"#abc\" stroke=\"red\"/><circle fill=\"gray\" stroke=\"#123456\" stop-color=\"#fff\" class=\"#aabbcc\"/><foreignObject><p fill=\"#aabbcc\"/></foreignObject></svg>"
    );
}

#[test]
fn removes_editor_elements_and_attributes() {
    let input = "<svg xmlns=\"http://www.w3.org/2000/svg\" xmlns:inkscape=\"http://www.inkscape.org/namespaces/inkscape\" xmlns:sodipodi=\"http://sodipodi.sourceforge.net/DTD/sodipodi-0.dtd\" xmlns:a=\"urn:a\" inkscape:version=\"1.0\"><sodipodi:namedview id=\"v\"/><g inkscape:label=\"L\" a:x=\"1\"><rect/></g></svg>";
    let mut doc = parse(input).unwrap();
    assert_eq!(RemoveEditorData.run(&mut doc), PassResult::Changed);
    assert_eq!(RemoveEditorData.run(&mut doc), PassResult::Unchanged);
    assert_eq!(
        serialize(&doc),
        "<svg xmlns=\"http://www.w3.org/2000/svg\" xmlns:inkscape=\"http://www.inkscape.org/namespaces/inkscape\" xmlns:sodipodi=\"http://sodipodi.sourceforge.net/DTD/sodipodi-0.dtd\" xmlns:a=\"urn:a\"><g a:x=\"1\"><rect/></g></svg>"
    );
    assert_eq!(RemoveUnusedNamespaces.run(&mut doc), PassResult::Changed);
    assert_eq!(
        serialize(&doc),
        "<svg xmlns=\"http://www.w3.org/2000/svg\" xmlns:a=\"urn:a\"><g a:x=\"1\"><rect/></g></svg>"
    );
}

#[test]
fn converts_rect_and_line_to_paths() {
    let input = "<svg xmlns=\"http://www.w3.org/2000/svg\"><rect x=\"10\" y=\"20\" width=\"30\" height=\"40\" fill=\"red\"/><line x1=\"1\" y1=\"2\" x2=\"3.5\" y2=\"4\"/></svg>";
    let mut doc = parse(input).unwrap();
    let pass = ConvertShapeToPath::default();
    assert_eq!(pass.run(&mut doc), PassResult::Changed);
    assert_eq!(pass.run(&mut doc), PassResult::Unchanged);
    assert_eq!(
        serialize(&doc),
        "<svg xmlns=\"http://www.w3.org/2000/svg\"><path fill=\"red\" d=\"M10 20H40V60H10z\"/><path d=\"M1 2 3.5 4\"/></svg>"
    );
}

#[test]
fn keeps_rounded_or_incomplete_shapes() {
    let input = "<svg xmlns=\"http://www.w3.org/2000/svg\"><rect width=\"1\" height=\"1\" rx=\"1\"/><rect width=\"10%\" height=\"1\"/><rect height=\"1\"/><rect width=\"1\" height=\"1\"><title>t</title></rect><circle r=\"1\"/></svg>";
    let mut doc = parse(input).unwrap();
    assert_eq!(ConvertShapeToPath::default().run(&mut doc), PassResult::Unchanged);
}

#[test]
fn removes_unused_ids_and_shortens_referenced_ones() {
    let input = "<svg xmlns=\"http://www.w3.org/2000/svg\" xmlns:xlink=\"http://www.w3.org/1999/xlink\"><defs><linearGradient id=\"gradient-one\"/><path id=\"shape\" d=\"M0 0h1\"/></defs><rect id=\"unused\" fill=\"url(#gradient-one)\"/><use xlink:href=\"#shape\"/><rect fill=\"#fff\"/></svg>";
    let mut doc = parse(input).unwrap();
    assert_eq!(CleanupIds.run(&mut doc), PassResult::Changed);
    assert_eq!(
        serialize(&doc),
        "<svg xmlns=\"http://www.w3.org/2000/svg\" xmlns:xlink=\"http://www.w3.org/1999/xlink\"><defs><linearGradient id=\"a\"/><path id=\"b\" d=\"M0 0h1\"/></defs><rect fill=\"url(#a)\"/><use xlink:href=\"#b\"/><rect fill=\"#fff\"/></svg>"
    );
    assert_eq!(CleanupIds.run(&mut doc), PassResult::Unchanged);
}

#[test]
fn leaves_ids_alone_where_styles_or_scripts_may_use_them() {
    let input = "<svg xmlns=\"http://www.w3.org/2000/svg\"><style>#x{fill:red}</style><rect id=\"x\"/></svg>";
    let mut doc = parse(input).unwrap();
    assert_eq!(CleanupIds.run(&mut doc), PassResult::Unchanged);
}

#[test]
fn removes_white_space_between_elements_only() {
    let input = "<svg xmlns=\"http://www.w3.org/2000/svg\">\n  <g>\n    <rect/>\n  </g>\n  <text> a <tspan> </tspan></text>\n</svg>";
    let mut doc = parse(input).unwrap();
    assert_eq!(MinifyWhitespace.run(&mut doc), PassResult::Changed);
    assert_eq!(MinifyWhitespace.run(&mut doc), PassResult::Unchanged);
    assert_eq!(
        serialize(&doc),
        "<svg xmlns=\"http://www.w3.org/2000/svg\"><g><rect/></g><text> a <tspan> </tspan></text></svg>"
    );
}

#[test]
fn merges_paths_whose_boxes_overlap_but_shapes_do_not() {
    let input = "<svg xmlns=\"http://www.w3.org/2000/svg\"><path d=\"M0 0L10 0L0 10z\"/><path d=\"M10 10L10 2L2 10z\"/></svg>";
    let (result, output) = run_merge(input);
    assert_eq!(result, PassResult::Changed);
    assert_eq!(output, "<svg xmlns=\"http://www.w3.org/2000/svg\"><path d=\"M0 0L10 0L0 10zM10 10L10 2L2 10z\"/></svg>");
}

#[test]
fn keeps_crossing_shapes_apart() {
    let input = "<svg xmlns=\"http://www.w3.org/2000/svg\"><path d=\"M0 0L10 10\"/><path d=\"M0 10L10 0\"/></svg>";
    let (result, _) = run_merge(input);
    assert_eq!(result, PassResult::Unchanged);
}

#[test]
fn leaves_ids_alone_beside_a_symbol_with_an_id() {
    let input = "<svg xmlns=\"http://www.w3.org/2000/svg\"><symbol id=\"icon\"><rect/></symbol><rect id=\"unused\"/></svg>";
    let mut doc = parse(input).unwrap();
    assert_eq!(CleanupIds.run(&mut doc), PassResult::Unchanged);
}
