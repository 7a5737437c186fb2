use svgm::bindings::{optimize_with_options, options_config, OptimizeOptions};
use svgm::config::{Config, Preset};
use svgm::optimize_with_config;

fn opts(preset: Option<&str>, passes: Option<Vec<(&str, bool)>>) -> Option<OptimizeOptions> {
    Some(OptimizeOptions {
        preset: preset.map(|s| s.to_string()),
        precision: None,
        passes: passes.map(|v| v.into_iter().map(|(n, b)| (n.to_string(), b)).collect()),
    })
}

#[test]
fn optimize_default() {
    let svg = r#"<svg xmlns="http://www.w3.org/2000/svg"><g><rect width="10" height="10"/></g></svg>"#;
    let result = optimize_with_options(svg, None).unwrap();
    assert!(result.iterations >= 1);
    let direct = optimize_with_config(svg, &Config::default()).unwrap();
    assert_eq!(result.data, direct.data);
    assert_eq!(result.iterations as usize, direct.iterations);
}

#[test]
fn optimize_with_preset() {
    let svg = r#"<svg xmlns="http://www.w3.org/2000/svg"><rect width="10" height="10"/></svg>"#;
    let result = optimize_with_options(svg, opts(Some("safe"), None));
    assert!(result.is_ok());
}

#[test]
fn optimize_with_pass_override() {
    let svg = r#"<svg xmlns="http://www.w3.org/2000/svg"><desc>Created with Figma</desc><rect width="10" height="10"/></svg>"#;
    let result = optimize_with_options(svg, opts(None, Some(vec![("removeDesc", true)]))).unwrap();
    assert!(!result.data.contains("<desc>"));
}

#[test]
fn invalid_svg_throws() {
    let result = optimize_with_options("<not valid xml", None);
    assert_eq!(result.err().unwrap(), "malformed SVG markup");
}

#[test]
fn binding_presets_resolve() {
    assert_eq!(options_config(None).unwrap().preset, Preset::Default);
    assert_eq!(options_config(opts(Some("safe"), None)).unwrap().preset, Preset::Safe);
    for alias in ["default", "balanced", "aggressive"] {
        assert_eq!(options_config(opts(Some(alias), None)).unwrap().preset, Preset::Default);
    }
}

#[test]
fn binding_unknown_preset_is_refused() {
    let err = options_config(opts(Some("turbo"), None)).err().unwrap();
    assert_eq!(err, "unknown preset: turbo");
}

#[test]
fn binding_unknown_pass_is_refused() {
    let err = options_config(opts(None, Some(vec![("removeDesc", true), ("fooBar", false)]))).err().unwrap();
    assert_eq!(err, "unknown pass: fooBar");
}

#[test]
fn binding_preset_is_checked_before_passes() {
    let err = options_config(opts(Some("x"), Some(vec![("fooBar", true)]))).err().unwrap();
    assert_eq!(err, "unknown preset: x");
}

#[test]
fn binding_options_carry_over() {
    let o = Some(OptimizeOptions {
        preset: Some("safe".to_string()),
        precision: Some(2),
        passes: Some(vec![("mergePaths".to_string(), true)]),
    });
    let c = options_config(o).unwrap();
    assert_eq!(c.preset, Preset::Safe);
    assert_eq!(c.precision, Some(2));
    assert_eq!(c.pass_overrides, vec![("mergePaths".to_string(), true)]);
}

#[test]
fn binding_accepts_every_pass_name() {
    let c = options_config(opts(None, Some(vec![("removeComments", false), ("convertShapeToPath", true)])));
    assert!(c.is_ok());
}
