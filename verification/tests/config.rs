use svgm::config::{
    check_pass_names, config_candidates, find_config, passes_for_config, resolve_preset, Config, Preset,
};
use svgm::optimize_with_config;
use svgm::passes::Pass;

#[test]
fn find_config_explicit_path() {
    let p = "/tmp/custom.toml";
    assert_eq!(find_config(Some(p), "/somewhere", &vec![]), Some(p.to_string()));
}

#[test]
fn find_config_walks_up() {
    let found = find_config(None, "/base/a/b/c", &vec![false, false, false, true, false]);
    assert_eq!(found, Some("/base/svgm.config.toml".to_string()));
}

#[test]
fn find_config_returns_none_when_missing() {
    assert!(find_config(None, "/tmp/dir", &vec![false, false, false]).is_none());
}

#[test]
fn candidates_go_up_to_the_root() {
    assert_eq!(
        config_candidates("/a/b/"),
        vec![
            "/a/b/svgm.config.toml".to_string(),
            "/a/svgm.config.toml".to_string(),
            "/svgm.config.toml".to_string()
        ]
    );
    assert_eq!(
        config_candidates("rel/dir"),
        vec![
            "rel/dir/svgm.config.toml".to_string(),
            "rel/svgm.config.toml".to_string(),
            "svgm.config.toml".to_string()
        ]
    );
}

#[test]
fn presets_resolve() {
    assert_eq!(resolve_preset(None).ok(), Some(Preset::Default));
    assert_eq!(resolve_preset(Some("safe")).ok(), Some(Preset::Safe));
    assert_eq!(resolve_preset(Some("balanced")).ok(), Some(Preset::Default));
    assert_eq!(resolve_preset(Some("aggressive")).ok(), Some(Preset::Default));
    assert_eq!(resolve_preset(Some("default")).ok(), Some(Preset::Default));
}

#[test]
fn unknown_preset_errors() {
    let err = resolve_preset(Some("turbo")).err().unwrap();
    assert!(err.to_string().contains("unknown preset"));
    assert_eq!(err.to_string(), "unknown preset \"turbo\" — expected safe or default");
}

#[test]
fn pass_names_are_checked() {
    assert!(check_pass_names(&vec!["removeDesc".to_string(), "mergePaths".to_string()]).is_ok());
    let err = check_pass_names(&vec!["mergePaths".to_string(), "fakeName".to_string()]).err().unwrap();
    assert!(err.to_string().contains("unknown pass"));
    assert_eq!(err.to_string(), "unknown pass \"fakeName\"");
}

#[test]
fn presets_choose_passes() {
    let names = |c: &Config| passes_for_config(c).iter().map(|p| p.name()).collect::<Vec<_>>();
    let default = Config::default();
    assert_eq!(
        names(&default),
        vec![
            "removeDoctype",
            "removeProcInst",
            "removeComments",
            "removeMetadata",
            "removeEditorData",
            "removeEmptyAttrs",
            "removeEmptyText",
            "removeEmptyContainers",
            "removeUnusedNamespaces",
            "cleanupAttrs",
            "cleanupNumericValues",
            "convertColors",
            "removeUnknownsAndDefaults",
            "convertShapeToPath",
            "collapseGroups",
            "cleanupIds",
            "convertPathData",
            "mergePaths",
            "minifyWhitespace"
        ]
    );
    let safe = Config { preset: Preset::Safe, precision: None, pass_overrides: vec![] };
    assert_eq!(
        names(&safe),
        vec![
            "removeDoctype",
            "removeProcInst",
            "removeComments",
            "removeMetadata",
            "removeEditorData",
            "removeEmptyAttrs",
            "removeEmptyText",
            "removeEmptyContainers",
            "removeUnusedNamespaces",
            "cleanupAttrs",
            "cleanupNumericValues",
            "convertColors",
            "removeUnknownsAndDefaults",
            "minifyWhitespace"
        ]
    );
    let custom = Config {
        preset: Preset::Default,
        precision: Some(2),
        pass_overrides: vec![("removeDesc".to_string(), true), ("mergePaths".to_string(), false)],
    };
    assert_eq!(
        names(&custom),
        vec![
            "removeDoctype",
            "removeProcInst",
            "removeComments",
            "removeMetadata",
            "removeEditorData",
            "removeEmptyAttrs",
            "removeEmptyText",
            "removeEmptyContainers",
            "removeUnusedNamespaces",
            "removeDesc",
            "cleanupAttrs",
            "cleanupNumericValues",
            "convertColors",
            "removeUnknownsAndDefaults",
            "convertShapeToPath",
            "collapseGroups",
            "cleanupIds",
            "convertPathData",
            "minifyWhitespace"
        ]
    );
}

#[test]
fn optimize_with_config_uses_precision_and_passes() {
    let input = "<svg xmlns=\"http://www.w3.org/2000/svg\"><title>t</title><path d=\"M1.23456 0\"/></svg>";
    let config = Config {
        preset: Preset::Default,
        precision: Some(1),
        pass_overrides: vec![("removeDesc".to_string(), true)],
    };
    let out = optimize_with_config(input, &config).unwrap();
    assert_eq!(out.data, "<svg xmlns=\"http://www.w3.org/2000/svg\"><path d=\"M1.2 0\"/></svg>");
    let safe = Config { preset: Preset::Safe, precision: None, pass_overrides: vec![] };
    let out = optimize_with_config(input, &safe).unwrap();
    assert_eq!(out.data, input);
}

#[test]
fn command_line_flags_override_the_file() {
    let file = Config { preset: Preset::Safe, precision: Some(5), pass_overrides: vec![("removeDesc".to_string(), true)] };
    let c = svgm::config::apply_flags(file, Some(Preset::Default), None);
    assert_eq!(c.preset, Preset::Default);
    assert_eq!(c.precision, Some(5));
    assert_eq!(c.pass_overrides, vec![("removeDesc".to_string(), true)]);
    let file = Config { preset: Preset::Safe, precision: None, pass_overrides: vec![] };
    let c = svgm::config::apply_flags(file, None, Some(2));
    assert_eq!(c.preset, Preset::Safe);
    assert_eq!(c.precision, Some(2));
}

#[test]
fn unknown_pass_errors() {
    let err = check_pass_names(&vec!["fakeName".to_string()]).unwrap_err();
    assert!(err.to_string().contains("unknown pass"));
    assert_eq!(err.to_string(), "unknown pass \"fakeName\"");
}

#[test]
fn every_pass_name_may_be_switched() {
    let names: Vec<String> = ["removeComments", "convertShapeToPath", "minifyWhitespace", "removeDesc", "convertTransform"]
        .iter()
        .map(|s| s.to_string())
        .collect();
    assert!(check_pass_names(&names).is_ok());
    assert_eq!(svgm::config::all_pass_names().len(), 21);
}
