use svgm::cli::{check_files, check_recursive, dirs_overlap, is_under, output_target, is_svg_file_name, writes_to_stdout, CliError};

#[test]
fn recursive_mode_rules() {
    assert_eq!(check_recursive(1, true, false), Ok(()));
    assert_eq!(check_recursive(2, true, false), Err(CliError::RecursiveNeedsOneInput));
    assert_eq!(check_recursive(1, false, false), Err(CliError::NotADirectory));
    assert_eq!(check_recursive(1, true, true), Err(CliError::StdoutWithRecursive));
}

#[test]
fn file_mode_rules() {
    assert_eq!(check_files(&vec![false], true, false), Ok(()));
    assert_eq!(check_files(&vec![false, true], false, false), Err(CliError::IsDirectory(1)));
    assert_eq!(check_files(&vec![false, false], true, false), Err(CliError::OutputWithMultiple));
    assert_eq!(check_files(&vec![false, false], false, true), Err(CliError::StdoutWithMultiple));
}

#[test]
fn output_destination() {
    assert!(writes_to_stdout(true, true, true, true));
    assert!(writes_to_stdout(false, false, false, false));
    assert!(!writes_to_stdout(false, false, false, true));
    assert!(!writes_to_stdout(false, true, false, false));
    assert!(!writes_to_stdout(false, false, true, false));
}

#[test]
fn svg_file_names() {
    assert!(is_svg_file_name("icon.svg"));
    assert!(is_svg_file_name("ICON.SvG"));
    assert!(is_svg_file_name("a.b.svg"));
    assert!(!is_svg_file_name(".svg"));
    assert!(!is_svg_file_name("icon.svgz"));
    assert!(!is_svg_file_name("icon.png"));
    assert!(!is_svg_file_name("svg"));
}

#[test]
fn recursive_output_inside_source_errors() {
    let src = "/tmp/svgm-test/src";
    let out = "/tmp/svgm-test/src/sub";
    assert!(dirs_overlap(out, src));
}

#[test]
fn output_and_source_overlap_by_whole_components() {
    assert!(dirs_overlap("/tmp/icons", "/tmp/icons/out"));
    assert!(dirs_overlap("/tmp/icons/", "/tmp/icons"));
    assert!(dirs_overlap("/tmp//icons", "/tmp/icons"));
    assert!(dirs_overlap("/tmp/icons", "/tmp/icons"));
    assert!(!dirs_overlap("/tmp/icons-min", "/tmp/icons"));
    assert!(!dirs_overlap("/tmp/a", "/tmp/b"));
    assert!(!dirs_overlap("out", "/tmp"));
    assert!(dirs_overlap("/", "/tmp"));
}

fn shown(names: &[&str]) -> Vec<String> {
    names.iter().map(|s| s.to_string()).collect()
}

#[test]
fn stdout_flag_single_file() {
    assert_eq!(check_files(&vec![false], false, true), Ok(()));
    assert!(writes_to_stdout(true, false, false, true));
}

#[test]
fn stdout_with_multiple_files_errors() {
    let e = check_files(&vec![false, false], false, true).unwrap_err();
    assert!(e.message(&shown(&["a.svg", "b.svg"])).contains("cannot use --stdout with multiple"));
}

#[test]
fn recursive_multiple_inputs_errors() {
    let e = check_recursive(2, true, false).unwrap_err();
    assert!(e.message(&shown(&["sub", "a.svg"])).contains("exactly one directory"));
}

#[test]
fn recursive_on_file_errors() {
    let e = check_recursive(1, false, false).unwrap_err();
    assert_eq!(e.message(&shown(&["/tmp/a.svg"])), "/tmp/a.svg is not a directory");
    assert!(e.message(&shown(&["/tmp/a.svg"])).contains("is not a directory"));
}

#[test]
fn recursive_with_stdout_errors() {
    let e = check_recursive(1, true, true).unwrap_err();
    assert!(e.message(&shown(&["sub"])).contains("cannot use --stdout with -r"));
}

#[test]
fn directory_without_recursive_errors() {
    let e = check_files(&vec![true], false, false).unwrap_err();
    assert_eq!(e, CliError::IsDirectory(0));
    assert!(e.message(&shown(&["/tmp/dir"])).contains("use -r to process recursively"));
    let e = check_files(&vec![false, true], false, false).unwrap_err();
    assert_eq!(e.message(&shown(&["a.svg", "icons"])), "icons is a directory, use -r to process recursively");
}

#[test]
fn multiple_files_with_output_errors() {
    let e = check_files(&vec![false, false], true, false).unwrap_err();
    assert!(e.message(&shown(&["a.svg", "b.svg"])).contains("cannot use -o with multiple"));
}

#[test]
fn recursive_skips_non_svg() {
    assert!(is_svg_file_name("a.svg"));
    assert!(!is_svg_file_name("b.txt"));
}

#[test]
fn output_target_keeps_the_path_below_the_source() {
    assert!(is_under("icons/a/b.svg", "icons"));
    assert!(!is_under("other/b.svg", "icons"));
    assert_eq!(output_target("icons/a/b.svg", "icons", "out"), "out/a/b.svg");
    assert_eq!(output_target("/src/icons/x.svg", "/src/icons/", "/tmp/out/"), "/tmp/out/x.svg");
}
