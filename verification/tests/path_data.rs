use svgm::parser::parse as parse_svg;
use svgm::passes::convert_path_data::ConvertPathData;
use svgm::passes::{Pass, PassResult};
use svgm::path::number::{format_num_exec, round_to_exec, SCALE};
use svgm::path::optimize_path;
use svgm::path::parse::parse_path;
use svgm::path::grammar::PathCmd;
use svgm::path::simplify::{remove_redundant_exec, simplify_curves_exec};
use svgm::path::write::serialize_path_exec;
use svgm::serializer::serialize;

fn text(v: Vec<char>) -> String {
    v.into_iter().collect()
}

#[test]
fn optimizes_simple_path() {
    let d = "M 100 200 L 300 400";
    let result = optimize_path(d, 3).unwrap();
    assert!(result.len() <= d.len(), "should be shorter: {result}");
}

#[test]
fn converts_l_to_h_v() {
    let d = "M0 0L100 0L100 200";
    let result = optimize_path(d, 3).unwrap();
    assert!(
        result.contains('h') || result.contains('H') || result.contains('v') || result.contains('V'),
        "should use H/V shortcuts: {result}"
    );
}

#[test]
fn handles_cubic_bezier() {
    let d = "M239.248 207.643C233.892 207.643 229.713 205.607 226.714 201.536";
    let result = optimize_path(d, 3).unwrap();
    assert!(
        result.len() <= d.len(),
        "should not grow: input={}, result={}",
        d.len(),
        result.len()
    );
}

#[test]
fn handles_close_path() {
    let d = "M0 0L10 0L10 10Z";
    let result = optimize_path(d, 3).unwrap();
    assert!(result.contains('z'), "should have close: {result}");
}

#[test]
fn strips_leading_zeros() {
    let d = "M0.5 0.5L0.75 0.25";
    let result = optimize_path(d, 3).unwrap();
    assert!(result.contains(".5"), "should strip leading zero: {result}");
    assert!(!result.contains("0.5") || result.len() < d.len());
}

#[test]
fn pass_optimizes_path_elements() {
    let input = r#"<svg xmlns="http://www.w3.org/2000/svg"><path d="M 100 200 L 300 200 L 300 400"/></svg>"#;
    let mut doc = parse_svg(input).unwrap();
    let pass = ConvertPathData::default();
    assert_eq!(pass.run(&mut doc), PassResult::Changed);
    let output = serialize(&doc);
    assert!(output.len() < input.len(), "should produce shorter output");
}

#[test]
fn preserves_arcs() {
    let d = "M10 80A25 25 0 0 1 50 80";
    let result = optimize_path(d, 3).unwrap();
    let reparsed = parse_path(&result);
    assert!(reparsed.is_some(), "optimized arc should be re-parseable: {result}");
}

#[test]
fn roundtrip_preserves_command_structure() {
    let paths = [
        "M10 80A25 25 0 0 1 50 80",
        "M0 0L10 0L10 10L0 10Z",
        "M0 0C10 10 20 20 30 30S50 50 60 60",
        "M0 0Q10 10 20 20T40 40",
        "M10 10l5 5L100 100l-3-3",
        "M150 0A150 150 0 1 0 150 300A150 150 0 1 0 150 0Z",
        "M12 2C6.48 2 2 6.48 2 12s4.48 10 10 10 10-4.48 10-10S17.52 2 12 2",
    ];
    for d in paths {
        let optimized = optimize_path(d, 3).unwrap();
        let reparsed = parse_path(&optimized);
        assert!(reparsed.is_some(), "failed to reparse optimized: {d} -> {optimized}");
    }
}

#[test]
fn optimize_twice_produces_same_output() {
    let paths = [
        "M 100 200 L 300 400",
        "M10 80A25 25 0 0 1 50 80",
        "M239.248 207.643C233.892 207.643 229.713 205.607 226.714 201.536",
        "M0.001 0.001L0.002 0.002",
        "M99999 99999L0 0",
        "M0 0L1 1L2 2L3 3L4 4L5 5",
        "M150 0A150 150 0 1 0 150 300A150 150 0 1 0 150 0Z",
        "M12 2C6.48 2 2 6.48 2 12s4.48 10 10 10 10-4.48 10-10S17.52 2 12 2",
    ];
    for d in paths {
        let first = optimize_path(d, 3).unwrap();
        let second = optimize_path(&first, 3).unwrap();
        assert_eq!(first, second, "not converged for: {d}\n  first:  {first}\n  second: {second}");
    }
}

#[test]
fn arc_flag_combinations_preserved() {
    for large_arc in [0, 1] {
        for sweep in [0, 1] {
            let d = format!("M10 80A25 25 0 {large_arc} {sweep} 50 80");
            let result = optimize_path(&d, 3).unwrap();
            let cmds = parse_path(&result).unwrap();
            let arc = cmds
                .iter()
                .find(|c| c.cmd == 'a' || c.cmd == 'A')
                .expect(&format!("no arc found in optimized: {d} -> {result}"));
            assert_eq!((arc.args[3] / SCALE) as i32, large_arc, "large-arc-flag mangled for {d} -> {result}");
            assert_eq!((arc.args[4] / SCALE) as i32, sweep, "sweep-flag mangled for {d} -> {result}");
        }
    }
}

#[test]
fn zero_radius_arc_survives() {
    let d = "M10 10A0 0 0 0 1 20 20";
    let result = optimize_path(d, 3).unwrap();
    let cmds = parse_path(&result).unwrap();
    assert!(!cmds.is_empty(), "zero-radius arc should not produce empty path");
}

#[test]
fn negative_zero_normalized() {
    assert_eq!(text(format_num_exec(0)), "0", "format_num(-0.0) should be '0'");
    assert_eq!(text(format_num_exec(round_to_exec(0, 3))), "0", "round_and_format(-0.0, 3) should be '0'");
    let tiny_negative = -SCALE / 10_000;
    assert_eq!(
        text(format_num_exec(round_to_exec(tiny_negative, 3))),
        "0",
        "near-negative-zero should round to '0'"
    );
}

#[test]
fn large_coordinates_roundtrip() {
    let d = "M99999 99999L0 0";
    let result = optimize_path(d, 3).unwrap();
    let cmds = parse_path(&result).unwrap();
    assert!(cmds.len() >= 2, "should have at least 2 commands: {result}");
}

#[test]
fn tiny_decimals_dont_corrupt() {
    let d = "M0.001 0.001L0.002 0.002";
    let result = optimize_path(d, 3).unwrap();
    let cmds = parse_path(&result).unwrap();
    assert!(cmds.len() >= 2, "should have at least 2 commands: {result}");
}

#[test]
fn implicit_lineto_after_moveto() {
    let d = "M0 0 10 10 20 20";
    let cmds = parse_path(d).unwrap();
    assert_eq!(cmds.len(), 3, "M with extra pairs should produce implicit L commands");
    assert_eq!(cmds[0].cmd, 'M');
    assert_eq!(cmds[1].cmd, 'L');
    assert_eq!(cmds[2].cmd, 'L');
}

#[test]
fn multiple_close_commands() {
    let d = "M0 0L10 10ZZ";
    let result = optimize_path(d, 3);
    assert!(result.is_some(), "double Z should not crash");
}

#[test]
fn full_circle_arc_preserved() {
    let d = "M150 0A150 150 0 1 0 150 300A150 150 0 1 0 150 0Z";
    let result = optimize_path(d, 3).unwrap();
    let cmds = parse_path(&result).unwrap();
    let arc_count = cmds.iter().filter(|c| c.cmd == 'a' || c.cmd == 'A').count();
    assert_eq!(arc_count, 2, "full circle must keep both arcs: {result}");
}

#[test]
fn accumulated_rounding_stays_accurate() {
    let d = "M0 0L0.4 0.4L0.8 0.8L1.2 1.2L1.6 1.6L2.0 2.0L2.4 2.4L2.8 2.8L3.2 3.2L3.6 3.6L4.0 4.0";
    let result = optimize_path(d, 3).unwrap();
    let cmds = parse_path(&result).unwrap();
    assert!(cmds.len() >= 11, "should preserve all line segments: {result}");
}

#[test]
fn compact_mixed_path_survives() {
    let d = "M12 2C6.48 2 2 6.48 2 12s4.48 10 10 10 10-4.48 10-10S17.52 2 12 2";
    let result = optimize_path(d, 3).unwrap();
    let cmds = parse_path(&result).unwrap();
    assert!(cmds.len() >= 4, "should preserve all commands: {result}");
    let second = optimize_path(&result, 3).unwrap();
    assert_eq!(result, second, "should converge: {result} vs {second}");
}

#[test]
fn cubic_to_shorthand_s() {
    let d = "M0 0C0 50 50 50 50 0C50-50 100-50 100 0";
    let result = optimize_path(d, 3).unwrap();
    let cmds = parse_path(&result).unwrap();
    let has_s = cmds.iter().any(|c| c.cmd == 's' || c.cmd == 'S');
    assert!(has_s, "should detect S shorthand: {result}");
}

#[test]
fn quadratic_to_shorthand_t() {
    let d = "M0 0Q10 20 30 40Q50 60 60 80";
    let result = optimize_path(d, 3).unwrap();
    let cmds = parse_path(&result).unwrap();
    let has_t = cmds.iter().any(|c| c.cmd == 't' || c.cmd == 'T');
    assert!(has_t, "should detect T shorthand: {result}");
}

#[test]
fn degenerate_cubic_becomes_line() {
    let d = "M0 0C10 10 20 20 30 30";
    let result = optimize_path(d, 3).unwrap();
    assert!(!result.contains('C') && !result.contains('c'), "degenerate cubic should become line: {result}");
}

#[test]
fn degenerate_quadratic_becomes_line() {
    let d = "M0 0Q15 15 30 30";
    let result = optimize_path(d, 3).unwrap();
    assert!(!result.contains('Q') && !result.contains('q'), "degenerate quadratic should become line: {result}");
}

#[test]
fn non_degenerate_cubic_preserved() {
    let d = "M0 0C0 50 50 50 50 0";
    let result = optimize_path(d, 3).unwrap();
    assert!(result.contains('c') || result.contains('C'), "non-degenerate cubic should stay as curve: {result}");
}

#[test]
fn remove_zero_length_line() {
    let d = "M10 10L10 10L20 20";
    let result = optimize_path(d, 3).unwrap();
    let cmds = parse_path(&result).unwrap();
    assert!(cmds.len() <= 2, "zero-length line should be removed: {result}");
}

#[test]
fn smooth_cubic_expansion_and_redetection() {
    let d = "M0 0C10 20 30 40 50 60S80 90 100 110";
    let result = optimize_path(d, 3).unwrap();
    let cmds = parse_path(&result).unwrap();
    assert!(cmds.len() >= 2, "should preserve commands: {result}");
    let second = optimize_path(&result, 3).unwrap();
    assert_eq!(result, second, "should converge: {result}");
}

// Exact outputs of the rewriting, one per rule.

#[test]
fn exact_simple_line_output() {
    assert_eq!(optimize_path("M 100 200 L 300 400", 3).unwrap(), "M100 200 300 400");
}

#[test]
fn exact_relative_and_axis_lines() {
    assert_eq!(optimize_path("M0 0L100 0L100 200", 3).unwrap(), "M0 0h100v200");
}

#[test]
fn exact_close_path_output() {
    assert_eq!(optimize_path("M0 0L10 0L10 10Z", 3).unwrap(), "M0 0h10v10z");
}

#[test]
fn exact_leading_zero_output() {
    assert_eq!(optimize_path("M0.5 0.5L0.75 0.25", 3).unwrap(), "M.5.5.75.25");
}

#[test]
fn exact_rounding_to_precision() {
    assert_eq!(optimize_path("M1.23456 0", 3).unwrap(), "M1.235 0");
    assert_eq!(optimize_path("M1.23456 0", 1).unwrap(), "M1.2 0");
}

#[test]
fn repeated_close_is_written_once() {
    assert_eq!(optimize_path("M0 0L10 10ZZ", 3).unwrap(), "M0 0 10 10z");
}

#[test]
fn malformed_paths_give_none() {
    assert!(optimize_path("", 3).is_none());
    assert!(optimize_path("10 10", 3).is_none());
    assert!(optimize_path("M0 0L10", 3).is_none());
    assert!(optimize_path("M0 0x", 3).is_none());
    assert!(optimize_path("M10 80A25 25 0 2 1 50 80", 3).is_none());
}

#[test]
fn out_of_range_coordinates_give_none() {
    assert!(optimize_path("M1e9 0", 3).is_none());
    assert!(parse_path("M1e9 0").is_none());
}

#[test]
fn number_forms_are_read() {
    let cmds = parse_path("M1e2-.5E1L+3.,4").unwrap();
    assert_eq!(cmds.len(), 2);
    assert_eq!(cmds[0].args, vec![100 * SCALE, -5 * SCALE]);
    assert_eq!(cmds[1].args, vec![3 * SCALE, 4 * SCALE]);
}

#[test]
fn exponent_without_digits_skips_the_number() {
    let cmds = parse_path("M1e 2 3").unwrap();
    assert_eq!(cmds.len(), 1);
    assert_eq!(cmds[0].args, vec![2 * SCALE, 3 * SCALE]);
}

#[test]
fn pass_keeps_longer_rewrites_out() {
    let input = r#"<svg xmlns="http://www.w3.org/2000/svg"><path d="M0 0"/></svg>"#;
    let mut doc = parse_svg(input).unwrap();
    assert_eq!(ConvertPathData::default().run(&mut doc), PassResult::Unchanged);
    assert_eq!(serialize(&doc), input);
}

#[test]
fn default_precision_is_three() {
    assert_eq!(ConvertPathData::default().precision, 3);
}

#[test]
fn written_commands_read_back() {
    let s = SCALE;
    let cmds = vec![
        PathCmd { cmd: 'M', args: vec![s, 2 * s] },
        PathCmd { cmd: 'M', args: vec![3 * s, -4 * s] },
        PathCmd { cmd: 'L', args: vec![-s / 2, s / 2] },
        PathCmd { cmd: 'l', args: vec![s / 4, -s / 4] },
        PathCmd { cmd: 'a', args: vec![5 * s, 5 * s, 0, s, 0, s / 10, -s / 10] },
        PathCmd { cmd: 'z', args: vec![] },
        PathCmd { cmd: 'z', args: vec![] },
        PathCmd { cmd: 'h', args: vec![7 * s] },
    ];
    let text: String = serialize_path_exec(&cmds, 3).into_iter().collect();
    assert_eq!(text, "M1 2M3-4-.5.5l.25-.25a5 5 0 1 0 .1-.1zh7");
    let back = parse_path(&text).expect("written path data should read back");
    assert_eq!(back.len(), 7);
    assert_eq!(back[1].cmd, 'M');
    assert_eq!(back[1].args, vec![3 * s, -4 * s]);
    assert_eq!(back[2].cmd, 'L');
    assert_eq!(back[4].args[3], s);
}

#[test]
fn optimized_path_reads_back_rounded() {
    let out = optimize_path("M10 20L30 40", 3).unwrap();
    let back = parse_path(&out).unwrap();
    assert_eq!(back.len(), 2);
    assert_eq!(back[0].cmd, 'M');
    assert_eq!(back[0].args, vec![10 * SCALE, 20 * SCALE]);
    assert_eq!(back[1].cmd, 'L');
    assert_eq!(back[1].args, vec![30 * SCALE, 40 * SCALE]);

    let out = optimize_path("M0.12345 5L1.98765 5", 2).unwrap();
    let back = parse_path(&out).unwrap();
    assert_eq!(back.len(), 2);
    assert_eq!(back[0].args, vec![SCALE / 100 * 12, 5 * SCALE]);
    assert_eq!(back[1].cmd, 'h');
    assert_eq!(back[1].args, vec![SCALE / 100 * 187]);
    assert_eq!(back[0].args[0] + back[1].args[0], SCALE / 100 * 199);
}

fn cmd(c: char, args: &[i128]) -> PathCmd {
    PathCmd { cmd: c, args: args.iter().map(|v| v * SCALE).collect() }
}

fn view(v: &[PathCmd]) -> Vec<(char, Vec<i128>)> {
    v.iter().map(|c| (c.cmd, c.args.clone())).collect()
}

#[test]
fn curve_after_close_is_measured_from_subpath_start() {
    let cmds = vec![cmd('M', &[0, 0]), cmd('L', &[10, 10]), cmd('Z', &[]), cmd('C', &[20, 10, 30, 10, 40, 10])];
    let out = simplify_curves_exec(&cmds, 3);
    assert_eq!(view(&out), view(&cmds));
}

#[test]
fn redundant_moves_and_lines_after_close() {
    let cmds = vec![
        cmd('M', &[5, 5]),
        cmd('M', &[0, 0]),
        cmd('L', &[10, 0]),
        cmd('L', &[10, 10]),
        cmd('Z', &[]),
        cmd('L', &[10, 10]),
    ];
    let out = remove_redundant_exec(&cmds, 3);
    assert_eq!(view(&out), view(&cmds[1..]));
}

#[test]
fn repeated_move_keeps_its_letter() {
    let out = optimize_path("M 0 0 L 5 5 M 10 10 L 20 20", 3).unwrap();
    let back = parse_path(&out).unwrap();
    let letters: Vec<char> = back.iter().map(|c| c.cmd.to_ascii_uppercase()).collect();
    assert_eq!(letters, vec!['M', 'L', 'M', 'L'], "{out}");
    let cmds = vec![cmd('M', &[0, 0]), cmd('M', &[10, 10]), cmd('L', &[20, 20])];
    let text: String = serialize_path_exec(&cmds, 3).into_iter().collect();
    assert_eq!(text, "M0 0M10 10 20 20");
    let back = parse_path(&text).unwrap();
    assert_eq!(view(&back), view(&cmds));
}

#[test]
fn empty_subpath_before_a_move_is_dropped() {
    let out = optimize_path("M 0 0 M 10 10 L 20 20", 3).unwrap();
    assert_eq!(out, "M10 10 20 20");
}

#[test]
fn relative_chain_reads_back_without_drift() {
    let d = "M0.0004 0L0.0008 0.0004L0.0012 0.0008L0.0016 0.0012L0.002 0.0016";
    let out = optimize_path(d, 3).unwrap();
    let back = parse_path(&out).unwrap();
    let mut x: i128 = 0;
    let mut y: i128 = 0;
    for c in &back {
        match c.cmd {
            'h' => x += c.args[0],
            'v' => y += c.args[0],
            'H' => x = c.args[0],
            'V' => y = c.args[0],
            'm' | 'l' => {
                x += c.args[0];
                y += c.args[1];
            }
            _ => {
                x = c.args[0];
                y = c.args[1];
            }
        }
    }
    assert_eq!((x, y), (SCALE / 500, SCALE / 500), "{out}");
}
