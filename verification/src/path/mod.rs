//! Path data (`d` attribute) reading, simplification and writing.
//!
//! Coordinates are held exactly as integers counting units of 10^-10 (the finest step
//! that path data is written with), so every coordinate is a decimal fraction with at
//! most ten digits after the point.

pub mod number;
pub mod grammar;
pub mod parse;
pub mod cmds;
pub mod normalize;
pub mod simplify;
pub mod relative;
pub mod write;
pub mod reread;
pub mod output;
pub mod ahead;

use vstd::prelude::*;

use crate::text::{chars_of, string_from_chars};
use grammar::PCmd;
use normalize::{normalize, normalize_to_absolute};
use parse::{parse_path_chars, sp_parse_path};
use relative::{abs_to_rel, abs_to_rel_exec};
use simplify::{detect_shorthands, detect_shorthands_exec, remove_redundant, remove_redundant_exec, round_cmds, round_cmds_exec, simplify_curves, simplify_curves_exec};
use write::{serialize_path, serialize_path_exec};

verus! {

/// Absolute commands rounded to `p` places, simplified, each then in its shorter form
/// (relative numbers being differences of rounded ones, a path reads back without
/// rounding errors adding up).
pub open spec fn optimized_cmds(n: Seq<PCmd>, p: nat) -> Seq<PCmd> {
    abs_to_rel(remove_redundant(detect_shorthands(simplify_curves(round_cmds(n, p), p), p), p))
}

/// The simplified text of absolute commands, numbers rounded to `p` places.
pub open spec fn rewrite_path(n: Seq<PCmd>, p: nat) -> Seq<char> {
    serialize_path(optimized_cmds(n, p), p)
}

/// The optimized text of a path's `d` value at precision `p`: read, made absolute,
/// simplified, each command in its shorter form, written compactly. `None` where the text
/// does not read as path data, holds no command, or holds a coordinate out of the range
/// that is held.
pub open spec fn sp_optimize_path(d: Seq<char>, p: nat) -> Option<Seq<char>> {
    match sp_parse_path(d) {
        None => None,
        Some(cmds) => if cmds.len() == 0 {
            None
        } else {
            match normalize(cmds) {
                None => None,
                Some(n) => Some(rewrite_path(n, p)),
            }
        },
    }
}

/// Optimizes a path `d` attribute string.
pub fn optimize_path(d: &str, precision: u32) -> (r: Option<String>)
    ensures
        r matches Some(s) ==> sp_optimize_path(d@, precision as nat) == Some(s@),
        r is None ==> sp_optimize_path(d@, precision as nat) is None,
{
    let s = chars_of(d);
    let cmds = match parse_path_chars(&s) {
        Some(c) => c,
        None => {
            return None;
        },
    };
    if cmds.len() == 0 {
        return None;
    }
    let n = match normalize_to_absolute(&cmds) {
        Some(n) => n,
        None => {
            return None;
        },
    };
    let c0 = round_cmds_exec(&n, precision);
    let c1 = simplify_curves_exec(&c0, precision);
    let c2 = detect_shorthands_exec(&c1, precision);
    let c3 = remove_redundant_exec(&c2, precision);
    let c4 = abs_to_rel_exec(&c3);
    let out = serialize_path_exec(&c4, precision);
    Some(string_from_chars(&out))
}

} // verus!
