//! What the JavaScript bindings (Node and browser) do with the options they are handed:
//! resolve the preset, check the pass names, optimize.
use vstd::prelude::*;

use crate::config::{is_known_pass, is_known_pass_exec, Config, ConfigV, Preset};
use crate::optimizer::lemma_rounds_bounded;
use crate::text::{chars_of, extend_str, str_eq, string_from_chars};
use crate::{optimize_with_config, sp_optimize_with_config};

verus! {

/// Options that a binding hands over: a preset name, the decimal places kept in numbers,
/// and passes switched on or off by name.
pub struct OptimizeOptions {
    pub preset: Option<String>,
    pub precision: Option<u32>,
    pub passes: Option<Vec<(String, bool)>>,
}

/// What a binding hands back: the optimized text and the number of rounds run.
pub struct OptimizeResult {
    pub data: String,
    pub iterations: u32,
}

/// The message for an unknown preset name handed to a binding.
pub open spec fn binding_preset_message(name: Seq<char>) -> Seq<char> {
    "unknown preset: "@ + name
}

/// The message for an unknown pass name handed to a binding.
pub open spec fn binding_pass_message(name: Seq<char>) -> Seq<char> {
    "unknown pass: "@ + name
}

/// The message of a text that does not parse as SVG markup.
pub open spec fn malformed_message() -> Seq<char> {
    "malformed SVG markup"@
}

/// What a preset name handed to a binding means: `safe`; `default`, `balanced`,
/// `aggressive` or no name for the default preset; anything else is an error.
pub open spec fn sp_binding_preset(name: Option<Seq<char>>) -> Result<Preset, Seq<char>> {
    match name {
        None => Ok(Preset::Default),
        Some(n) => if n == "safe"@ {
            Ok(Preset::Safe)
        } else if n == "default"@ || n == "balanced"@ || n == "aggressive"@ {
            Ok(Preset::Default)
        } else {
            Err(binding_preset_message(n))
        },
    }
}

pub open spec fn overrides_view(v: Seq<(String, bool)>) -> Seq<(Seq<char>, bool)> {
    v.map_values(|o: (String, bool)| (o.0@, o.1))
}

/// The first name from place `k` on among the switched passes that names no pass.
pub open spec fn first_unknown_override(o: Seq<(Seq<char>, bool)>, k: int) -> Option<Seq<char>>
    decreases o.len() - k,
{
    if k < 0 || k >= o.len() {
        None
    } else if !is_known_pass(o[k].0) {
        Some(o[k].0)
    } else {
        first_unknown_override(o, k + 1)
    }
}

/// The configuration that binding options describe, or the message of the first error:
/// the preset is checked first, then the pass names in the order given.
pub open spec fn sp_options_config(
    preset: Option<Seq<char>>,
    precision: Option<u32>,
    passes: Seq<(Seq<char>, bool)>,
) -> Result<ConfigV, Seq<char>> {
    match sp_binding_preset(preset) {
        Err(m) => Err(m),
        Ok(p) => match first_unknown_override(passes, 0) {
            Some(n) => Err(binding_pass_message(n)),
            None => Ok(ConfigV { preset: p, precision, overrides: passes }),
        },
    }
}

pub open spec fn opt_string(o: Option<String>) -> Option<Seq<char>> {
    match o {
        Some(s) => Some(s@),
        None => None,
    }
}

pub open spec fn passes_view(o: Option<Vec<(String, bool)>>) -> Seq<(Seq<char>, bool)> {
    match o {
        Some(v) => overrides_view(v@),
        None => seq![],
    }
}

/// The configuration that options describe, as `sp_options_config`, unset options
/// standing for none.
pub open spec fn sp_config_of(options: Option<OptimizeOptions>) -> Result<ConfigV, Seq<char>> {
    match options {
        None => sp_options_config(None, None, seq![]),
        Some(o) => sp_options_config(opt_string(o.preset), o.precision, passes_view(o.passes)),
    }
}

/// What optimizing through a binding gives: the message of an options error, or of a text
/// that does not parse; else the optimized text and the number of rounds.
pub open spec fn sp_optimize_with_options(svg: Seq<char>, options: Option<OptimizeOptions>) -> Result<
    (Seq<char>, nat),
    Seq<char>,
> {
    match sp_config_of(options) {
        Err(m) => Err(m),
        Ok(c) => match sp_optimize_with_config(svg, c) {
            None => Err(malformed_message()),
            Some(r) => Ok(r),
        },
    }
}

fn binding_preset(name: &Option<String>) -> (r: Result<Preset, String>)
    ensures
        match sp_binding_preset(opt_string(*name)) {
            Ok(p) => r == Ok::<Preset, String>(p),
            Err(m) => r matches Err(s) && s@ == m,
        },
{
    match name {
        None => Ok(Preset::Default),
        Some(n) => {
            let n = n.as_str();
            if str_eq(n, "safe") {
                Ok(Preset::Safe)
            } else if str_eq(n, "default") || str_eq(n, "balanced") || str_eq(n, "aggressive") {
                Ok(Preset::Default)
            } else {
                let mut v = chars_of("unknown preset: ");
                extend_str(&mut v, n);
                Err(string_from_chars(&v))
            }
        },
    }
}

fn check_overrides(passes: &Vec<(String, bool)>) -> (r: Result<(), String>)
    ensures
        match first_unknown_override(overrides_view(passes@), 0) {
            None => r is Ok,
            Some(n) => r matches Err(s) && s@ == binding_pass_message(n),
        },
{
    let ghost ov = overrides_view(passes@);
    let mut k: usize = 0;
    while k < passes.len()
        invariant
            0 <= k <= passes@.len(),
            ov == overrides_view(passes@),
            first_unknown_override(ov, 0) == first_unknown_override(ov, k as int),
        decreases passes@.len() - k,
    {
        assert(ov[k as int] == (passes@[k as int].0@, passes@[k as int].1));
        let name = passes[k].0.as_str();
        if !is_known_pass_exec(name) {
            let mut v = chars_of("unknown pass: ");
            extend_str(&mut v, name);
            return Err(string_from_chars(&v));
        }
        k = k + 1;
    }
    Ok(())
}

/// The configuration that binding options describe; the error is the message of the first
/// problem found (an unknown preset, then an unknown pass name).
pub fn options_config(options: Option<OptimizeOptions>) -> (r: Result<Config, String>)
    ensures
        match sp_config_of(options) {
            Ok(c) => r matches Ok(cfg) && cfg@ == c,
            Err(m) => r matches Err(s) && s@ == m,
        },
{
    let opts = match options {
        Some(o) => o,
        None => OptimizeOptions { preset: None, precision: None, passes: None },
    };
    proof {
        assert(passes_view(None::<Vec<(String, bool)>>) =~= Seq::<(Seq<char>, bool)>::empty());
    }
    let preset = match binding_preset(&opts.preset) {
        Ok(p) => p,
        Err(m) => {
            return Err(m);
        },
    };
    let passes = match opts.passes {
        Some(v) => v,
        None => Vec::new(),
    };
    proof {
        assert(overrides_view(passes@) =~= passes_view(opts.passes));
    }
    match check_overrides(&passes) {
        Ok(()) => {},
        Err(m) => {
            return Err(m);
        },
    }
    let cfg = Config { preset, precision: opts.precision, pass_overrides: passes };
    proof {
        assert(cfg@.overrides =~= overrides_view(passes@));
    }
    Ok(cfg)
}

/// Optimizes an SVG text with the options a binding hands over.
pub fn optimize_with_options(svg: &str, options: Option<OptimizeOptions>) -> (r: Result<
    OptimizeResult,
    String,
>)
    ensures
        match sp_optimize_with_options(svg@, options) {
            Ok((out, n)) => r matches Ok(res) && res.data@ == out && res.iterations as nat == n,
            Err(m) => r matches Err(s) && s@ == m,
        },
{
    let config = match options_config(options) {
        Ok(c) => c,
        Err(m) => {
            return Err(m);
        },
    };
    match optimize_with_config(svg, &config) {
        Ok(o) => {
            proof {
                let d = crate::parser::sp_parse(svg@).unwrap();
                lemma_rounds_bounded(crate::config::passes_for(config@), d);
            }
            let iterations = o.iterations as u32;
            Ok(OptimizeResult { data: o.data, iterations })
        },
        Err(e) => Err(e.message()),
    }
}

} // verus!
