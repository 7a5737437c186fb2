//! Configuration: where a config file is looked for, and what its preset name means.
//!
//! Paths are handled as text with `/` as separator: a path's parent drops its last
//! component (trailing separators ignored), `/` and the empty path have none, and a file
//! name is joined with one separator unless the directory is empty or already ends with one.
use vstd::prelude::*;

use crate::optimizer::DefaultPass;
use crate::passes::cleanup_attrs::CleanupAttrs;
use crate::passes::cleanup_ids::CleanupIds;
use crate::passes::cleanup_numeric_values::CleanupNumericValues;
use crate::passes::collapse_groups::CollapseGroups;
use crate::passes::convert_colors::ConvertColors;
use crate::passes::convert_path_data::ConvertPathData;
use crate::passes::convert_shape_to_path::ConvertShapeToPath;
use crate::passes::merge_paths::MergePaths;
use crate::passes::minify_whitespace::MinifyWhitespace;
use crate::passes::remove_desc::RemoveDesc;
use crate::passes::remove_editor_data::RemoveEditorData;
use crate::passes::remove_empty_attrs::RemoveEmptyAttrs;
use crate::passes::remove_nodes::{
    RemoveComments, RemoveDoctype, RemoveEmptyContainers, RemoveEmptyText, RemoveMetadata,
    RemoveProcInst,
};
use crate::passes::remove_unknowns_and_defaults::RemoveUnknownsAndDefaults;
use crate::passes::remove_unused_namespaces::RemoveUnusedNamespaces;
use crate::text::{str_eq, string_from_chars, string_of};

verus! {

broadcast use vstd::std_specs::vec::group_vec_axioms;

/// The name of the config file looked for.
pub open spec fn config_filename() -> Seq<char> {
    "svgm.config.toml"@
}

/// An error in a configuration, with its message.
pub struct ConfigError {
    pub message: String,
}

impl ConfigError {
    /// The error's message.
    pub fn to_string(&self) -> (r: String)
        ensures
            r@ == self.message@,
    {
        self.message.clone()
    }
}

/// A preset: which passes run.
#[derive(Debug, Clone, Copy, PartialEq, Eq, Structural)]
pub enum Preset {
    Safe,
    Default,
}

impl Default for Preset {
    fn default() -> (r: Self)
        ensures
            r == Preset::Default,
    {
        Preset::Default
    }
}

/// The message for an unknown preset name.
pub open spec fn unknown_preset_message(name: Seq<char>) -> Seq<char> {
    "unknown preset \""@ + name + "\" — expected safe or default"@
}

/// What a preset name in a config file means: `safe`, or `default` (also accepted as
/// `balanced` and `aggressive`); no name means the default preset.
pub open spec fn sp_resolve_preset(name: Option<Seq<char>>) -> Result<Preset, Seq<char>> {
    match name {
        None => Ok(Preset::Default),
        Some(n) => if n == "safe"@ {
            Ok(Preset::Safe)
        } else if n == "default"@ || n == "balanced"@ || n == "aggressive"@ {
            Ok(Preset::Default)
        } else {
            Err(unknown_preset_message(n))
        },
    }
}

/// The preset a config file names.
pub fn resolve_preset(name: Option<&str>) -> (r: Result<Preset, ConfigError>)
    ensures
        match name {
            None => r == Ok::<Preset, ConfigError>(Preset::Default),
            Some(n) => match sp_resolve_preset(Some(n@)) {
                Ok(p) => r matches Ok(q) && q == p,
                Err(m) => r matches Err(e) && e.message@ == m,
            },
        },
{
    match name {
        None => Ok(Preset::Default),
        Some(n) => {
            if crate::text::str_eq(n, "safe") {
                Ok(Preset::Safe)
            } else if crate::text::str_eq(n, "default") || crate::text::str_eq(n, "balanced")
                || crate::text::str_eq(n, "aggressive") {
                Ok(Preset::Default)
            } else {
                let mut v = crate::text::chars_of("unknown preset \"");
                crate::text::extend_str(&mut v, n);
                crate::text::extend_str(&mut v, "\" — expected safe or default");
                Err(ConfigError { message: string_from_chars(&v) })
            }
        },
    }
}

/// `s` without its trailing separators.
pub open spec fn trim_slashes(s: Seq<char>) -> Seq<char>
    decreases s.len(),
{
    if s.len() > 0 && s.last() == '/' {
        trim_slashes(s.drop_last())
    } else {
        s
    }
}

/// The place of the last separator in `s`, if any.
pub open spec fn last_slash(s: Seq<char>) -> Option<int>
    decreases s.len(),
{
    if s.len() == 0 {
        None
    } else if s.last() == '/' {
        Some(s.len() - 1)
    } else {
        last_slash(s.drop_last())
    }
}

/// The directory above `d`, if it has one.
pub open spec fn parent(d: Seq<char>) -> Option<Seq<char>> {
    let t = trim_slashes(d);
    if t.len() == 0 {
        None
    } else {
        match last_slash(t) {
            None => Some(seq![]),
            Some(k) => {
                let head = trim_slashes(t.take(k));
                if head.len() == 0 {
                    Some(seq!['/'])
                } else {
                    Some(head)
                }
            },
        }
    }
}

/// The path of file `name` in directory `d`.
pub open spec fn join(d: Seq<char>, name: Seq<char>) -> Seq<char> {
    if d.len() == 0 {
        name
    } else if d.last() == '/' {
        d + name
    } else {
        d.push('/') + name
    }
}

proof fn lemma_trim_len(s: Seq<char>)
    ensures
        trim_slashes(s).len() <= s.len(),
        trim_slashes(s) == s.take(trim_slashes(s).len() as int),
        trim_slashes(s).len() == 0 || trim_slashes(s).last() != '/',
    decreases s.len(),
{
    if s.len() > 0 && s.last() == '/' {
        lemma_trim_len(s.drop_last());
        assert(s.drop_last().take(trim_slashes(s).len() as int) =~= s.take(
            trim_slashes(s).len() as int,
        ));
    } else {
        assert(s.take(s.len() as int) =~= s);
    }
}

proof fn lemma_last_slash(s: Seq<char>)
    ensures
        last_slash(s) matches Some(k) ==> 0 <= k < s.len() && s[k] == '/',
    decreases s.len(),
{
    if s.len() > 0 && s.last() != '/' {
        lemma_last_slash(s.drop_last());
    }
}

pub proof fn lemma_parent_shorter(d: Seq<char>)
    ensures
        parent(d) matches Some(p) ==> p.len() < d.len(),
{
    lemma_trim_len(d);
    let t = trim_slashes(d);
    if t.len() > 0 {
        lemma_last_slash(t);
        match last_slash(t) {
            None => {},
            Some(k) => {
                lemma_trim_len(t.take(k));
            },
        }
    }
}

/// The places a config file is looked for, nearest first: the config file name in `d`
/// and in each directory above it.
pub open spec fn candidates(d: Seq<char>) -> Seq<Seq<char>>
    decreases d.len(),
{
    match parent(d) {
        None => seq![join(d, config_filename())],
        Some(p) => {
            proof {
                lemma_parent_shorter(d);
            }
            seq![join(d, config_filename())] + candidates(p)
        },
    }
}

/// The first of `c` from place `k` on that `is_file` marks as a file.
pub open spec fn first_file(c: Seq<Seq<char>>, is_file: Seq<bool>, k: int) -> Option<Seq<char>>
    decreases c.len() - k,
{
    if k < 0 || k >= c.len() {
        None
    } else if k < is_file.len() && is_file[k] {
        Some(c[k])
    } else {
        first_file(c, is_file, k + 1)
    }
}

/// The config file to use: `explicit` if given, else the nearest of the places it is
/// looked for from `start_dir` up that is a file (`is_file[k]` says whether the `k`-th
/// place is one).
pub open spec fn sp_find_config(
    explicit: Option<Seq<char>>,
    start_dir: Seq<char>,
    is_file: Seq<bool>,
) -> Option<Seq<char>> {
    match explicit {
        Some(p) => Some(p),
        None => first_file(candidates(start_dir), is_file, 0),
    }
}

pub open spec fn opt_str(o: Option<&str>) -> Option<Seq<char>> {
    match o {
        Some(p) => Some(p@),
        None => None,
    }
}

pub open spec fn strings_view(v: Seq<String>) -> Seq<Seq<char>> {
    v.map_values(|s: String| s@)
}

fn trim_slashes_exec(v: &mut Vec<char>)
    ensures
        final(v)@ == trim_slashes(old(v)@),
{
    while v.len() > 0 && v[v.len() - 1] == '/'
        invariant
            trim_slashes(v@) == trim_slashes(old(v)@),
        decreases v@.len(),
    {
        let ghost before = v@;
        v.pop();
        assert(v@ =~= before.drop_last());
    }
}

fn last_slash_exec(v: &Vec<char>) -> (r: Option<usize>)
    ensures
        r matches Some(k) ==> last_slash(v@) == Some(k as int),
        r is None ==> last_slash(v@) is None,
{
    let mut i = v.len();
    assert(v@.take(i as int) =~= v@);
    while i > 0
        invariant
            0 <= i <= v@.len(),
            last_slash(v@) == last_slash(v@.take(i as int)),
        decreases i,
    {
        if v[i - 1] == '/' {
            return Some(i - 1);
        }
        assert(v@.take(i as int).drop_last() =~= v@.take(i - 1));
        i = i - 1;
    }
    None
}

fn parent_exec(d: &Vec<char>) -> (r: Option<Vec<char>>)
    ensures
        r matches Some(p) ==> parent(d@) == Some(p@),
        r is None ==> parent(d@) is None,
{
    let mut t = d.clone();
    assert(t@ == d@);
    trim_slashes_exec(&mut t);
    if t.len() == 0 {
        return None;
    }
    match last_slash_exec(&t) {
        None => Some(Vec::new()),
        Some(k) => {
            proof {
                lemma_last_slash(t@);
            }
            let mut head: Vec<char> = Vec::new();
            let mut i: usize = 0;
            while i < k
                invariant
                    0 <= i <= k < t@.len(),
                    head@ == t@.take(i as int),
                decreases k - i,
            {
                head.push(t[i]);
                i = i + 1;
                assert(head@ =~= t@.take(i as int));
            }
            trim_slashes_exec(&mut head);
            if head.len() == 0 {
                let mut root: Vec<char> = Vec::new();
                root.push('/');
                assert(root@ =~= seq!['/']);
                Some(root)
            } else {
                Some(head)
            }
        },
    }
}

fn join_exec(d: &Vec<char>, name: &str) -> (r: Vec<char>)
    ensures
        r@ == join(d@, name@),
{
    let mut out = d.clone();
    assert(out@ == d@);
    if out.len() == 0 {
        crate::text::extend_str(&mut out, name);
        assert(out@ =~= name@);
    } else if out[out.len() - 1] == '/' {
        crate::text::extend_str(&mut out, name);
    } else {
        out.push('/');
        crate::text::extend_str(&mut out, name);
    }
    out
}

/// The places a config file is looked for from `start_dir` up, nearest first.
pub fn config_candidates(start_dir: &str) -> (r: Vec<String>)
    ensures
        strings_view(r@) == candidates(start_dir@),
{
    let mut out: Vec<String> = Vec::new();
    let mut d = crate::text::chars_of(start_dir);
    let ghost d0 = d@;
    proof {
        assert(strings_view(out@) =~= Seq::<Seq<char>>::empty());
        assert(Seq::<Seq<char>>::empty() + candidates(d0) =~= candidates(d0));
    }
    loop
        invariant
            d0 == start_dir@,
            candidates(d0) == strings_view(out@) + candidates(d@),
        decreases d@.len(),
    {
        let c = join_exec(&d, "svgm.config.toml");
        let cs = string_from_chars(&c);
        let ghost before = strings_view(out@);
        proof {
            reveal_strlit("svgm.config.toml");
            lemma_parent_shorter(d@);
        }
        out.push(cs);
        proof {
            assert(strings_view(out@) =~= before.push(cs@));
        }
        match parent_exec(&d) {
            None => {
                proof {
                    assert(cs@ == join(d@, config_filename()));
                    assert(candidates(d@) == seq![join(d@, config_filename())]);
                    assert(candidates(d0) =~= strings_view(out@));
                }
                return out;
            },
            Some(p) => {
                proof {
                    assert(before + candidates(d@) =~= strings_view(out@) + candidates(p@));
                }
                d = p;
            },
        }
    }
}

/// Finds the config file: `explicit` if given, else the nearest place from `start_dir`
/// up that is a file, where `is_file[k]` says whether the `k`-th of
/// `config_candidates(start_dir)` is one.
pub fn find_config(explicit: Option<&str>, start_dir: &str, is_file: &Vec<bool>) -> (r: Option<
    String,
>)
    ensures
        r matches Some(s) ==> sp_find_config(opt_str(explicit), start_dir@, is_file@) == Some(s@),
        r is None ==> sp_find_config(opt_str(explicit), start_dir@, is_file@) is None,
{
    match explicit {
        Some(p) => Some(string_of(p)),
        None => {
            assert(opt_str(explicit) is None);
            let c = config_candidates(start_dir);
            let ghost cv = strings_view(c@);
            let mut k: usize = 0;
            while k < c.len()
                invariant
                    opt_str(explicit) is None,
                    0 <= k <= c@.len(),
                    cv == strings_view(c@),
                    cv == candidates(start_dir@),
                    first_file(cv, is_file@, 0) == first_file(cv, is_file@, k as int),
                decreases c@.len() - k,
            {
                if k < is_file.len() && is_file[k] {
                    let s = c[k].clone();
                    assert(cv[k as int] == c@[k as int]@);
                    assert(first_file(cv, is_file@, k as int) == Some(cv[k as int]));
                    assert(s@ == cv[k as int]);
                    return Some(s);
                }
                k = k + 1;
            }
            None
        },
    }
}

/// A configuration: a preset, the decimal places kept in numbers, and passes switched on
/// or off by name.
pub struct Config {
    pub preset: Preset,
    pub precision: Option<u32>,
    pub pass_overrides: Vec<(String, bool)>,
}

pub struct ConfigV {
    pub preset: Preset,
    pub precision: Option<u32>,
    pub overrides: Seq<(Seq<char>, bool)>,
}

impl View for Config {
    type V = ConfigV;

    open spec fn view(&self) -> ConfigV {
        ConfigV {
            preset: self.preset,
            precision: self.precision,
            overrides: self.pass_overrides@.map_values(|o: (String, bool)| (o.0@, o.1)),
        }
    }
}

impl Default for Config {
    fn default() -> (r: Self)
        ensures
            r@.preset == Preset::Default,
            r@.precision is None,
            r@.overrides.len() == 0,
    {
        Config { preset: Preset::Default, precision: None, pass_overrides: Vec::new() }
    }
}

/// A configuration with command-line flags applied: a preset or a precision given on the
/// command line replaces the configuration's own; the pass switches stay.
pub fn apply_flags(config: Config, preset: Option<Preset>, precision: Option<u32>) -> (r: Config)
    ensures
        r@.preset == (match preset {
            Some(q) => q,
            None => config@.preset,
        }),
        r@.precision == (match precision {
            Some(n) => Some(n),
            None => config@.precision,
        }),
        r@.overrides == config@.overrides,
{
    let mut c = config;
    if let Some(q) = preset {
        c.preset = q;
    }
    if let Some(n) = precision {
        c.precision = Some(n);
    }
    c
}

/// The names that configuration files and options may switch: `removeDesc` (opt-in),
/// then the default passes in the order they run. `convertTransform`,
/// whose arithmetic is floating point, is run by the program around the library.
pub open spec fn known_pass_names() -> Seq<Seq<char>> {
    seq![
        "removeDesc"@,
        "removeDoctype"@,
        "removeProcInst"@,
        "removeComments"@,
        "removeMetadata"@,
        "removeEditorData"@,
        "removeEmptyAttrs"@,
        "removeEmptyText"@,
        "removeEmptyContainers"@,
        "removeUnusedNamespaces"@,
        "cleanupAttrs"@,
        "cleanupNumericValues"@,
        "convertColors"@,
        "removeUnknownsAndDefaults"@,
        "convertShapeToPath"@,
        "convertTransform"@,
        "collapseGroups"@,
        "cleanupIds"@,
        "convertPathData"@,
        "mergePaths"@,
        "minifyWhitespace"@,
    ]
}

/// The names that configuration files and options may switch.
pub fn all_pass_names() -> (r: Vec<&'static str>)
    ensures
        r@.map_values(|s: &str| s@) == known_pass_names(),
{
    let mut v: Vec<&'static str> = Vec::new();
    v.push("removeDesc");
    v.push("removeDoctype");
    v.push("removeProcInst");
    v.push("removeComments");
    v.push("removeMetadata");
    v.push("removeEditorData");
    v.push("removeEmptyAttrs");
    v.push("removeEmptyText");
    v.push("removeEmptyContainers");
    v.push("removeUnusedNamespaces");
    v.push("cleanupAttrs");
    v.push("cleanupNumericValues");
    v.push("convertColors");
    v.push("removeUnknownsAndDefaults");
    v.push("convertShapeToPath");
    v.push("convertTransform");
    v.push("collapseGroups");
    v.push("cleanupIds");
    v.push("convertPathData");
    v.push("mergePaths");
    v.push("minifyWhitespace");
    assert(v@.map_values(|s: &str| s@) =~= known_pass_names());
    v
}

pub open spec fn is_known_pass(name: Seq<char>) -> bool {
    known_pass_names().contains(name)
}

pub fn is_known_pass_exec(name: &str) -> (r: bool)
    ensures
        r == is_known_pass(name@),
{
    let names = all_pass_names();
    let ghost kv = names@.map_values(|s: &str| s@);
    let mut i: usize = 0;
    while i < names.len()
        invariant
            0 <= i <= names@.len(),
            kv == names@.map_values(|s: &str| s@),
            kv == known_pass_names(),
            forall|j: int| 0 <= j < i ==> kv[j] != name@,
        decreases names@.len() - i,
    {
        if str_eq(names[i], name) {
            assert(kv[i as int] == name@);
            return true;
        }
        i = i + 1;
    }
    assert(!known_pass_names().contains(name@)) by {
        if known_pass_names().contains(name@) {
            let j = choose|j: int| 0 <= j < known_pass_names().len() && known_pass_names()[j] == name@;
            assert(kv[j] == name@);
        }
    }
    false
}

/// The message for an unknown pass name.
pub open spec fn unknown_pass_message(name: Seq<char>) -> Seq<char> {
    "unknown pass \""@ + name + "\""@
}

/// The first of `names` from place `k` on that names no pass.
pub open spec fn first_unknown(names: Seq<Seq<char>>, k: int) -> Option<Seq<char>>
    decreases names.len() - k,
{
    if k < 0 || k >= names.len() {
        None
    } else if !is_known_pass(names[k]) {
        Some(names[k])
    } else {
        first_unknown(names, k + 1)
    }
}

/// Checks that every name names a pass; the error names the first that does not.
pub fn check_pass_names(names: &Vec<String>) -> (r: Result<(), ConfigError>)
    ensures
        match first_unknown(strings_view(names@), 0) {
            None => r is Ok,
            Some(n) => r matches Err(e) && e.message@ == unknown_pass_message(n),
        },
{
    let ghost nv = strings_view(names@);
    let mut k: usize = 0;
    while k < names.len()
        invariant
            0 <= k <= names@.len(),
            nv == strings_view(names@),
            first_unknown(nv, 0) == first_unknown(nv, k as int),
        decreases names@.len() - k,
    {
        assert(nv[k as int] == names@[k as int]@);
        if !is_known_pass_exec(names[k].as_str()) {
            let mut v = crate::text::chars_of("unknown pass \"");
            crate::text::extend_str(&mut v, names[k].as_str());
            crate::text::extend_str(&mut v, "\"");
            return Err(ConfigError { message: string_from_chars(&v) });
        }
        k = k + 1;
    }
    Ok(())
}

/// Whether a preset runs the pass of this name: the default preset runs all but
/// `removeDesc` (which is opt-in); the safe preset only removes and normalizes
/// (`removeDoctype`, `removeProcInst`, `removeComments`, `removeMetadata`,
/// `removeEditorData`, `removeEmptyAttrs`, `removeEmptyText`, `removeEmptyContainers`, `removeUnusedNamespaces`,
/// `cleanupAttrs`, `cleanupNumericValues`, `convertColors`, `removeUnknownsAndDefaults`,
/// `minifyWhitespace`).
pub open spec fn in_preset(preset: Preset, name: Seq<char>) -> bool {
    match preset {
        Preset::Default => name != "removeDesc"@,
        Preset::Safe => name == "removeDoctype"@ || name == "removeProcInst"@ || name
            == "removeComments"@ || name == "removeMetadata"@ || name == "removeEditorData"@
            || name == "removeEmptyAttrs"@
            || name == "removeEmptyText"@ || name
            == "removeEmptyContainers"@ || name == "removeUnusedNamespaces"@ || name
            == "cleanupAttrs"@ || name == "cleanupNumericValues"@ || name
            == "convertColors"@ || name
            == "removeUnknownsAndDefaults"@ || name == "minifyWhitespace"@,
    }
}

/// The first override of the pass of this name.
pub open spec fn override_of(o: Seq<(Seq<char>, bool)>, name: Seq<char>) -> Option<bool>
    decreases o.len(),
{
    if o.len() == 0 {
        None
    } else if o[0].0 == name {
        Some(o[0].1)
    } else {
        override_of(o.drop_first(), name)
    }
}

/// Whether a configuration runs the pass of this name: as its override says, else as
/// its preset says.
pub open spec fn enabled(c: ConfigV, name: Seq<char>) -> bool {
    match override_of(c.overrides, name) {
        Some(b) => b,
        None => in_preset(c.preset, name),
    }
}

pub open spec fn opt_pass(b: bool, p: DefaultPass) -> Seq<DefaultPass> {
    if b {
        seq![p]
    } else {
        seq![]
    }
}

/// The removal passes a configuration runs, in order.
pub open spec fn removal_passes(c: ConfigV) -> Seq<DefaultPass> {
    dead_weight_passes(c) + emptiness_passes(c)
}

/// The passes that remove comments, declarations, metadata and editor data, in order.
pub open spec fn dead_weight_passes(c: ConfigV) -> Seq<DefaultPass> {
    opt_pass(enabled(c, "removeDoctype"@), DefaultPass::RemoveDoctype(RemoveDoctype)) + opt_pass(
        enabled(c, "removeProcInst"@),
        DefaultPass::RemoveProcInst(RemoveProcInst),
    ) + opt_pass(enabled(c, "removeComments"@), DefaultPass::RemoveComments(RemoveComments))
        + opt_pass(enabled(c, "removeMetadata"@), DefaultPass::RemoveMetadata(RemoveMetadata))
        + opt_pass(enabled(c, "removeEditorData"@), DefaultPass::RemoveEditorData(RemoveEditorData))
}

/// The passes that remove what is empty or unused, in order.
pub open spec fn emptiness_passes(c: ConfigV) -> Seq<DefaultPass> {
    opt_pass(enabled(c, "removeEmptyAttrs"@), DefaultPass::RemoveEmptyAttrs(RemoveEmptyAttrs))
        + opt_pass(enabled(c, "removeEmptyText"@), DefaultPass::RemoveEmptyText(RemoveEmptyText))
        + opt_pass(
        enabled(c, "removeEmptyContainers"@),
        DefaultPass::RemoveEmptyContainers(RemoveEmptyContainers),
    ) + opt_pass(
        enabled(c, "removeUnusedNamespaces"@),
        DefaultPass::RemoveUnusedNamespaces(RemoveUnusedNamespaces),
    )
}

/// The precision a configuration sets for numbers (3 places when none is set).
pub open spec fn precision_of(c: ConfigV) -> u32 {
    match c.precision {
        Some(p) => p,
        None => 3,
    }
}

/// The other passes a configuration runs, in order.
pub open spec fn main_passes(c: ConfigV) -> Seq<DefaultPass> {
    tidy_passes(c) + shape_passes(c) + structure_passes(c) + geometry_passes(c)
}

/// The passes that run before the place of `convertTransform` in a round.
pub open spec fn before_transform(c: ConfigV) -> Seq<DefaultPass> {
    removal_passes(c) + tidy_passes(c) + shape_passes(c)
}

/// The passes that run after the place of `convertTransform` in a round.
pub open spec fn after_transform(c: ConfigV) -> Seq<DefaultPass> {
    structure_passes(c) + geometry_passes(c)
}

/// The passes that tidy attributes, in order; numeric values keep the configured precision.
pub open spec fn tidy_passes(c: ConfigV) -> Seq<DefaultPass> {
    opt_pass(enabled(c, "removeDesc"@), DefaultPass::RemoveDesc(RemoveDesc)) + opt_pass(
        enabled(c, "cleanupAttrs"@),
        DefaultPass::CleanupAttrs(CleanupAttrs),
    ) + opt_pass(
        enabled(c, "cleanupNumericValues"@),
        DefaultPass::CleanupNumericValues(CleanupNumericValues { precision: precision_of(c) }),
    ) + opt_pass(enabled(c, "convertColors"@), DefaultPass::ConvertColors(ConvertColors)) + opt_pass(
        enabled(c, "removeUnknownsAndDefaults"@),
        DefaultPass::RemoveUnknownsAndDefaults(RemoveUnknownsAndDefaults),
    )
}

/// The passes that turn shapes into paths, in order.
pub open spec fn shape_passes(c: ConfigV) -> Seq<DefaultPass> {
    opt_pass(
        enabled(c, "convertShapeToPath"@),
        DefaultPass::ConvertShapeToPath(ConvertShapeToPath { precision: precision_of(c) }),
    )
}

/// The passes that simplify the tree after the transform step, in order.
pub open spec fn structure_passes(c: ConfigV) -> Seq<DefaultPass> {
    opt_pass(enabled(c, "collapseGroups"@), DefaultPass::CollapseGroups(CollapseGroups))
        + opt_pass(enabled(c, "cleanupIds"@), DefaultPass::CleanupIds(CleanupIds))
}

/// The passes that compress path data and white space, in order; numbers in path data keep
/// the configured precision.
pub open spec fn geometry_passes(c: ConfigV) -> Seq<DefaultPass> {
    opt_pass(
        enabled(c, "convertPathData"@),
        DefaultPass::ConvertPathData(ConvertPathData { precision: precision_of(c) }),
    ) + opt_pass(enabled(c, "mergePaths"@), DefaultPass::MergePaths(MergePaths)) + opt_pass(
        enabled(c, "minifyWhitespace"@),
        DefaultPass::MinifyWhitespace(MinifyWhitespace),
    )
}

/// The passes a configuration runs, in order.
pub open spec fn passes_for(c: ConfigV) -> Seq<DefaultPass> {
    removal_passes(c) + main_passes(c)
}

fn override_exec(o: &Vec<(String, bool)>, name: &str) -> (r: Option<bool>)
    ensures
        r == override_of(o@.map_values(|x: (String, bool)| (x.0@, x.1)), name@),
{
    let ghost ov = o@.map_values(|x: (String, bool)| (x.0@, x.1));
    let mut i: usize = 0;
    proof {
        assert(ov.skip(0) =~= ov);
    }
    while i < o.len()
        invariant
            0 <= i <= o@.len(),
            ov == o@.map_values(|x: (String, bool)| (x.0@, x.1)),
            override_of(ov, name@) == override_of(ov.skip(i as int), name@),
        decreases o@.len() - i,
    {
        assert(ov.skip(i as int)[0] == ov[i as int]);
        assert(ov.skip(i as int).drop_first() =~= ov.skip(i + 1));
        if str_eq(o[i].0.as_str(), name) {
            return Some(o[i].1);
        }
        i = i + 1;
    }
    assert(ov.skip(i as int) =~= Seq::<(Seq<char>, bool)>::empty());
    None
}

/// Whether a configuration runs the pass of this name.
pub fn is_pass_enabled(c: &Config, name: &str) -> (r: bool)
    ensures
        r == enabled(c@, name@),
{
    match override_exec(&c.pass_overrides, name) {
        Some(b) => b,
        None => match c.preset {
            Preset::Default => !str_eq(name, "removeDesc"),
            Preset::Safe => str_eq(name, "removeDoctype") || str_eq(name, "removeProcInst") || str_eq(
                name,
                "removeComments",
            ) || str_eq(name, "removeMetadata") || str_eq(name, "removeEditorData")
                || str_eq(name, "removeEmptyAttrs")
                || str_eq(name, "removeEmptyText") || str_eq(
                name,
                "removeEmptyContainers",
            ) || str_eq(name, "removeUnusedNamespaces") || str_eq(name, "cleanupAttrs")
                || str_eq(name, "cleanupNumericValues") || str_eq(name, "convertColors") || str_eq(
                name,
                "removeUnknownsAndDefaults",
            ) || str_eq(name, "minifyWhitespace"),
        },
    }
}

fn removal_passes_exec(c: &Config) -> (r: Vec<DefaultPass>)
    ensures
        r@ == removal_passes(c@),
{
    let mut a = dead_weight_exec(c);
    let mut b = emptiness_exec(c);
    a.append(&mut b);
    a
}

fn dead_weight_exec(c: &Config) -> (r: Vec<DefaultPass>)
    ensures
        r@ == dead_weight_passes(c@),
{
    let mut v: Vec<DefaultPass> = Vec::new();
    let d1 = is_pass_enabled(c, "removeDoctype");
    let d2 = is_pass_enabled(c, "removeProcInst");
    let d3 = is_pass_enabled(c, "removeComments");
    let d4 = is_pass_enabled(c, "removeMetadata");
    let de = is_pass_enabled(c, "removeEditorData");
    let ghost t0 = v@;
    if d1 {
        v.push(DefaultPass::RemoveDoctype(RemoveDoctype));
    }
    assert(v@ =~= t0 + opt_pass(d1, DefaultPass::RemoveDoctype(RemoveDoctype)));
    let ghost t1 = v@;
    if d2 {
        v.push(DefaultPass::RemoveProcInst(RemoveProcInst));
    }
    assert(v@ =~= t1 + opt_pass(d2, DefaultPass::RemoveProcInst(RemoveProcInst)));
    let ghost t2 = v@;
    if d3 {
        v.push(DefaultPass::RemoveComments(RemoveComments));
    }
    assert(v@ =~= t2 + opt_pass(d3, DefaultPass::RemoveComments(RemoveComments)));
    let ghost t3 = v@;
    if d4 {
        v.push(DefaultPass::RemoveMetadata(RemoveMetadata));
    }
    assert(v@ =~= t3 + opt_pass(d4, DefaultPass::RemoveMetadata(RemoveMetadata)));
    let ghost te = v@;
    if de {
        v.push(DefaultPass::RemoveEditorData(RemoveEditorData));
    }
    assert(v@ =~= te + opt_pass(de, DefaultPass::RemoveEditorData(RemoveEditorData)));
    assert(t0 =~= Seq::<DefaultPass>::empty());
    assert(v@ =~= dead_weight_passes(c@));
    v
}

fn emptiness_exec(c: &Config) -> (r: Vec<DefaultPass>)
    ensures
        r@ == emptiness_passes(c@),
{
    let mut v: Vec<DefaultPass> = Vec::new();
    let da = is_pass_enabled(c, "removeEmptyAttrs");
    let d5 = is_pass_enabled(c, "removeEmptyText");
    let d6 = is_pass_enabled(c, "removeEmptyContainers");
    let d7 = is_pass_enabled(c, "removeUnusedNamespaces");
    let ghost ta = v@;
    if da {
        v.push(DefaultPass::RemoveEmptyAttrs(RemoveEmptyAttrs));
    }
    assert(v@ =~= ta + opt_pass(da, DefaultPass::RemoveEmptyAttrs(RemoveEmptyAttrs)));
    let ghost t4 = v@;
    if d5 {
        v.push(DefaultPass::RemoveEmptyText(RemoveEmptyText));
    }
    assert(v@ =~= t4 + opt_pass(d5, DefaultPass::RemoveEmptyText(RemoveEmptyText)));
    let ghost t5 = v@;
    if d6 {
        v.push(DefaultPass::RemoveEmptyContainers(RemoveEmptyContainers));
    }
    assert(v@ =~= t5 + opt_pass(d6, DefaultPass::RemoveEmptyContainers(RemoveEmptyContainers)));
    let ghost t6 = v@;
    if d7 {
        v.push(DefaultPass::RemoveUnusedNamespaces(RemoveUnusedNamespaces));
    }
    assert(v@ =~= t6 + opt_pass(d7, DefaultPass::RemoveUnusedNamespaces(RemoveUnusedNamespaces)));
    assert(ta =~= Seq::<DefaultPass>::empty());
    assert(v@ =~= emptiness_passes(c@));
    v
}

fn main_passes_exec(c: &Config) -> (r: Vec<DefaultPass>)
    ensures
        r@ == main_passes(c@),
{
    let mut a = tidy_exec(c);
    let mut b = shape_exec(c);
    let mut s = structure_exec(c);
    let mut g = geometry_exec(c);
    a.append(&mut b);
    a.append(&mut s);
    a.append(&mut g);
    a
}

/// The passes of a configuration split at the place of `convertTransform`: those that run
/// before it in a round and those that run after it.
#[verifier::spinoff_prover]
#[verifier::rlimit(40)]
pub fn passes_around_transform(c: &Config) -> (r: (Vec<DefaultPass>, Vec<DefaultPass>))
    ensures
        r.0@ == before_transform(c@),
        r.1@ == after_transform(c@),
        r.0@ + r.1@ == passes_for(c@),
{
    let mut a = removal_passes_exec(c);
    let mut t = tidy_exec(c);
    let mut b = shape_exec(c);
    a.append(&mut t);
    a.append(&mut b);
    let mut s = structure_exec(c);
    let mut g = geometry_exec(c);
    s.append(&mut g);
    proof {
        let rm = removal_passes(c@);
        let t = tidy_passes(c@);
        let sh = shape_passes(c@);
        let st = structure_passes(c@);
        let ge = geometry_passes(c@);
        assert(a@ == rm + t + sh);
        assert(s@ == st + ge);
        assert(passes_for(c@) == rm + (t + sh + st + ge));
        assert(rm + t + sh + (st + ge) =~= rm + (t + sh + st + ge));
    }
    (a, s)
}

fn precision_exec(c: &Config) -> (p: u32)
    ensures
        p == precision_of(c@),
{
    match c.precision {
        Some(p) => p,
        None => 3,
    }
}

fn tidy_exec(c: &Config) -> (r: Vec<DefaultPass>)
    ensures
        r@ == tidy_passes(c@),
{
    let p = precision_exec(c);
    let mut v: Vec<DefaultPass> = Vec::new();
    let e1 = is_pass_enabled(c, "removeDesc");
    let e2 = is_pass_enabled(c, "cleanupAttrs");
    let e3 = is_pass_enabled(c, "cleanupNumericValues");
    let ec = is_pass_enabled(c, "convertColors");
    let e4 = is_pass_enabled(c, "removeUnknownsAndDefaults");
    let ghost s0 = v@;
    if e1 {
        v.push(DefaultPass::RemoveDesc(RemoveDesc));
    }
    assert(v@ =~= s0 + opt_pass(e1, DefaultPass::RemoveDesc(RemoveDesc)));
    let ghost s1 = v@;
    if e2 {
        v.push(DefaultPass::CleanupAttrs(CleanupAttrs));
    }
    assert(v@ =~= s1 + opt_pass(e2, DefaultPass::CleanupAttrs(CleanupAttrs)));
    let ghost s2 = v@;
    if e3 {
        v.push(DefaultPass::CleanupNumericValues(CleanupNumericValues { precision: p }));
    }
    assert(v@ =~= s2 + opt_pass(
        e3,
        DefaultPass::CleanupNumericValues(CleanupNumericValues { precision: p }),
    ));
    let ghost sc = v@;
    if ec {
        v.push(DefaultPass::ConvertColors(ConvertColors));
    }
    assert(v@ =~= sc + opt_pass(ec, DefaultPass::ConvertColors(ConvertColors)));
    let ghost s3 = v@;
    if e4 {
        v.push(DefaultPass::RemoveUnknownsAndDefaults(RemoveUnknownsAndDefaults));
    }
    assert(v@ =~= s3 + opt_pass(
        e4,
        DefaultPass::RemoveUnknownsAndDefaults(RemoveUnknownsAndDefaults),
    ));
    assert(s0 =~= Seq::<DefaultPass>::empty());
    assert(v@ =~= tidy_passes(c@));
    v
}

fn shape_exec(c: &Config) -> (r: Vec<DefaultPass>)
    ensures
        r@ == shape_passes(c@),
{
    let p = precision_exec(c);
    let mut v: Vec<DefaultPass> = Vec::new();
    if is_pass_enabled(c, "convertShapeToPath") {
        v.push(DefaultPass::ConvertShapeToPath(ConvertShapeToPath { precision: p }));
    }
    assert(v@ =~= shape_passes(c@));
    v
}

fn structure_exec(c: &Config) -> (r: Vec<DefaultPass>)
    ensures
        r@ == structure_passes(c@),
{
    let mut v: Vec<DefaultPass> = Vec::new();
    let e1 = is_pass_enabled(c, "collapseGroups");
    let e2 = is_pass_enabled(c, "cleanupIds");
    if e1 {
        v.push(DefaultPass::CollapseGroups(CollapseGroups));
    }
    let ghost s1 = v@;
    if e2 {
        v.push(DefaultPass::CleanupIds(CleanupIds));
    }
    assert(v@ =~= s1 + opt_pass(e2, DefaultPass::CleanupIds(CleanupIds)));
    assert(s1 =~= opt_pass(e1, DefaultPass::CollapseGroups(CollapseGroups)));
    v
}

fn geometry_exec(c: &Config) -> (r: Vec<DefaultPass>)
    ensures
        r@ == geometry_passes(c@),
{
    let p = precision_exec(c);
    let mut v: Vec<DefaultPass> = Vec::new();
    let e0 = is_pass_enabled(c, "convertPathData");
    let e1 = is_pass_enabled(c, "mergePaths");
    let e2 = is_pass_enabled(c, "minifyWhitespace");
    let ghost s0 = v@;
    if e0 {
        v.push(DefaultPass::ConvertPathData(ConvertPathData { precision: p }));
    }
    assert(v@ =~= s0 + opt_pass(e0, DefaultPass::ConvertPathData(ConvertPathData { precision: p })));
    let ghost s1 = v@;
    if e1 {
        v.push(DefaultPass::MergePaths(MergePaths));
    }
    assert(v@ =~= s1 + opt_pass(e1, DefaultPass::MergePaths(MergePaths)));
    let ghost s2 = v@;
    if e2 {
        v.push(DefaultPass::MinifyWhitespace(MinifyWhitespace));
    }
    assert(v@ =~= s2 + opt_pass(e2, DefaultPass::MinifyWhitespace(MinifyWhitespace)));
    assert(s0 =~= Seq::<DefaultPass>::empty());
    assert(v@ =~= geometry_passes(c@));
    v
}

/// The passes a configuration runs, in order.
pub fn passes_for_config(c: &Config) -> (r: Vec<DefaultPass>)
    ensures
        r@ == passes_for(c@),
{
    let mut a = removal_passes_exec(c);
    let mut b = main_passes_exec(c);
    a.append(&mut b);
    a
}

} // verus!
