//! The command line's rules: which combinations of arguments are accepted, where output
//! goes, and which files a directory walk takes.
use vstd::prelude::*;

use crate::config::strings_view;
use crate::text::{chars_of, extend_str, string_from_chars, string_of};

verus! {

broadcast use vstd::std_specs::vec::group_vec_axioms;

/// A combination of arguments that is refused.
#[derive(Debug, Clone, Copy, PartialEq, Eq, Structural)]
pub enum CliError {
    /// `-r` with other than exactly one input.
    RecursiveNeedsOneInput,
    /// `-r` on an input that is not a directory.
    NotADirectory,
    /// `--stdout` with `-r`.
    StdoutWithRecursive,
    /// A directory given without `-r` (the input's place).
    IsDirectory(usize),
    /// `-o` with several inputs.
    OutputWithMultiple,
    /// `--stdout` with several inputs.
    StdoutWithMultiple,
}

/// The message of a refused combination of arguments, `inputs` being the inputs as
/// displayed.
pub open spec fn sp_cli_message(e: CliError, inputs: Seq<Seq<char>>) -> Seq<char> {
    match e {
        CliError::RecursiveNeedsOneInput => "-r requires exactly one directory input"@,
        CliError::NotADirectory => inputs[0] + " is not a directory"@,
        CliError::StdoutWithRecursive => "cannot use --stdout with -r"@,
        CliError::IsDirectory(k) => inputs[k as int] + " is a directory, use -r to process recursively"@,
        CliError::OutputWithMultiple => "cannot use -o with multiple input files"@,
        CliError::StdoutWithMultiple => "cannot use --stdout with multiple input files"@,
    }
}

impl CliError {
    /// The message for this refusal, `inputs` being the inputs as displayed.
    pub fn message(&self, inputs: &Vec<String>) -> (r: String)
        requires
            *self == CliError::NotADirectory ==> inputs@.len() > 0,
            self matches CliError::IsDirectory(k) ==> k < inputs@.len(),
        ensures
            r@ == sp_cli_message(*self, strings_view(inputs@)),
    {
        match self {
            CliError::RecursiveNeedsOneInput => string_of("-r requires exactly one directory input"),
            CliError::NotADirectory => {
                let mut v = chars_of(inputs[0].as_str());
                extend_str(&mut v, " is not a directory");
                string_from_chars(&v)
            },
            CliError::StdoutWithRecursive => string_of("cannot use --stdout with -r"),
            CliError::IsDirectory(k) => {
                let mut v = chars_of(inputs[*k].as_str());
                extend_str(&mut v, " is a directory, use -r to process recursively");
                string_from_chars(&v)
            },
            CliError::OutputWithMultiple => string_of("cannot use -o with multiple input files"),
            CliError::StdoutWithMultiple => string_of("cannot use --stdout with multiple input files"),
        }
    }
}

/// What `-r` accepts: exactly one input, a directory, and no `--stdout`.
pub open spec fn sp_check_recursive(n_inputs: nat, first_is_dir: bool, stdout: bool) -> Result<
    (),
    CliError,
> {
    if n_inputs != 1 {
        Err(CliError::RecursiveNeedsOneInput)
    } else if !first_is_dir {
        Err(CliError::NotADirectory)
    } else if stdout {
        Err(CliError::StdoutWithRecursive)
    } else {
        Ok(())
    }
}

pub fn check_recursive(n_inputs: usize, first_is_dir: bool, stdout: bool) -> (r: Result<
    (),
    CliError,
>)
    ensures
        r == sp_check_recursive(n_inputs as nat, first_is_dir, stdout),
{
    if n_inputs != 1 {
        Err(CliError::RecursiveNeedsOneInput)
    } else if !first_is_dir {
        Err(CliError::NotADirectory)
    } else if stdout {
        Err(CliError::StdoutWithRecursive)
    } else {
        Ok(())
    }
}

/// The first input from place `k` on that is a directory.
pub open spec fn first_dir(is_dir: Seq<bool>, k: int) -> Option<int>
    decreases is_dir.len() - k,
{
    if k < 0 || k >= is_dir.len() {
        None
    } else if is_dir[k] {
        Some(k)
    } else {
        first_dir(is_dir, k + 1)
    }
}

/// What file mode accepts: no directory among the inputs, and neither `-o` nor
/// `--stdout` with several inputs.
pub open spec fn sp_check_files(is_dir: Seq<bool>, output_given: bool, stdout: bool) -> Result<
    (),
    CliError,
> {
    match first_dir(is_dir, 0) {
        Some(k) => Err(CliError::IsDirectory(k as usize)),
        None => if is_dir.len() > 1 && output_given {
            Err(CliError::OutputWithMultiple)
        } else if is_dir.len() > 1 && stdout {
            Err(CliError::StdoutWithMultiple)
        } else {
            Ok(())
        },
    }
}

pub fn check_files(is_dir: &Vec<bool>, output_given: bool, stdout: bool) -> (r: Result<
    (),
    CliError,
>)
    ensures
        r == sp_check_files(is_dir@, output_given, stdout),
{
    let mut k: usize = 0;
    while k < is_dir.len()
        invariant
            0 <= k <= is_dir@.len(),
            first_dir(is_dir@, 0) == first_dir(is_dir@, k as int),
        decreases is_dir@.len() - k,
    {
        if is_dir[k] {
            return Err(CliError::IsDirectory(k));
        }
        k = k + 1;
    }
    if is_dir.len() > 1 && output_given {
        Err(CliError::OutputWithMultiple)
    } else if is_dir.len() > 1 && stdout {
        Err(CliError::StdoutWithMultiple)
    } else {
        Ok(())
    }
}

/// Whether a file's result goes to standard output: when asked, or for a single input
/// without `-o` when standard output is not a terminal.
pub open spec fn sp_writes_to_stdout(
    stdout: bool,
    output_given: bool,
    multi_file: bool,
    is_terminal: bool,
) -> bool {
    stdout || (!output_given && !multi_file && !is_terminal)
}

pub fn writes_to_stdout(stdout: bool, output_given: bool, multi_file: bool, is_terminal: bool) -> (r:
    bool)
    ensures
        r == sp_writes_to_stdout(stdout, output_given, multi_file, is_terminal),
{
    stdout || (!output_given && !multi_file && !is_terminal)
}

/// The place of the last `.` in `s`, if any.
pub open spec fn last_dot(s: Seq<char>) -> Option<int>
    decreases s.len(),
{
    if s.len() == 0 {
        None
    } else if s.last() == '.' {
        Some(s.len() - 1)
    } else {
        last_dot(s.drop_last())
    }
}

/// A file name's extension: what follows its last `.`, unless that dot starts the name.
pub open spec fn extension(name: Seq<char>) -> Option<Seq<char>> {
    match last_dot(name) {
        Some(k) => if k == 0 {
            None
        } else {
            Some(name.skip(k + 1))
        },
        None => None,
    }
}

/// Whether a directory walk takes a file of this name: its extension is `svg` in any case.
pub open spec fn is_svg_name(name: Seq<char>) -> bool {
    match extension(name) {
        Some(e) => e.len() == 3 && (e[0] == 's' || e[0] == 'S') && (e[1] == 'v' || e[1] == 'V') && (
        e[2] == 'g' || e[2] == 'G'),
        None => false,
    }
}

/// Whether a directory walk takes a file of this name.
pub fn is_svg_file_name(name: &str) -> (r: bool)
    ensures
        r == is_svg_name(name@),
{
    let s = chars_of(name);
    let mut i = s.len();
    assert(s@.take(i as int) =~= s@);
    while i > 0 && s[i - 1] != '.'
        invariant
            0 <= i <= s@.len(),
            last_dot(s@) == last_dot(s@.take(i as int)),
        decreases i,
    {
        assert(s@.take(i as int).drop_last() =~= s@.take(i - 1));
        i = i - 1;
    }
    if i == 0 {
        assert(s@.take(0) =~= Seq::<char>::empty());
        return false;
    }
    let k = i - 1;
    if k == 0 {
        return false;
    }
    let n = s.len() - (k + 1);
    if n != 3 {
        return false;
    }
    let a = s[k + 1];
    let b = s[k + 2];
    let c = s[k + 3];
    (a == 's' || a == 'S') && (b == 'v' || b == 'V') && (c == 'g' || c == 'G')
}


/// The components of a path from place `i` on, `cur` being the component read so far:
/// the runs of characters between `/` separators, empty runs left out.
pub open spec fn comps_from(s: Seq<char>, i: int, cur: Seq<char>) -> Seq<Seq<char>>
    decreases s.len() - i,
{
    if i < 0 || i >= s.len() {
        if cur.len() > 0 {
            seq![cur]
        } else {
            seq![]
        }
    } else if s[i] == '/' {
        (if cur.len() > 0 {
            seq![cur]
        } else {
            seq![]
        }) + comps_from(s, i + 1, seq![])
    } else {
        comps_from(s, i + 1, cur.push(s[i]))
    }
}

/// The components of a path.
pub open spec fn components(s: Seq<char>) -> Seq<Seq<char>> {
    comps_from(s, 0, seq![])
}

pub open spec fn is_absolute(s: Seq<char>) -> bool {
    s.len() > 0 && s[0] == '/'
}

/// Whether path `a` lies under path `b` (or is it), whole components compared.
pub open spec fn path_starts_with(a: Seq<char>, b: Seq<char>) -> bool {
    &&& is_absolute(a) == is_absolute(b)
    &&& components(b).len() <= components(a).len()
    &&& components(a).take(components(b).len() as int) == components(b)
}

/// Whether an output directory and a source directory overlap: either lies under the
/// other.
pub open spec fn sp_dirs_overlap(out_dir: Seq<char>, source: Seq<char>) -> bool {
    path_starts_with(out_dir, source) || path_starts_with(source, out_dir)
}

fn path_components(s: &Vec<char>) -> (r: Vec<Vec<char>>)
    ensures
        r@.map_values(|c: Vec<char>| c@) == components(s@),
{
    let mut out: Vec<Vec<char>> = Vec::new();
    let mut cur: Vec<char> = Vec::new();
    let mut i: usize = 0;
    while i < s.len()
        invariant
            0 <= i <= s@.len(),
            components(s@) == out@.map_values(|c: Vec<char>| c@) + comps_from(s@, i as int, cur@),
        decreases s@.len() - i,
    {
        if s[i] == '/' {
            if cur.len() > 0 {
                let ghost before = out@.map_values(|c: Vec<char>| c@);
                let ghost cv = cur@;
                let ghost rest = comps_from(s@, i + 1, seq![]);
                out.push(cur);
                cur = Vec::new();
                proof {
                    assert(out@.map_values(|c: Vec<char>| c@) =~= before.push(cv));
                    assert(before + (seq![cv] + rest) =~= before.push(cv) + rest);
                    assert(cur@ =~= Seq::<char>::empty());
                }
            } else {
                proof {
                    let before = out@.map_values(|c: Vec<char>| c@);
                    let rest = comps_from(s@, i + 1, seq![]);
                    assert(Seq::<Seq<char>>::empty() + rest =~= rest);
                    assert(cur@ =~= Seq::<char>::empty());
                }
            }
        } else {
            cur.push(s[i]);
        }
        i = i + 1;
    }
    if cur.len() > 0 {
        let ghost before = out@.map_values(|c: Vec<char>| c@);
        let ghost cv = cur@;
        out.push(cur);
        proof {
            assert(out@.map_values(|c: Vec<char>| c@) =~= before + seq![cv]);
        }
    } else {
        proof {
            let before = out@.map_values(|c: Vec<char>| c@);
            assert(before + Seq::<Seq<char>>::empty() =~= before);
        }
    }
    out
}

fn starts_with_exec(a: &Vec<char>, b: &Vec<char>) -> (r: bool)
    ensures
        r == path_starts_with(a@, b@),
{
    let abs_a = a.len() > 0 && a[0] == '/';
    let abs_b = b.len() > 0 && b[0] == '/';
    if abs_a != abs_b {
        return false;
    }
    let ca = path_components(a);
    let cb = path_components(b);
    let ghost va = ca@.map_values(|c: Vec<char>| c@);
    let ghost vb = cb@.map_values(|c: Vec<char>| c@);
    if cb.len() > ca.len() {
        return false;
    }
    let mut j: usize = 0;
    while j < cb.len()
        invariant
            cb@.len() <= ca@.len(),
            0 <= j <= cb@.len(),
            va == ca@.map_values(|c: Vec<char>| c@),
            vb == cb@.map_values(|c: Vec<char>| c@),
            va == components(a@),
            vb == components(b@),
            is_absolute(a@) == is_absolute(b@),
            forall|k: int| 0 <= k < j ==> va[k] == vb[k],
        decreases cb@.len() - j,
    {
        assert(va[j as int] == ca@[j as int]@);
        assert(vb[j as int] == cb@[j as int]@);
        if !crate::text::chars_eq(&ca[j], &cb[j]) {
            assert(va.take(vb.len() as int)[j as int] == va[j as int]);
            assert(va.take(vb.len() as int) != vb);
            return false;
        }
        j = j + 1;
    }
    assert(va.take(vb.len() as int) =~= vb);
    true
}

/// Whether an output directory and a source directory overlap (either lies under the
/// other); the command line refuses such an output directory with `-r`.
pub fn dirs_overlap(out_dir: &str, source: &str) -> (r: bool)
    ensures
        r == sp_dirs_overlap(out_dir@, source@),
{
    let a = chars_of(out_dir);
    let b = chars_of(source);
    starts_with_exec(&a, &b) || starts_with_exec(&b, &a)
}


/// `dir` with the component `c` appended.
pub open spec fn join_one(dir: Seq<char>, c: Seq<char>) -> Seq<char> {
    if dir.len() == 0 {
        c
    } else if dir.last() == '/' {
        dir + c
    } else {
        dir + seq!['/'] + c
    }
}

pub open spec fn join_comps(dir: Seq<char>, comps: Seq<Seq<char>>) -> Seq<char>
    decreases comps.len(),
{
    if comps.len() == 0 {
        dir
    } else {
        join_comps(join_one(dir, comps[0]), comps.drop_first())
    }
}

/// Where a file found under `base` goes in the output directory: the output directory
/// joined with the file's path below `base`.
pub open spec fn sp_output_target(file: Seq<char>, base: Seq<char>, out_dir: Seq<char>) -> Seq<char> {
    join_comps(out_dir, components(file).skip(components(base).len() as int))
}

/// Whether `file` lies under `base` (or is it), whole components compared.
pub fn is_under(file: &str, base: &str) -> (r: bool)
    ensures
        r == path_starts_with(file@, base@),
{
    let a = chars_of(file);
    let b = chars_of(base);
    starts_with_exec(&a, &b)
}

/// Where a file found under `base` is written when an output directory is given.
pub fn output_target(file: &str, base: &str, out_dir: &str) -> (r: String)
    requires
        path_starts_with(file@, base@),
    ensures
        r@ == sp_output_target(file@, base@, out_dir@),
{
    let fc = path_components(&chars_of(file));
    let bc = path_components(&chars_of(base));
    let ghost fv = fc@.map_values(|c: Vec<char>| c@);
    let ghost rest = fv.skip(bc@.len() as int);
    let mut out = chars_of(out_dir);
    let mut i = bc.len();
    proof {
        assert(bc@.map_values(|c: Vec<char>| c@).len() == bc@.len());
        assert(fv.skip(i as int) =~= rest);
    }
    while i < fc.len()
        invariant
            bc@.len() <= i <= fc@.len(),
            fv == fc@.map_values(|c: Vec<char>| c@),
            rest == fv.skip(bc@.len() as int),
            join_comps(out_dir@, rest) == join_comps(out@, fv.skip(i as int)),
        decreases fc@.len() - i,
    {
        let ghost before = out@;
        let c = &fc[i];
        assert(fv[i as int] == c@);
        if out.len() == 0 {
        } else if out[out.len() - 1] == '/' {
        } else {
            out.push('/');
        }
        crate::text::extend_chars(&mut out, c);
        proof {
            assert(out@ =~= join_one(before, c@));
            assert(fv.skip(i as int)[0] == c@);
            assert(fv.skip(i as int).drop_first() =~= fv.skip(i + 1));
        }
        i += 1;
    }
    proof {
        assert(fv.skip(i as int) =~= Seq::<Seq<char>>::empty());
    }
    crate::text::string_from_chars(&out)
}
} // verus!
