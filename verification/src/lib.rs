pub mod ast;
pub mod text;
pub mod parser;
pub mod serializer;
pub mod passes;
pub mod path;
pub mod optimizer;
pub mod config;
pub mod cli;
pub mod roundtrip;
pub mod bindings;

use vstd::prelude::*;

use config::{passes_for, Config};
use optimizer::{optimize_doc, optimize_doc_with};
use parser::{parse, sp_parse, ParseError};
use serializer::{serialize, ser_nodes};

verus! {

/// The optimized text and the number of rounds the optimizer ran.
pub struct OptimizeOutput {
    pub data: String,
    pub iterations: usize,
}

/// What optimizing an SVG text gives: `None` where it does not parse, else the text of the
/// optimized document and the number of rounds.
pub open spec fn sp_optimize(input: Seq<char>) -> Option<(Seq<char>, nat)> {
    match sp_parse(input) {
        None => None,
        Some(d) => {
            let (d2, n) = optimize_doc(d);
            Some((ser_nodes(d2), n))
        },
    }
}

/// Optimize an SVG string using the default passes.
/// Returns the optimized SVG string and the number of convergence iterations.
/// `convertTransform` is not among the passes this runs: its arithmetic is floating point,
/// and the programs around the library run it at its place in each round (see
/// `config::passes_around_transform` and `optimizer::run_passes`).
pub fn optimize(input: &str) -> (r: Result<OptimizeOutput, ParseError>)
    ensures
        r matches Ok(o) ==> sp_optimize(input@) == Some((o.data@, o.iterations as nat)),
        r is Err ==> sp_optimize(input@) is None,
{
    let mut doc = match parse(input) {
        Ok(d) => d,
        Err(e) => {
            return Err(e);
        },
    };
    let result = optimizer::optimize(&mut doc);
    let output = serialize(&doc);
    Ok(OptimizeOutput { data: output, iterations: result.iterations })
}

/// What optimizing an SVG text under a configuration gives: `None` where it does not
/// parse, else the text of the optimized document and the number of rounds.
pub open spec fn sp_optimize_with_config(input: Seq<char>, c: config::ConfigV) -> Option<
    (Seq<char>, nat),
> {
    match sp_parse(input) {
        None => None,
        Some(d) => {
            let (d2, n) = optimize_doc_with(passes_for(c), d);
            Some((ser_nodes(d2), n))
        },
    }
}

/// Optimize an SVG string with the passes, preset and precision of a configuration
/// (`convertTransform` left out, as for `optimize`).
pub fn optimize_with_config(input: &str, config: &Config) -> (r: Result<OptimizeOutput, ParseError>)
    ensures
        r matches Ok(o) ==> sp_optimize_with_config(input@, config@) == Some(
            (o.data@, o.iterations as nat),
        ),
        r is Err ==> sp_optimize_with_config(input@, config@) is None,
{
    let mut doc = match parse(input) {
        Ok(d) => d,
        Err(e) => {
            return Err(e);
        },
    };
    let passes = config::passes_for_config(config);
    let result = optimizer::optimize_with_passes(&mut doc, &passes);
    let output = serialize(&doc);
    Ok(OptimizeOutput { data: output, iterations: result.iterations })
}

/// Runs the passes of a configuration over a parsed document until a round changes
/// nothing (at most `MAX_ITERATIONS` rounds).
pub fn optimize_document(doc: &mut ast::Document, config: &Config) -> (r: optimizer::OptimizeStats)
    ensures
        (final(doc)@, r.iterations as nat) == optimize_doc_with(passes_for(config@), old(doc)@),
{
    let passes = config::passes_for_config(config);
    optimizer::optimize_with_passes(doc, &passes)
}

/// Convergence under a configuration: where optimizing a text takes fewer than the
/// maximum number of rounds and its output reads back as the document it was written
/// from, optimizing that output again gives the same text after a single round.
pub proof fn lemma_optimize_with_config_idempotent(input: Seq<char>, c: config::ConfigV)
    requires
        sp_parse(input) is Some,
        optimize_doc_with(passes_for(c), sp_parse(input).unwrap()).1 < optimizer::MAX_ITERATIONS,
        sp_parse(ser_nodes(optimize_doc_with(passes_for(c), sp_parse(input).unwrap()).0))
            == Some(optimize_doc_with(passes_for(c), sp_parse(input).unwrap()).0),
    ensures
        sp_optimize_with_config(input, c) matches Some((out, _)) && sp_optimize_with_config(out, c)
            == Some((out, 1nat)),
{
    let d = sp_parse(input).unwrap();
    optimizer::lemma_converged_is_fixed_point(passes_for(c), d);
}

/// Convergence: where optimizing a text takes fewer than the maximum number of rounds and
/// its output reads back as the document it was written from, optimizing that output again
/// gives the same text after a single round.
pub proof fn lemma_optimize_idempotent(input: Seq<char>)
    requires
        sp_parse(input) is Some,
        optimize_doc(sp_parse(input).unwrap()).1 < optimizer::MAX_ITERATIONS,
        sp_parse(ser_nodes(optimize_doc(sp_parse(input).unwrap()).0)) == Some(
            optimize_doc(sp_parse(input).unwrap()).0,
        ),
    ensures
        sp_optimize(input) matches Some((out, _)) && sp_optimize(out) == Some((out, 1nat)),
{
    let d = sp_parse(input).unwrap();
    optimizer::lemma_converged_is_fixed_point(optimizer::pipeline(), d);
}

/// Convergence for documents that write out faithfully: where optimizing a text takes
/// fewer than the maximum number of rounds and leaves a well-formed document, optimizing
/// the output again gives the same text after a single round.
pub proof fn lemma_optimize_converges(input: Seq<char>)
    requires
        sp_parse(input) is Some,
        optimize_doc(sp_parse(input).unwrap()).1 < optimizer::MAX_ITERATIONS,
        roundtrip::wf_nodes(optimize_doc(sp_parse(input).unwrap()).0),
    ensures
        sp_optimize(input) matches Some((out, _)) && sp_optimize(out) == Some((out, 1nat)),
{
    roundtrip::lemma_parse_serialize(optimize_doc(sp_parse(input).unwrap()).0);
    lemma_optimize_idempotent(input);
}

} // verus!
