//! The fixed-point loop: all passes run in order, again and again, until a round changes
//! nothing or ten rounds have run.
use vstd::prelude::*;

use crate::ast::{Document, NodeV};
use crate::passes::cleanup_attrs::CleanupAttrs;
use crate::passes::cleanup_ids::CleanupIds;
use crate::passes::cleanup_numeric_values::CleanupNumericValues;
use crate::passes::collapse_groups::CollapseGroups;
use crate::passes::convert_colors::ConvertColors;
use crate::passes::convert_path_data::ConvertPathData;
use crate::passes::convert_shape_to_path::ConvertShapeToPath;
use crate::passes::merge_paths::MergePaths;
use crate::passes::minify_whitespace::MinifyWhitespace;
use crate::passes::remove_desc::RemoveDesc;
use crate::passes::remove_editor_data::RemoveEditorData;
use crate::passes::remove_empty_attrs::RemoveEmptyAttrs;
use crate::passes::remove_nodes::{
    RemoveComments, RemoveDoctype, RemoveEmptyContainers, RemoveEmptyText, RemoveMetadata,
    RemoveProcInst,
};
use crate::passes::remove_unknowns_and_defaults::RemoveUnknownsAndDefaults;
use crate::passes::remove_unused_namespaces::RemoveUnusedNamespaces;
use crate::passes::{Pass, PassResult};

verus! {

broadcast use vstd::std_specs::vec::group_vec_axioms;

/// Most rounds the loop runs.
pub const MAX_ITERATIONS: usize = 10;

/// One of the passes that the optimizer can run.
pub enum DefaultPass {
    RemoveDoctype(RemoveDoctype),
    RemoveProcInst(RemoveProcInst),
    RemoveComments(RemoveComments),
    RemoveMetadata(RemoveMetadata),
    RemoveEditorData(RemoveEditorData),
    RemoveEmptyAttrs(RemoveEmptyAttrs),
    RemoveEmptyText(RemoveEmptyText),
    RemoveEmptyContainers(RemoveEmptyContainers),
    RemoveUnusedNamespaces(RemoveUnusedNamespaces),
    RemoveDesc(RemoveDesc),
    CleanupAttrs(CleanupAttrs),
    CleanupNumericValues(CleanupNumericValues),
    ConvertColors(ConvertColors),
    RemoveUnknownsAndDefaults(RemoveUnknownsAndDefaults),
    ConvertShapeToPath(ConvertShapeToPath),
    CollapseGroups(CollapseGroups),
    CleanupIds(CleanupIds),
    ConvertPathData(ConvertPathData),
    MergePaths(MergePaths),
    MinifyWhitespace(MinifyWhitespace),
}

impl Pass for DefaultPass {
    open spec fn apply(&self, d: Seq<NodeV>) -> Seq<NodeV> {
        match self {
            DefaultPass::RemoveDoctype(p) => p.apply(d),
            DefaultPass::RemoveProcInst(p) => p.apply(d),
            DefaultPass::RemoveComments(p) => p.apply(d),
            DefaultPass::RemoveMetadata(p) => p.apply(d),
            DefaultPass::RemoveEditorData(p) => p.apply(d),
            DefaultPass::RemoveEmptyAttrs(p) => p.apply(d),
            DefaultPass::RemoveEmptyText(p) => p.apply(d),
            DefaultPass::RemoveEmptyContainers(p) => p.apply(d),
            DefaultPass::RemoveUnusedNamespaces(p) => p.apply(d),
            DefaultPass::RemoveDesc(p) => p.apply(d),
            DefaultPass::CleanupAttrs(p) => p.apply(d),
            DefaultPass::CleanupNumericValues(p) => p.apply(d),
            DefaultPass::ConvertColors(p) => p.apply(d),
            DefaultPass::RemoveUnknownsAndDefaults(p) => p.apply(d),
            DefaultPass::ConvertShapeToPath(p) => p.apply(d),
            DefaultPass::CollapseGroups(p) => p.apply(d),
            DefaultPass::CleanupIds(p) => p.apply(d),
            DefaultPass::ConvertPathData(p) => p.apply(d),
            DefaultPass::MergePaths(p) => p.apply(d),
            DefaultPass::MinifyWhitespace(p) => p.apply(d),
        }
    }

    open spec fn reports_change(&self, d: Seq<NodeV>) -> bool {
        match self {
            DefaultPass::RemoveDoctype(p) => p.reports_change(d),
            DefaultPass::RemoveProcInst(p) => p.reports_change(d),
            DefaultPass::RemoveComments(p) => p.reports_change(d),
            DefaultPass::RemoveMetadata(p) => p.reports_change(d),
            DefaultPass::RemoveEditorData(p) => p.reports_change(d),
            DefaultPass::RemoveEmptyAttrs(p) => p.reports_change(d),
            DefaultPass::RemoveEmptyText(p) => p.reports_change(d),
            DefaultPass::RemoveEmptyContainers(p) => p.reports_change(d),
            DefaultPass::RemoveUnusedNamespaces(p) => p.reports_change(d),
            DefaultPass::RemoveDesc(p) => p.reports_change(d),
            DefaultPass::CleanupAttrs(p) => p.reports_change(d),
            DefaultPass::CleanupNumericValues(p) => p.reports_change(d),
            DefaultPass::ConvertColors(p) => p.reports_change(d),
            DefaultPass::RemoveUnknownsAndDefaults(p) => p.reports_change(d),
            DefaultPass::ConvertShapeToPath(p) => p.reports_change(d),
            DefaultPass::CollapseGroups(p) => p.reports_change(d),
            DefaultPass::CleanupIds(p) => p.reports_change(d),
            DefaultPass::ConvertPathData(p) => p.reports_change(d),
            DefaultPass::MergePaths(p) => p.reports_change(d),
            DefaultPass::MinifyWhitespace(p) => p.reports_change(d),
        }
    }

    open spec fn pass_name(&self) -> Seq<char> {
        match self {
            DefaultPass::RemoveDoctype(p) => p.pass_name(),
            DefaultPass::RemoveProcInst(p) => p.pass_name(),
            DefaultPass::RemoveComments(p) => p.pass_name(),
            DefaultPass::RemoveMetadata(p) => p.pass_name(),
            DefaultPass::RemoveEditorData(p) => p.pass_name(),
            DefaultPass::RemoveEmptyAttrs(p) => p.pass_name(),
            DefaultPass::RemoveEmptyText(p) => p.pass_name(),
            DefaultPass::RemoveEmptyContainers(p) => p.pass_name(),
            DefaultPass::RemoveUnusedNamespaces(p) => p.pass_name(),
            DefaultPass::RemoveDesc(p) => p.pass_name(),
            DefaultPass::CleanupAttrs(p) => p.pass_name(),
            DefaultPass::CleanupNumericValues(p) => p.pass_name(),
            DefaultPass::ConvertColors(p) => p.pass_name(),
            DefaultPass::RemoveUnknownsAndDefaults(p) => p.pass_name(),
            DefaultPass::ConvertShapeToPath(p) => p.pass_name(),
            DefaultPass::CollapseGroups(p) => p.pass_name(),
            DefaultPass::CleanupIds(p) => p.pass_name(),
            DefaultPass::ConvertPathData(p) => p.pass_name(),
            DefaultPass::MergePaths(p) => p.pass_name(),
            DefaultPass::MinifyWhitespace(p) => p.pass_name(),
        }
    }

    fn name(&self) -> (r: &'static str) {
        match self {
            DefaultPass::RemoveDoctype(p) => p.name(),
            DefaultPass::RemoveProcInst(p) => p.name(),
            DefaultPass::RemoveComments(p) => p.name(),
            DefaultPass::RemoveMetadata(p) => p.name(),
            DefaultPass::RemoveEditorData(p) => p.name(),
            DefaultPass::RemoveEmptyAttrs(p) => p.name(),
            DefaultPass::RemoveEmptyText(p) => p.name(),
            DefaultPass::RemoveEmptyContainers(p) => p.name(),
            DefaultPass::RemoveUnusedNamespaces(p) => p.name(),
            DefaultPass::RemoveDesc(p) => p.name(),
            DefaultPass::CleanupAttrs(p) => p.name(),
            DefaultPass::CleanupNumericValues(p) => p.name(),
            DefaultPass::ConvertColors(p) => p.name(),
            DefaultPass::RemoveUnknownsAndDefaults(p) => p.name(),
            DefaultPass::ConvertShapeToPath(p) => p.name(),
            DefaultPass::CollapseGroups(p) => p.name(),
            DefaultPass::CleanupIds(p) => p.name(),
            DefaultPass::ConvertPathData(p) => p.name(),
            DefaultPass::MergePaths(p) => p.name(),
            DefaultPass::MinifyWhitespace(p) => p.name(),
        }
    }

    fn run(&self, doc: &mut Document) -> (r: PassResult) {
        match self {
            DefaultPass::RemoveDoctype(p) => p.run(doc),
            DefaultPass::RemoveProcInst(p) => p.run(doc),
            DefaultPass::RemoveComments(p) => p.run(doc),
            DefaultPass::RemoveMetadata(p) => p.run(doc),
            DefaultPass::RemoveEditorData(p) => p.run(doc),
            DefaultPass::RemoveEmptyAttrs(p) => p.run(doc),
            DefaultPass::RemoveEmptyText(p) => p.run(doc),
            DefaultPass::RemoveEmptyContainers(p) => p.run(doc),
            DefaultPass::RemoveUnusedNamespaces(p) => p.run(doc),
            DefaultPass::RemoveDesc(p) => p.run(doc),
            DefaultPass::CleanupAttrs(p) => p.run(doc),
            DefaultPass::CleanupNumericValues(p) => p.run(doc),
            DefaultPass::ConvertColors(p) => p.run(doc),
            DefaultPass::RemoveUnknownsAndDefaults(p) => p.run(doc),
            DefaultPass::ConvertShapeToPath(p) => p.run(doc),
            DefaultPass::CollapseGroups(p) => p.run(doc),
            DefaultPass::CleanupIds(p) => p.run(doc),
            DefaultPass::ConvertPathData(p) => p.run(doc),
            DefaultPass::MergePaths(p) => p.run(doc),
            DefaultPass::MinifyWhitespace(p) => p.run(doc),
        }
    }

    proof fn lemma_unchanged(&self, d: Seq<NodeV>) {
        match self {
            DefaultPass::RemoveDoctype(p) => p.lemma_unchanged(d),
            DefaultPass::RemoveProcInst(p) => p.lemma_unchanged(d),
            DefaultPass::RemoveComments(p) => p.lemma_unchanged(d),
            DefaultPass::RemoveMetadata(p) => p.lemma_unchanged(d),
            DefaultPass::RemoveEditorData(p) => p.lemma_unchanged(d),
            DefaultPass::RemoveEmptyAttrs(p) => p.lemma_unchanged(d),
            DefaultPass::RemoveEmptyText(p) => p.lemma_unchanged(d),
            DefaultPass::RemoveEmptyContainers(p) => p.lemma_unchanged(d),
            DefaultPass::RemoveUnusedNamespaces(p) => p.lemma_unchanged(d),
            DefaultPass::RemoveDesc(p) => p.lemma_unchanged(d),
            DefaultPass::CleanupAttrs(p) => p.lemma_unchanged(d),
            DefaultPass::CleanupNumericValues(p) => p.lemma_unchanged(d),
            DefaultPass::ConvertColors(p) => p.lemma_unchanged(d),
            DefaultPass::RemoveUnknownsAndDefaults(p) => p.lemma_unchanged(d),
            DefaultPass::ConvertShapeToPath(p) => p.lemma_unchanged(d),
            DefaultPass::CollapseGroups(p) => p.lemma_unchanged(d),
            DefaultPass::CleanupIds(p) => p.lemma_unchanged(d),
            DefaultPass::ConvertPathData(p) => p.lemma_unchanged(d),
            DefaultPass::MergePaths(p) => p.lemma_unchanged(d),
            DefaultPass::MinifyWhitespace(p) => p.lemma_unchanged(d),
        }
    }
}

/// The default passes, in the order they run.
pub open spec fn pipeline() -> Seq<DefaultPass> {
    seq![
        DefaultPass::RemoveDoctype(RemoveDoctype),
        DefaultPass::RemoveProcInst(RemoveProcInst),
        DefaultPass::RemoveComments(RemoveComments),
        DefaultPass::RemoveMetadata(RemoveMetadata),
        DefaultPass::RemoveEditorData(RemoveEditorData),
        DefaultPass::RemoveEmptyAttrs(RemoveEmptyAttrs),
        DefaultPass::RemoveEmptyText(RemoveEmptyText),
        DefaultPass::RemoveEmptyContainers(RemoveEmptyContainers),
        DefaultPass::RemoveUnusedNamespaces(RemoveUnusedNamespaces),
        DefaultPass::CleanupAttrs(CleanupAttrs),
        DefaultPass::CleanupNumericValues(CleanupNumericValues { precision: 3 }),
        DefaultPass::ConvertColors(ConvertColors),
        DefaultPass::RemoveUnknownsAndDefaults(RemoveUnknownsAndDefaults),
        DefaultPass::ConvertShapeToPath(ConvertShapeToPath { precision: 3 }),
        DefaultPass::CollapseGroups(CollapseGroups),
        DefaultPass::CleanupIds(CleanupIds),
        DefaultPass::ConvertPathData(ConvertPathData { precision: 3 }),
        DefaultPass::MergePaths(MergePaths),
        DefaultPass::MinifyWhitespace(MinifyWhitespace),
    ]
}

/// Returns the default set of passes in execution order.
pub fn default_passes() -> (r: Vec<DefaultPass>)
    ensures
        r@ == pipeline(),
{
    let mut v: Vec<DefaultPass> = Vec::new();
    v.push(DefaultPass::RemoveDoctype(RemoveDoctype));
    v.push(DefaultPass::RemoveProcInst(RemoveProcInst));
    v.push(DefaultPass::RemoveComments(RemoveComments));
    v.push(DefaultPass::RemoveMetadata(RemoveMetadata));
    v.push(DefaultPass::RemoveEditorData(RemoveEditorData));
    v.push(DefaultPass::RemoveEmptyAttrs(RemoveEmptyAttrs));
    v.push(DefaultPass::RemoveEmptyText(RemoveEmptyText));
    v.push(DefaultPass::RemoveEmptyContainers(RemoveEmptyContainers));
    v.push(DefaultPass::RemoveUnusedNamespaces(RemoveUnusedNamespaces));
    v.push(DefaultPass::CleanupAttrs(CleanupAttrs));
    v.push(DefaultPass::CleanupNumericValues(CleanupNumericValues::default()));
    v.push(DefaultPass::ConvertColors(ConvertColors));
    v.push(DefaultPass::RemoveUnknownsAndDefaults(RemoveUnknownsAndDefaults));
    v.push(DefaultPass::ConvertShapeToPath(ConvertShapeToPath::default()));
    v.push(DefaultPass::CollapseGroups(CollapseGroups));
    v.push(DefaultPass::CleanupIds(CleanupIds));
    v.push(DefaultPass::ConvertPathData(ConvertPathData::default()));
    v.push(DefaultPass::MergePaths(MergePaths));
    v.push(DefaultPass::MinifyWhitespace(MinifyWhitespace));
    assert(v@ =~= pipeline());
    v
}

/// One round: the passes `ps` run in order on `d`; the document after them and whether
/// any reported a change.
pub open spec fn run_round(ps: Seq<DefaultPass>, d: Seq<NodeV>) -> (Seq<NodeV>, bool)
    decreases ps.len(),
{
    if ps.len() == 0 {
        (d, false)
    } else {
        let (d1, c1) = run_round(ps.drop_last(), d);
        (ps.last().apply(d1), c1 || ps.last().reports_change(d1))
    }
}

/// Rounds of the passes `ps` from the `done`-th on: the document when the loop stops and
/// the number of rounds run in all.
pub open spec fn rounds_from(ps: Seq<DefaultPass>, d: Seq<NodeV>, done: nat) -> (Seq<NodeV>, nat)
    decreases MAX_ITERATIONS - done,
{
    let (d2, changed) = run_round(ps, d);
    if !changed || done + 1 >= MAX_ITERATIONS {
        (d2, done + 1)
    } else {
        rounds_from(ps, d2, done + 1)
    }
}

/// The document after running the passes `ps` to a fixed point, and the number of rounds.
pub open spec fn optimize_doc_with(ps: Seq<DefaultPass>, d: Seq<NodeV>) -> (Seq<NodeV>, nat) {
    rounds_from(ps, d, 0)
}

/// The optimized document under the default passes and the number of rounds it took.
pub open spec fn optimize_doc(d: Seq<NodeV>) -> (Seq<NodeV>, nat) {
    optimize_doc_with(pipeline(), d)
}

/// A round in which no pass reports a change leaves the document as it was.
pub proof fn lemma_quiet_round(ps: Seq<DefaultPass>, d: Seq<NodeV>)
    requires
        !run_round(ps, d).1,
    ensures
        run_round(ps, d).0 == d,
    decreases ps.len(),
{
    if ps.len() > 0 {
        lemma_quiet_round(ps.drop_last(), d);
        ps.last().lemma_unchanged(d);
    }
}

proof fn lemma_rounds_stop(ps: Seq<DefaultPass>, d: Seq<NodeV>, done: nat)
    requires
        done < MAX_ITERATIONS,
    ensures
        1 <= rounds_from(ps, d, done).1 <= MAX_ITERATIONS,
        rounds_from(ps, d, done).1 > done,
        rounds_from(ps, d, done).1 < MAX_ITERATIONS ==> !run_round(ps, rounds_from(ps, d, done).0).1
            && run_round(ps, rounds_from(ps, d, done).0).0 == rounds_from(ps, d, done).0,
    decreases MAX_ITERATIONS - done,
{
    let (d2, changed) = run_round(ps, d);
    if !changed {
        lemma_quiet_round(ps, d);
    } else if done + 1 < MAX_ITERATIONS {
        lemma_rounds_stop(ps, d2, done + 1);
    }
}

/// Fixed point: when the loop stops before its last allowed round, the document it leaves
/// is one on which every pass reports no change, and running the loop on it again takes a
/// single round and leaves it as it is.
pub proof fn lemma_converged_is_fixed_point(ps: Seq<DefaultPass>, d: Seq<NodeV>)
    requires
        optimize_doc_with(ps, d).1 < MAX_ITERATIONS,
    ensures
        !run_round(ps, optimize_doc_with(ps, d).0).1,
        optimize_doc_with(ps, optimize_doc_with(ps, d).0) == (optimize_doc_with(ps, d).0, 1nat),
{
    lemma_rounds_stop(ps, d, 0);
}

/// The loop always runs at least one round and at most `MAX_ITERATIONS`.
pub proof fn lemma_rounds_bounded(ps: Seq<DefaultPass>, d: Seq<NodeV>)
    ensures
        1 <= optimize_doc_with(ps, d).1 <= MAX_ITERATIONS,
{
    lemma_rounds_stop(ps, d, 0);
}

/// The outcome of running the loop: how many rounds it took.
pub struct OptimizeStats {
    pub iterations: usize,
}

/// Runs the passes once over `doc`, in order, and tells whether any reported a change.
pub fn run_passes(doc: &mut Document, passes: &Vec<DefaultPass>) -> (changed: bool)
    ensures
        (final(doc)@, changed) == run_round(passes@, old(doc)@),
{
    let ghost start = doc@;
    let mut changed = false;
    let mut i: usize = 0;
    while i < passes.len()
        invariant
            0 <= i <= passes@.len(),
            start == old(doc)@,
            run_round(passes@.take(i as int), start) == (doc@, changed),
        decreases passes@.len() - i,
    {
        let res = passes[i].run(doc);
        proof {
            assert(passes@.take(i + 1).drop_last() =~= passes@.take(i as int));
            assert(passes@.take(i + 1).last() == passes@[i as int]);
        }
        if res.changed() {
            changed = true;
        }
        i = i + 1;
    }
    proof {
        assert(passes@.take(passes@.len() as int) =~= passes@);
    }
    changed
}

/// Whether the loop runs another round after `rounds` rounds, the last of which changed
/// something or not: it does while rounds change the document, up to `MAX_ITERATIONS`.
pub fn another_round(rounds: usize, changed: bool) -> (r: bool)
    ensures
        r == (changed && rounds < MAX_ITERATIONS),
{
    changed && rounds < MAX_ITERATIONS
}

/// Runs the passes `passes` over `doc`, in order, until a round changes nothing (at most
/// `MAX_ITERATIONS` rounds).
pub fn optimize_with_passes(doc: &mut Document, passes: &Vec<DefaultPass>) -> (r: OptimizeStats)
    ensures
        (final(doc)@, r.iterations as nat) == optimize_doc_with(passes@, old(doc)@),
{
    let mut iterations: usize = 0;
    let ghost d0 = doc@;
    assert(d0 == old(doc)@);
    loop
        invariant
            d0 == old(doc)@,
            iterations < MAX_ITERATIONS,
            optimize_doc_with(passes@, d0) == rounds_from(passes@, doc@, iterations as nat),
        decreases MAX_ITERATIONS - iterations,
    {
        let ghost start = doc@;
        let changed = run_passes(doc, passes);
        let ghost prev = iterations as nat;
        assert(rounds_from(passes@, start, prev) == (if !changed || prev + 1 >= MAX_ITERATIONS {
            (doc@, prev + 1)
        } else {
            rounds_from(passes@, doc@, prev + 1)
        }));
        iterations = iterations + 1;
        if !changed || iterations >= MAX_ITERATIONS {
            assert(optimize_doc_with(passes@, d0) == (doc@, iterations as nat));
            return OptimizeStats { iterations };
        }
    }
}

/// Runs the default passes over `doc` until a round changes nothing (at most
/// `MAX_ITERATIONS` rounds).
pub fn optimize(doc: &mut Document) -> (r: OptimizeStats)
    ensures
        (final(doc)@, r.iterations as nat) == optimize_doc(old(doc)@),
{
    let passes = default_passes();
    optimize_with_passes(doc, &passes)
}

} // verus!
