//! Optimization passes over a `Document`. No pass touches what a `<foreignObject>` holds.
use vstd::prelude::*;

use crate::ast::{Document, NodeV};

pub mod cleanup_attrs;
pub mod cleanup_ids;
pub mod cleanup_numeric_values;
pub mod merge_paths;
pub mod minify_whitespace;
pub mod collapse_groups;
pub mod convert_colors;
pub mod convert_path_data;
pub mod convert_shape_to_path;
pub mod convert_transform;
pub mod remove_desc;
pub mod remove_editor_data;
pub mod remove_empty_attrs;
pub mod remove_nodes;
pub mod remove_unknowns_and_defaults;
pub mod remove_unused_namespaces;

verus! {

/// Result of running a single optimization pass.
#[derive(Debug, Clone, Copy, PartialEq, Eq, Structural)]
pub enum PassResult {
    Changed,
    Unchanged,
}

impl PassResult {
    /// Whether the pass reported a change.
    pub fn changed(self) -> (b: bool)
        ensures
            b == (self == PassResult::Changed),
    {
        match self {
            PassResult::Changed => true,
            PassResult::Unchanged => false,
        }
    }
}

/// The result that a pass reports for a flag saying whether it changed anything.
pub open spec fn result_of(changed: bool) -> PassResult {
    if changed {
        PassResult::Changed
    } else {
        PassResult::Unchanged
    }
}

pub fn result_from(changed: bool) -> (r: PassResult)
    ensures
        r == result_of(changed),
{
    if changed {
        PassResult::Changed
    } else {
        PassResult::Unchanged
    }
}

/// An optimization pass that transforms a Document in place.
pub trait Pass {
    /// The document after the pass has run on `d`.
    spec fn apply(&self, d: Seq<NodeV>) -> Seq<NodeV>;

    /// Whether the pass reports a change when it runs on `d`.
    spec fn reports_change(&self, d: Seq<NodeV>) -> bool;

    /// The pass's name, as configuration files and options name it.
    spec fn pass_name(&self) -> Seq<char>;

    /// The pass's name.
    fn name(&self) -> (r: &'static str)
        ensures
            r@ == self.pass_name(),
    ;

    fn run(&self, doc: &mut Document) -> (r: PassResult)
        ensures
            final(doc)@ == self.apply(old(doc)@),
            r == result_of(self.reports_change(old(doc)@)),
    ;

    /// A pass that reports no change leaves the document as it was.
    proof fn lemma_unchanged(&self, d: Seq<NodeV>)
        requires
            !self.reports_change(d),
        ensures
            self.apply(d) == d,
    ;
}

} // verus!
