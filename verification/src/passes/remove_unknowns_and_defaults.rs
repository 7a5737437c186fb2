use vstd::prelude::*;

use super::{result_from, Pass, PassResult};
use crate::ast::{is_foreign_exec, is_foreign_name, 
    attrs_view, clone_attr, clone_node, clone_opt, lemma_attrs_view_push, lemma_nodes_view_push,
    lemma_take_all, lemma_take_push, nodes_view, AttrV, Attribute, Document, ElemV, Element, Node,
    NodeV,
};
use crate::config::strings_view;
use crate::text::{is_lit, str_eq, string_of};

verus! {

broadcast use vstd::std_specs::vec::group_vec_axioms;

/// Removes attributes whose value is the SVG default.
pub struct RemoveUnknownsAndDefaults;

/// SVG attributes that can be safely removed when they match their default values.
/// Conservative list — only includes values that are unambiguously default per SVG spec.
pub open spec fn is_default_attr(n: Seq<char>, v: Seq<char>) -> bool {
    // Presentation defaults
    ||| n == "fill"@ && (v == "black"@ || v == "#000"@ || v == "#000000"@)
    ||| n == "fill-opacity"@ && v == "1"@
    ||| n == "fill-rule"@ && v == "nonzero"@
    ||| n == "stroke"@ && v == "none"@
    ||| n == "stroke-opacity"@ && v == "1"@
    ||| n == "stroke-width"@ && v == "1"@
    ||| n == "stroke-linecap"@ && v == "butt"@
    ||| n == "stroke-linejoin"@ && v == "miter"@
    ||| n == "stroke-miterlimit"@ && v == "4"@
    ||| n == "stroke-dasharray"@ && v == "none"@
    ||| n == "stroke-dashoffset"@ && v == "0"@
    ||| n == "opacity"@ && v == "1"@
    ||| n == "visibility"@ && v == "visible"@
    ||| n == "display"@ && v == "inline"@
    ||| n == "overflow"@ && v == "visible"@
    ||| n == "clip-rule"@ && v == "nonzero"@
    ||| n == "color-interpolation"@ && v == "sRGB"@
    ||| n == "color-interpolation-filters"@ && v == "linearRGB"@
    ||| n == "direction"@ && v == "ltr"@
    ||| n == "font-style"@ && v == "normal"@
    ||| n == "font-variant"@ && v == "normal"@
    ||| n == "font-weight"@ && v == "normal"@
    ||| n == "font-stretch"@ && v == "normal"@
    ||| n == "text-anchor"@ && v == "start"@
    ||| n == "text-decoration"@ && v == "none"@
    ||| n == "dominant-baseline"@ && v == "auto"@
    ||| n == "alignment-baseline"@ && v == "auto"@
    ||| n == "baseline-shift"@ && (v == "0"@ || v == "baseline"@)
    ||| n == "writing-mode"@ && v == "lr-tb"@
    ||| n == "letter-spacing"@ && v == "normal"@
    ||| n == "word-spacing"@ && v == "normal"@
    ||| n == "filter"@ && v == "none"@
    ||| n == "flood-opacity"@ && v == "1"@
    ||| n == "lighting-color"@ && (v == "white"@ || v == "#fff"@ || v == "#ffffff"@)
    ||| n == "pointer-events"@ && v == "visiblePainted"@
    ||| n == "image-rendering"@ && v == "auto"@
    ||| n == "shape-rendering"@ && v == "auto"@
    ||| n == "text-rendering"@ && v == "auto"@
    ||| n == "color-profile"@ && v == "auto"@
    ||| n == "cursor"@ && v == "auto"@
    ||| n == "enable-background"@ && v == "accumulate"@
    ||| n == "stop-color"@ && (v == "black"@ || v == "#000"@ || v == "#000000"@)
    ||| n == "stop-opacity"@ && v == "1"@
    // SVG filter defaults
    ||| n == "mode"@ && v == "normal"@
    ||| n == "flood-color"@ && (v == "black"@ || v == "#000"@ || v == "#000000"@)
    // Gradient defaults
    ||| n == "spreadMethod"@ && v == "pad"@
    ||| n == "gradientUnits"@ && v == "objectBoundingBox"@
    // Misc defaults
    ||| n == "clip-path"@ && v == "none"@
    ||| n == "mask"@ && v == "none"@
    ||| n == "unicode-bidi"@ && v == "normal"@
    ||| n == "white-space"@ && v == "normal"@
    ||| n == "text-overflow"@ && v == "clip"@
}

/// The SVG default of each attribute that this pass removes, by name: whether `v` is a
/// spelling of the default value of the attribute `n`.
pub open spec fn spec_default(n: Seq<char>, v: Seq<char>) -> bool {
    if n == "fill"@ {
        v == "black"@ || v == "#000"@ || v == "#000000"@
    } else if n == "fill-opacity"@ {
        v == "1"@
    } else if n == "fill-rule"@ {
        v == "nonzero"@
    } else if n == "stroke"@ {
        v == "none"@
    } else if n == "stroke-opacity"@ {
        v == "1"@
    } else if n == "stroke-width"@ {
        v == "1"@
    } else if n == "stroke-linecap"@ {
        v == "butt"@
    } else if n == "stroke-linejoin"@ {
        v == "miter"@
    } else if n == "stroke-miterlimit"@ {
        v == "4"@
    } else if n == "stroke-dasharray"@ {
        v == "none"@
    } else if n == "stroke-dashoffset"@ {
        v == "0"@
    } else if n == "opacity"@ {
        v == "1"@
    } else if n == "visibility"@ {
        v == "visible"@
    } else if n == "display"@ {
        v == "inline"@
    } else if n == "overflow"@ {
        v == "visible"@
    } else if n == "clip-rule"@ {
        v == "nonzero"@
    } else if n == "color-interpolation"@ {
        v == "sRGB"@
    } else if n == "color-interpolation-filters"@ {
        v == "linearRGB"@
    } else if n == "direction"@ {
        v == "ltr"@
    } else if n == "font-style"@ {
        v == "normal"@
    } else if n == "font-variant"@ {
        v == "normal"@
    } else if n == "font-weight"@ {
        v == "normal"@
    } else if n == "font-stretch"@ {
        v == "normal"@
    } else if n == "text-anchor"@ {
        v == "start"@
    } else if n == "text-decoration"@ {
        v == "none"@
    } else if n == "dominant-baseline"@ {
        v == "auto"@
    } else if n == "alignment-baseline"@ {
        v == "auto"@
    } else if n == "baseline-shift"@ {
        v == "0"@ || v == "baseline"@
    } else if n == "writing-mode"@ {
        v == "lr-tb"@
    } else if n == "letter-spacing"@ {
        v == "normal"@
    } else if n == "word-spacing"@ {
        v == "normal"@
    } else if n == "filter"@ {
        v == "none"@
    } else if n == "flood-opacity"@ {
        v == "1"@
    } else if n == "lighting-color"@ {
        v == "white"@ || v == "#fff"@ || v == "#ffffff"@
    } else if n == "pointer-events"@ {
        v == "visiblePainted"@
    } else if n == "image-rendering"@ {
        v == "auto"@
    } else if n == "shape-rendering"@ {
        v == "auto"@
    } else if n == "text-rendering"@ {
        v == "auto"@
    } else if n == "color-profile"@ {
        v == "auto"@
    } else if n == "cursor"@ {
        v == "auto"@
    } else if n == "enable-background"@ {
        v == "accumulate"@
    } else if n == "stop-color"@ {
        v == "black"@ || v == "#000"@ || v == "#000000"@
    } else if n == "stop-opacity"@ {
        v == "1"@
    } else if n == "mode"@ {
        v == "normal"@
    } else if n == "flood-color"@ {
        v == "black"@ || v == "#000"@ || v == "#000000"@
    } else if n == "spreadMethod"@ {
        v == "pad"@
    } else if n == "gradientUnits"@ {
        v == "objectBoundingBox"@
    } else if n == "clip-path"@ {
        v == "none"@
    } else if n == "mask"@ {
        v == "none"@
    } else if n == "unicode-bidi"@ {
        v == "normal"@
    } else if n == "white-space"@ {
        v == "normal"@
    } else if n == "text-overflow"@ {
        v == "clip"@
    } else {
        false
    }
}

/// The defaults the pass removes are exactly those of the table: an attribute counts as a
/// default where, and only where, its value is one of the spellings of its name's default.
pub proof fn lemma_default_table(n: Seq<char>, v: Seq<char>)
    ensures
        is_default_attr(n, v) <==> spec_default(n, v),
{
    reveal_strlit("fill");
    reveal_strlit("fill-opacity");
    reveal_strlit("fill-rule");
    reveal_strlit("stroke");
    reveal_strlit("stroke-opacity");
    reveal_strlit("stroke-width");
    reveal_strlit("stroke-linecap");
    reveal_strlit("stroke-linejoin");
    reveal_strlit("stroke-miterlimit");
    reveal_strlit("stroke-dasharray");
    reveal_strlit("stroke-dashoffset");
    reveal_strlit("opacity");
    reveal_strlit("visibility");
    reveal_strlit("display");
    reveal_strlit("overflow");
    reveal_strlit("clip-rule");
    reveal_strlit("color-interpolation");
    reveal_strlit("color-interpolation-filters");
    reveal_strlit("direction");
    reveal_strlit("font-style");
    reveal_strlit("font-variant");
    reveal_strlit("font-weight");
    reveal_strlit("font-stretch");
    reveal_strlit("text-anchor");
    reveal_strlit("text-decoration");
    reveal_strlit("dominant-baseline");
    reveal_strlit("alignment-baseline");
    reveal_strlit("baseline-shift");
    reveal_strlit("writing-mode");
    reveal_strlit("letter-spacing");
    reveal_strlit("word-spacing");
    reveal_strlit("filter");
    reveal_strlit("flood-opacity");
    reveal_strlit("lighting-color");
    reveal_strlit("pointer-events");
    reveal_strlit("image-rendering");
    reveal_strlit("shape-rendering");
    reveal_strlit("text-rendering");
    reveal_strlit("color-profile");
    reveal_strlit("cursor");
    reveal_strlit("enable-background");
    reveal_strlit("stop-color");
    reveal_strlit("stop-opacity");
    reveal_strlit("mode");
    reveal_strlit("flood-color");
    reveal_strlit("spreadMethod");
    reveal_strlit("gradientUnits");
    reveal_strlit("clip-path");
    reveal_strlit("mask");
    reveal_strlit("unicode-bidi");
    reveal_strlit("white-space");
    reveal_strlit("text-overflow");
    assert("fill"@.len() == 4);
    assert("fill-opacity"@.len() == 12);
    assert("fill-rule"@.len() == 9);
    assert("stroke"@.len() == 6);
    assert("stroke-opacity"@.len() == 14);
    assert("stroke-width"@.len() == 12);
    assert("stroke-linecap"@.len() == 14);
    assert("stroke-linejoin"@.len() == 15);
    assert("stroke-miterlimit"@.len() == 17);
    assert("stroke-dasharray"@.len() == 16);
    assert("stroke-dashoffset"@.len() == 17);
    assert("opacity"@.len() == 7);
    assert("visibility"@.len() == 10);
    assert("display"@.len() == 7);
    assert("overflow"@.len() == 8);
    assert("clip-rule"@.len() == 9);
    assert("color-interpolation"@.len() == 19);
    assert("color-interpolation-filters"@.len() == 27);
    assert("direction"@.len() == 9);
    assert("font-style"@.len() == 10);
    assert("font-variant"@.len() == 12);
    assert("font-weight"@.len() == 11);
    assert("font-stretch"@.len() == 12);
    assert("text-anchor"@.len() == 11);
    assert("text-decoration"@.len() == 15);
    assert("dominant-baseline"@.len() == 17);
    assert("alignment-baseline"@.len() == 18);
    assert("baseline-shift"@.len() == 14);
    assert("writing-mode"@.len() == 12);
    assert("letter-spacing"@.len() == 14);
    assert("word-spacing"@.len() == 12);
    assert("filter"@.len() == 6);
    assert("flood-opacity"@.len() == 13);
    assert("lighting-color"@.len() == 14);
    assert("pointer-events"@.len() == 14);
    assert("image-rendering"@.len() == 15);
    assert("shape-rendering"@.len() == 15);
    assert("text-rendering"@.len() == 14);
    assert("color-profile"@.len() == 13);
    assert("cursor"@.len() == 6);
    assert("enable-background"@.len() == 17);
    assert("stop-color"@.len() == 10);
    assert("stop-opacity"@.len() == 12);
    assert("mode"@.len() == 4);
    assert("flood-color"@.len() == 11);
    assert("spreadMethod"@.len() == 12);
    assert("gradientUnits"@.len() == 13);
    assert("clip-path"@.len() == 9);
    assert("mask"@.len() == 4);
    assert("unicode-bidi"@.len() == 12);
    assert("white-space"@.len() == 11);
    assert("text-overflow"@.len() == 13);
    if n == "fill"@ {
        assert("fill"@[0] != "mode"@[0]);
        assert("fill"@[0] != "mask"@[0]);
        assert(is_default_attr(n, v) <==> spec_default(n, v));
    } else if n == "fill-opacity"@ {
        assert("fill-opacity"@[0] != "stroke-width"@[0]);
        assert("fill-opacity"@[1] != "font-variant"@[1]);
        assert("fill-opacity"@[1] != "font-stretch"@[1]);
        assert("fill-opacity"@[0] != "writing-mode"@[0]);
        assert("fill-opacity"@[0] != "word-spacing"@[0]);
        assert("fill-opacity"@[0] != "stop-opacity"@[0]);
        assert("fill-opacity"@[0] != "spreadMethod"@[0]);
        assert("fill-opacity"@[0] != "unicode-bidi"@[0]);
    } else if n == "fill-rule"@ {
        assert("fill-rule"@[0] != "clip-rule"@[0]);
        assert("fill-rule"@[0] != "direction"@[0]);
        assert("fill-rule"@[0] != "clip-path"@[0]);
        assert(is_default_attr(n, v) <==> spec_default(n, v));
    } else if n == "stroke"@ {
        assert("stroke"@[0] != "filter"@[0]);
        assert("stroke"@[0] != "cursor"@[0]);
    } else if n == "stroke-opacity"@ {
        assert("stroke-opacity"@[7] != "stroke-linecap"@[7]);
        assert("stroke-opacity"@[0] != "baseline-shift"@[0]);
        assert("stroke-opacity"@[0] != "letter-spacing"@[0]);
        assert("stroke-opacity"@[0] != "lighting-color"@[0]);
        assert("stroke-opacity"@[0] != "pointer-events"@[0]);
        assert("stroke-opacity"@[0] != "text-rendering"@[0]);
        assert(is_default_attr(n, v) <==> spec_default(n, v));
    } else if n == "stroke-width"@ {
        assert("stroke-width"@[0] != "fill-opacity"@[0]);
        assert("stroke-width"@[0] != "font-variant"@[0]);
        assert("stroke-width"@[0] != "font-stretch"@[0]);
        assert("stroke-width"@[0] != "writing-mode"@[0]);
        assert("stroke-width"@[0] != "word-spacing"@[0]);
        assert("stroke-width"@[2] != "stop-opacity"@[2]);
        assert("stroke-width"@[1] != "spreadMethod"@[1]);
        assert("stroke-width"@[0] != "unicode-bidi"@[0]);
    } else if n == "stroke-linecap"@ {
        assert("stroke-linecap"@[7] != "stroke-opacity"@[7]);
        assert("stroke-linecap"@[0] != "baseline-shift"@[0]);
        assert("stroke-linecap"@[0] != "letter-spacing"@[0]);
        assert("stroke-linecap"@[0] != "lighting-color"@[0]);
        assert("stroke-linecap"@[0] != "pointer-events"@[0]);
        assert("stroke-linecap"@[0] != "text-rendering"@[0]);
        assert(is_default_attr(n, v) <==> spec_default(n, v));
    } else if n == "stroke-linejoin"@ {
        assert("stroke-linejoin"@[0] != "text-decoration"@[0]);
        assert("stroke-linejoin"@[0] != "image-rendering"@[0]);
        assert("stroke-linejoin"@[1] != "shape-rendering"@[1]);
    } else if n == "stroke-miterlimit"@ {
        assert("stroke-miterlimit"@[7] != "stroke-dashoffset"@[7]);
        assert("stroke-miterlimit"@[0] != "dominant-baseline"@[0]);
        assert("stroke-miterlimit"@[0] != "enable-background"@[0]);
        assert(is_default_attr(n, v) <==> spec_default(n, v));
    } else if n == "stroke-dasharray"@ {

    } else if n == "stroke-dashoffset"@ {
        assert("stroke-dashoffset"@[7] != "stroke-miterlimit"@[7]);
        assert("stroke-dashoffset"@[0] != "dominant-baseline"@[0]);
        assert("stroke-dashoffset"@[0] != "enable-background"@[0]);
        assert(is_default_attr(n, v) <==> spec_default(n, v));
    } else if n == "opacity"@ {
        assert("opacity"@[0] != "display"@[0]);
    } else if n == "visibility"@ {
        assert("visibility"@[0] != "font-style"@[0]);
        assert("visibility"@[0] != "stop-color"@[0]);
        assert(is_default_attr(n, v) <==> spec_default(n, v));
    } else if n == "display"@ {
        assert("display"@[0] != "opacity"@[0]);
    } else if n == "overflow"@ {
        assert(is_default_attr(n, v) <==> spec_default(n, v));

    } else if n == "clip-rule"@ {
        assert("clip-rule"@[0] != "fill-rule"@[0]);
        assert("clip-rule"@[0] != "direction"@[0]);
        assert("clip-rule"@[5] != "clip-path"@[5]);
        assert(is_default_attr(n, v) <==> spec_default(n, v));
    } else if n == "color-interpolation"@ {

    } else if n == "color-interpolation-filters"@ {
        assert(is_default_attr(n, v) <==> spec_default(n, v));

    } else if n == "direction"@ {
        assert("direction"@[0] != "fill-rule"@[0]);
        assert("direction"@[0] != "clip-rule"@[0]);
        assert("direction"@[0] != "clip-path"@[0]);
        assert(is_default_attr(n, v) <==> spec_default(n, v));
    } else if n == "font-style"@ {
        assert("font-style"@[0] != "visibility"@[0]);
        assert("font-style"@[0] != "stop-color"@[0]);
    } else if n == "font-variant"@ {
        assert("font-variant"@[1] != "fill-opacity"@[1]);
        assert("font-variant"@[0] != "stroke-width"@[0]);
        assert("font-variant"@[5] != "font-stretch"@[5]);
        assert("font-variant"@[0] != "writing-mode"@[0]);
        assert("font-variant"@[0] != "word-spacing"@[0]);
        assert("font-variant"@[0] != "stop-opacity"@[0]);
        assert("font-variant"@[0] != "spreadMethod"@[0]);
        assert("font-variant"@[0] != "unicode-bidi"@[0]);
        assert(is_default_attr(n, v) <==> spec_default(n, v));
    } else if n == "font-weight"@ {
        assert("font-weight"@[0] != "text-anchor"@[0]);
        assert("font-weight"@[1] != "flood-color"@[1]);
        assert("font-weight"@[0] != "white-space"@[0]);
    } else if n == "font-stretch"@ {
        assert("font-stretch"@[1] != "fill-opacity"@[1]);
        assert("font-stretch"@[0] != "stroke-width"@[0]);
        assert("font-stretch"@[5] != "font-variant"@[5]);
        assert("font-stretch"@[0] != "writing-mode"@[0]);
        assert("font-stretch"@[0] != "word-spacing"@[0]);
        assert("font-stretch"@[0] != "stop-opacity"@[0]);
        assert("font-stretch"@[0] != "spreadMethod"@[0]);
        assert("font-stretch"@[0] != "unicode-bidi"@[0]);
        assert(is_default_attr(n, v) <==> spec_default(n, v));
    } else if n == "text-anchor"@ {
        assert("text-anchor"@[0] != "font-weight"@[0]);
        assert("text-anchor"@[0] != "flood-color"@[0]);
        assert("text-anchor"@[0] != "white-space"@[0]);
    } else if n == "text-decoration"@ {
        assert("text-decoration"@[0] != "stroke-linejoin"@[0]);
        assert("text-decoration"@[0] != "image-rendering"@[0]);
        assert("text-decoration"@[0] != "shape-rendering"@[0]);
        assert(is_default_attr(n, v) <==> spec_default(n, v));
    } else if n == "dominant-baseline"@ {
        assert("dominant-baseline"@[0] != "stroke-miterlimit"@[0]);
        assert("dominant-baseline"@[0] != "stroke-dashoffset"@[0]);
        assert("dominant-baseline"@[0] != "enable-background"@[0]);
    } else if n == "alignment-baseline"@ {
        assert(is_default_attr(n, v) <==> spec_default(n, v));

    } else if n == "baseline-shift"@ {
        assert("baseline-shift"@[0] != "stroke-opacity"@[0]);
        assert("baseline-shift"@[0] != "stroke-linecap"@[0]);
        assert("baseline-shift"@[0] != "letter-spacing"@[0]);
        assert("baseline-shift"@[0] != "lighting-color"@[0]);
        assert("baseline-shift"@[0] != "pointer-events"@[0]);
        assert("baseline-shift"@[0] != "text-rendering"@[0]);
        assert(is_default_attr(n, v) <==> spec_default(n, v));
    } else if n == "writing-mode"@ {
        assert("writing-mode"@[0] != "fill-opacity"@[0]);
        assert("writing-mode"@[0] != "stroke-width"@[0]);
        assert("writing-mode"@[0] != "font-variant"@[0]);
        assert("writing-mode"@[0] != "font-stretch"@[0]);
        assert("writing-mode"@[1] != "word-spacing"@[1]);
        assert("writing-mode"@[0] != "stop-opacity"@[0]);
        assert("writing-mode"@[0] != "spreadMethod"@[0]);
        assert("writing-mode"@[0] != "unicode-bidi"@[0]);
    } else if n == "letter-spacing"@ {
        assert("letter-spacing"@[0] != "stroke-opacity"@[0]);
        assert("letter-spacing"@[0] != "stroke-linecap"@[0]);
        assert("letter-spacing"@[0] != "baseline-shift"@[0]);
        assert("letter-spacing"@[1] != "lighting-color"@[1]);
        assert("letter-spacing"@[0] != "pointer-events"@[0]);
        assert("letter-spacing"@[0] != "text-rendering"@[0]);
        assert(is_default_attr(n, v) <==> spec_default(n, v));
    } else if n == "word-spacing"@ {
        assert("word-spacing"@[0] != "fill-opacity"@[0]);
        assert("word-spacing"@[0] != "stroke-width"@[0]);
        assert("word-spacing"@[0] != "font-variant"@[0]);
        assert("word-spacing"@[0] != "font-stretch"@[0]);
        assert("word-spacing"@[1] != "writing-mode"@[1]);
        assert("word-spacing"@[0] != "stop-opacity"@[0]);
        assert("word-spacing"@[0] != "spreadMethod"@[0]);
        assert("word-spacing"@[0] != "unicode-bidi"@[0]);
    } else if n == "filter"@ {
        assert("filter"@[0] != "stroke"@[0]);
        assert("filter"@[0] != "cursor"@[0]);
        assert(is_default_attr(n, v) <==> spec_default(n, v));
    } else if n == "flood-opacity"@ {
        assert("flood-opacity"@[0] != "color-profile"@[0]);
        assert("flood-opacity"@[0] != "gradientUnits"@[0]);
        assert("flood-opacity"@[0] != "text-overflow"@[0]);
    } else if n == "lighting-color"@ {
        assert("lighting-color"@[0] != "stroke-opacity"@[0]);
        assert("lighting-color"@[0] != "stroke-linecap"@[0]);
        assert("lighting-color"@[0] != "baseline-shift"@[0]);
        assert("lighting-color"@[1] != "letter-spacing"@[1]);
        assert("lighting-color"@[0] != "pointer-events"@[0]);
        assert("lighting-color"@[0] != "text-rendering"@[0]);
        assert(is_default_attr(n, v) <==> spec_default(n, v));
    } else if n == "pointer-events"@ {
        assert("pointer-events"@[0] != "stroke-opacity"@[0]);
        assert("pointer-events"@[0] != "stroke-linecap"@[0]);
        assert("pointer-events"@[0] != "baseline-shift"@[0]);
        assert("pointer-events"@[0] != "letter-spacing"@[0]);
        assert("pointer-events"@[0] != "lighting-color"@[0]);
        assert("pointer-events"@[0] != "text-rendering"@[0]);
    } else if n == "image-rendering"@ {
        assert("image-rendering"@[0] != "stroke-linejoin"@[0]);
        assert("image-rendering"@[0] != "text-decoration"@[0]);
        assert("image-rendering"@[0] != "shape-rendering"@[0]);
        assert(is_default_attr(n, v) <==> spec_default(n, v));
    } else if n == "shape-rendering"@ {
        assert("shape-rendering"@[1] != "stroke-linejoin"@[1]);
        assert("shape-rendering"@[0] != "text-decoration"@[0]);
        assert("shape-rendering"@[0] != "image-rendering"@[0]);
    } else if n == "text-rendering"@ {
        assert("text-rendering"@[0] != "stroke-opacity"@[0]);
        assert("text-rendering"@[0] != "stroke-linecap"@[0]);
        assert("text-rendering"@[0] != "baseline-shift"@[0]);
        assert("text-rendering"@[0] != "letter-spacing"@[0]);
        assert("text-rendering"@[0] != "lighting-color"@[0]);
        assert("text-rendering"@[0] != "pointer-events"@[0]);
        assert(is_default_attr(n, v) <==> spec_default(n, v));
    } else if n == "color-profile"@ {
        assert("color-profile"@[0] != "flood-opacity"@[0]);
        assert("color-profile"@[0] != "gradientUnits"@[0]);
        assert("color-profile"@[0] != "text-overflow"@[0]);
    } else if n == "cursor"@ {
        assert("cursor"@[0] != "stroke"@[0]);
        assert("cursor"@[0] != "filter"@[0]);
        assert(is_default_attr(n, v) <==> spec_default(n, v));
    } else if n == "enable-background"@ {
        assert("enable-background"@[0] != "stroke-miterlimit"@[0]);
        assert("enable-background"@[0] != "stroke-dashoffset"@[0]);
        assert("enable-background"@[0] != "dominant-baseline"@[0]);
    } else if n == "stop-color"@ {
        assert("stop-color"@[0] != "visibility"@[0]);
        assert("stop-color"@[0] != "font-style"@[0]);
        assert(is_default_attr(n, v) <==> spec_default(n, v));
    } else if n == "stop-opacity"@ {
        assert("stop-opacity"@[0] != "fill-opacity"@[0]);
        assert("stop-opacity"@[2] != "stroke-width"@[2]);
        assert("stop-opacity"@[0] != "font-variant"@[0]);
        assert("stop-opacity"@[0] != "font-stretch"@[0]);
        assert("stop-opacity"@[0] != "writing-mode"@[0]);
        assert("stop-opacity"@[0] != "word-spacing"@[0]);
        assert("stop-opacity"@[1] != "spreadMethod"@[1]);
        assert("stop-opacity"@[0] != "unicode-bidi"@[0]);
    } else if n == "mode"@ {
        assert("mode"@[0] != "fill"@[0]);
        assert("mode"@[1] != "mask"@[1]);
        assert(is_default_attr(n, v) <==> spec_default(n, v));
    } else if n == "flood-color"@ {
        assert("flood-color"@[1] != "font-weight"@[1]);
        assert("flood-color"@[0] != "text-anchor"@[0]);
        assert("flood-color"@[0] != "white-space"@[0]);
    } else if n == "spreadMethod"@ {
        assert("spreadMethod"@[0] != "fill-opacity"@[0]);
        assert("spreadMethod"@[1] != "stroke-width"@[1]);
        assert("spreadMethod"@[0] != "font-variant"@[0]);
        assert("spreadMethod"@[0] != "font-stretch"@[0]);
        assert("spreadMethod"@[0] != "writing-mode"@[0]);
        assert("spreadMethod"@[0] != "word-spacing"@[0]);
        assert("spreadMethod"@[1] != "stop-opacity"@[1]);
        assert("spreadMethod"@[0] != "unicode-bidi"@[0]);
        assert(is_default_attr(n, v) <==> spec_default(n, v));
    } else if n == "gradientUnits"@ {
        assert("gradientUnits"@[0] != "flood-opacity"@[0]);
        assert("gradientUnits"@[0] != "color-profile"@[0]);
        assert("gradientUnits"@[0] != "text-overflow"@[0]);
    } else if n == "clip-path"@ {
        assert("clip-path"@[0] != "fill-rule"@[0]);
        assert("clip-path"@[5] != "clip-rule"@[5]);
        assert("clip-path"@[0] != "direction"@[0]);
        assert(is_default_attr(n, v) <==> spec_default(n, v));
    } else if n == "mask"@ {
        assert("mask"@[0] != "fill"@[0]);
        assert("mask"@[1] != "mode"@[1]);
    } else if n == "unicode-bidi"@ {
        assert("unicode-bidi"@[0] != "fill-opacity"@[0]);
        assert("unicode-bidi"@[0] != "stroke-width"@[0]);
        assert("unicode-bidi"@[0] != "font-variant"@[0]);
        assert("unicode-bidi"@[0] != "font-stretch"@[0]);
        assert("unicode-bidi"@[0] != "writing-mode"@[0]);
        assert("unicode-bidi"@[0] != "word-spacing"@[0]);
        assert("unicode-bidi"@[0] != "stop-opacity"@[0]);
        assert("unicode-bidi"@[0] != "spreadMethod"@[0]);
        assert(is_default_attr(n, v) <==> spec_default(n, v));
    } else if n == "white-space"@ {
        assert("white-space"@[0] != "font-weight"@[0]);
        assert("white-space"@[0] != "text-anchor"@[0]);
        assert("white-space"@[0] != "flood-color"@[0]);
    } else if n == "text-overflow"@ {
        assert("text-overflow"@[0] != "flood-opacity"@[0]);
        assert("text-overflow"@[0] != "color-profile"@[0]);
        assert("text-overflow"@[0] != "gradientUnits"@[0]);
        assert(is_default_attr(n, v) <==> spec_default(n, v));
    }
}

/// The pass keeps what is not a default and removes only defaults: on an element other than
/// `<svg>`, an unprefixed attribute whose value is not its name's default (by the table)
/// stays, and every attribute that stays is prefixed, not a default, or set by an ancestor.
pub proof fn lemma_keeps_non_defaults(
    elem: Seq<char>,
    s: Seq<AttrV>,
    inherited: Seq<Seq<char>>,
    k: int,
)
    requires
        elem != "svg"@,
        0 <= k < s.len(),
    ensures
        s[k].prefix is None && !spec_default(s[k].name, s[k].value) ==> kept_attrs(
            elem,
            s,
            inherited,
        ).contains(s[k]),
        forall|j: int|
            0 <= j < kept_attrs(elem, s, inherited).len() ==> ({
                let x = #[trigger] kept_attrs(elem, s, inherited)[j];
                &&& s.contains(x)
                &&& x.prefix is Some || inherited.contains(x.name) || !spec_default(x.name, x.value)
            }),
    decreases s.len(),
{
    lemma_default_table(s[k].name, s[k].value);
    lemma_kept_members(elem, s, inherited);
    if k == s.len() - 1 {
        if keeps_attr(elem, s.last(), inherited) {
            let r = kept_attrs(elem, s.drop_last(), inherited);
            assert(kept_attrs(elem, s, inherited)[r.len() as int] == s[k]);
        }
    } else {
        lemma_keeps_non_defaults(elem, s.drop_last(), inherited, k);
        let r = kept_attrs(elem, s.drop_last(), inherited);
        if s[k].prefix is None && !spec_default(s[k].name, s[k].value) {
            let j = choose|j: int| 0 <= j < r.len() && r[j] == s[k];
            if keeps_attr(elem, s.last(), inherited) {
                assert(kept_attrs(elem, s, inherited)[j] == s[k]);
            }
        }
    }
}

proof fn lemma_kept_members(elem: Seq<char>, s: Seq<AttrV>, inherited: Seq<Seq<char>>)
    requires
        elem != "svg"@,
    ensures
        forall|j: int|
            0 <= j < kept_attrs(elem, s, inherited).len() ==> ({
                let x = #[trigger] kept_attrs(elem, s, inherited)[j];
                &&& s.contains(x)
                &&& x.prefix is Some || inherited.contains(x.name) || !spec_default(x.name, x.value)
            }),
    decreases s.len(),
{
    if s.len() > 0 {
        lemma_kept_members(elem, s.drop_last(), inherited);
        let r = kept_attrs(elem, s.drop_last(), inherited);
        let x = s.last();
        lemma_default_table(x.name, x.value);
        assert forall|j: int| 0 <= j < kept_attrs(elem, s, inherited).len() implies ({
            let y = #[trigger] kept_attrs(elem, s, inherited)[j];
            &&& s.contains(y)
            &&& y.prefix is Some || inherited.contains(y.name) || !spec_default(y.name, y.value)
        }) by {
            let y = kept_attrs(elem, s, inherited)[j];
            if j < r.len() {
                assert(y == r[j]);
                let i = choose|i: int| 0 <= i < s.drop_last().len() && s.drop_last()[i] == y;
                assert(s[i] == y);
            } else {
                assert(y == x);
                assert(s[s.len() - 1] == y);
            }
        }
    }
}

/// The names of the attributes without prefix, in order.
pub open spec fn set_names(s: Seq<AttrV>) -> Seq<Seq<char>>
    decreases s.len(),
{
    if s.len() == 0 {
        seq![]
    } else if s.last().prefix is None {
        set_names(s.drop_last()).push(s.last().name)
    } else {
        set_names(s.drop_last())
    }
}

/// Whether an attribute stays on an element named `elem`, `inherited` being the names
/// that ancestors set. Prefixed attributes always stay; on `<svg>`, `version` and
/// `x="0"`/`y="0"` go while `fill` stays (it is inherited by the children); elsewhere a
/// spec default goes, unless an ancestor sets the same attribute (the default then
/// overrides what would be inherited).
pub open spec fn keeps_attr(elem: Seq<char>, a: AttrV, inherited: Seq<Seq<char>>) -> bool {
    if a.prefix is Some {
        true
    } else if a.name == "version"@ && elem == "svg"@ {
        false
    } else if (a.name == "x"@ || a.name == "y"@) && a.value == "0"@ && elem == "svg"@ {
        false
    } else if a.name == "fill"@ && elem == "svg"@ {
        true
    } else if inherited.contains(a.name) {
        true
    } else {
        !is_default_attr(a.name, a.value)
    }
}

/// The attributes that stay, in order.
pub open spec fn kept_attrs(elem: Seq<char>, s: Seq<AttrV>, inherited: Seq<Seq<char>>) -> Seq<
    AttrV,
>
    decreases s.len(),
{
    if s.len() == 0 {
        Seq::empty()
    } else if keeps_attr(elem, s.last(), inherited) {
        kept_attrs(elem, s.drop_last(), inherited).push(s.last())
    } else {
        kept_attrs(elem, s.drop_last(), inherited)
    }
}

pub open spec fn rd_node(n: NodeV, inherited: Seq<Seq<char>>) -> (NodeV, bool)
    decreases n,
{
    match n {
        NodeV::Element(e) => {
            let attrs = kept_attrs(e.name, e.attrs, inherited);
            let (children, c) = if is_foreign_name(e.name) {
                (e.children, false)
            } else {
                rd_nodes(e.children, inherited + set_names(e.attrs))
            };
            (NodeV::Element(ElemV { attrs, children, ..e }), attrs.len() != e.attrs.len() || c)
        },
        _ => (n, false),
    }
}

pub open spec fn rd_nodes(s: Seq<NodeV>, inherited: Seq<Seq<char>>) -> (Seq<NodeV>, bool)
    decreases s,
{
    if s.len() == 0 {
        (Seq::empty(), false)
    } else {
        let (r, c) = rd_nodes(s.drop_last(), inherited);
        let (n, c2) = rd_node(s.last(), inherited);
        (r.push(n), c || c2)
    }
}

proof fn lemma_kept_len(elem: Seq<char>, s: Seq<AttrV>, inh: Seq<Seq<char>>)
    ensures
        kept_attrs(elem, s, inh).len() <= s.len(),
        kept_attrs(elem, s, inh).len() == s.len() ==> kept_attrs(elem, s, inh) == s,
    decreases s.len(),
{
    if s.len() > 0 {
        lemma_kept_len(elem, s.drop_last(), inh);
        if keeps_attr(elem, s.last(), inh) && kept_attrs(elem, s, inh).len() == s.len() {
            assert(kept_attrs(elem, s.drop_last(), inh) == s.drop_last());
            assert(kept_attrs(elem, s, inh) =~= s);
        }
    }
}

proof fn lemma_rd_node_unchanged(n: NodeV, inh: Seq<Seq<char>>)
    requires
        !rd_node(n, inh).1,
    ensures
        rd_node(n, inh).0 == n,
    decreases n,
{
    match n {
        NodeV::Element(e) => {
            lemma_kept_len(e.name, e.attrs, inh);
            if !is_foreign_name(e.name) {
                lemma_rd_nodes_unchanged(e.children, inh + set_names(e.attrs));
            }
        },
        _ => {},
    }
}

proof fn lemma_rd_nodes_unchanged(s: Seq<NodeV>, inh: Seq<Seq<char>>)
    requires
        !rd_nodes(s, inh).1,
    ensures
        rd_nodes(s, inh).0 == s,
    decreases s,
{
    if s.len() > 0 {
        lemma_rd_nodes_unchanged(s.drop_last(), inh);
        lemma_rd_node_unchanged(s.last(), inh);
        assert(rd_nodes(s, inh).0 =~= s);
    }
}

fn is_default_attr_exec(n: &String, v: &String) -> (b: bool)
    ensures
        b == is_default_attr(n@, v@),
{
    (is_lit(n, "fill") && (is_lit(v, "black") || is_lit(v, "#000") || is_lit(v, "#000000")))
        || (is_lit(n, "fill-opacity") && is_lit(v, "1"))
        || (is_lit(n, "fill-rule") && is_lit(v, "nonzero"))
        || (is_lit(n, "stroke") && is_lit(v, "none"))
        || (is_lit(n, "stroke-opacity") && is_lit(v, "1"))
        || (is_lit(n, "stroke-width") && is_lit(v, "1"))
        || (is_lit(n, "stroke-linecap") && is_lit(v, "butt"))
        || (is_lit(n, "stroke-linejoin") && is_lit(v, "miter"))
        || (is_lit(n, "stroke-miterlimit") && is_lit(v, "4"))
        || (is_lit(n, "stroke-dasharray") && is_lit(v, "none"))
        || (is_lit(n, "stroke-dashoffset") && is_lit(v, "0"))
        || (is_lit(n, "opacity") && is_lit(v, "1"))
        || (is_lit(n, "visibility") && is_lit(v, "visible"))
        || (is_lit(n, "display") && is_lit(v, "inline"))
        || (is_lit(n, "overflow") && is_lit(v, "visible"))
        || (is_lit(n, "clip-rule") && is_lit(v, "nonzero"))
        || (is_lit(n, "color-interpolation") && is_lit(v, "sRGB"))
        || (is_lit(n, "color-interpolation-filters") && is_lit(v, "linearRGB"))
        || (is_lit(n, "direction") && is_lit(v, "ltr"))
        || (is_lit(n, "font-style") && is_lit(v, "normal"))
        || (is_lit(n, "font-variant") && is_lit(v, "normal"))
        || (is_lit(n, "font-weight") && is_lit(v, "normal"))
        || (is_lit(n, "font-stretch") && is_lit(v, "normal"))
        || (is_lit(n, "text-anchor") && is_lit(v, "start"))
        || (is_lit(n, "text-decoration") && is_lit(v, "none"))
        || (is_lit(n, "dominant-baseline") && is_lit(v, "auto"))
        || (is_lit(n, "alignment-baseline") && is_lit(v, "auto"))
        || (is_lit(n, "baseline-shift") && (is_lit(v, "0") || is_lit(v, "baseline")))
        || (is_lit(n, "writing-mode") && is_lit(v, "lr-tb"))
        || (is_lit(n, "letter-spacing") && is_lit(v, "normal"))
        || (is_lit(n, "word-spacing") && is_lit(v, "normal"))
        || (is_lit(n, "filter") && is_lit(v, "none"))
        || (is_lit(n, "flood-opacity") && is_lit(v, "1"))
        || (is_lit(n, "lighting-color") && (is_lit(v, "white") || is_lit(v, "#fff") || is_lit(v, "#ffffff")))
        || (is_lit(n, "pointer-events") && is_lit(v, "visiblePainted"))
        || (is_lit(n, "image-rendering") && is_lit(v, "auto"))
        || (is_lit(n, "shape-rendering") && is_lit(v, "auto"))
        || (is_lit(n, "text-rendering") && is_lit(v, "auto"))
        || (is_lit(n, "color-profile") && is_lit(v, "auto"))
        || (is_lit(n, "cursor") && is_lit(v, "auto"))
        || (is_lit(n, "enable-background") && is_lit(v, "accumulate"))
        || (is_lit(n, "stop-color") && (is_lit(v, "black") || is_lit(v, "#000") || is_lit(v, "#000000")))
        || (is_lit(n, "stop-opacity") && is_lit(v, "1"))
        || (is_lit(n, "mode") && is_lit(v, "normal"))
        || (is_lit(n, "flood-color") && (is_lit(v, "black") || is_lit(v, "#000") || is_lit(v, "#000000")))
        || (is_lit(n, "spreadMethod") && is_lit(v, "pad"))
        || (is_lit(n, "gradientUnits") && is_lit(v, "objectBoundingBox"))
        || (is_lit(n, "clip-path") && is_lit(v, "none"))
        || (is_lit(n, "mask") && is_lit(v, "none"))
        || (is_lit(n, "unicode-bidi") && is_lit(v, "normal"))
        || (is_lit(n, "white-space") && is_lit(v, "normal"))
        || (is_lit(n, "text-overflow") && is_lit(v, "clip"))
}

fn names_contain(names: &Vec<String>, n: &String) -> (b: bool)
    ensures
        b == strings_view(names@).contains(n@),
{
    let ghost nv = strings_view(names@);
    let mut i: usize = 0;
    while i < names.len()
        invariant
            0 <= i <= names@.len(),
            nv == strings_view(names@),
            forall|k: int| 0 <= k < i ==> nv[k] != n@,
        decreases names@.len() - i,
    {
        assert(nv[i as int] == names@[i as int]@);
        if str_eq(names[i].as_str(), n.as_str()) {
            return true;
        }
        i += 1;
    }
    false
}

/// The names that ancestors set, with those of `attrs` added.
fn names_below(inh: &Vec<String>, attrs: &Vec<Attribute>) -> (r: Vec<String>)
    ensures
        strings_view(r@) == strings_view(inh@) + set_names(attrs_view(attrs@)),
{
    let mut out: Vec<String> = Vec::new();
    let mut i: usize = 0;
    while i < inh.len()
        invariant
            0 <= i <= inh@.len(),
            strings_view(out@) == strings_view(inh@.take(i as int)),
        decreases inh@.len() - i,
    {
        let t = string_of(inh[i].as_str());
        proof {
            assert(strings_view(out@.push(t)) =~= strings_view(out@).push(t@));
            assert(strings_view(inh@.take(i + 1)) =~= strings_view(inh@.take(i as int)).push(inh@[i as int]@));
        }
        out.push(t);
        i += 1;
    }
    proof {
        assert(inh@.take(inh@.len() as int) =~= inh@);
        crate::ast::lemma_attrs_view(attrs@);
    }
    let ghost base = strings_view(inh@);
    let mut j: usize = 0;
    while j < attrs.len()
        invariant
            0 <= j <= attrs@.len(),
            base == strings_view(inh@),
            attrs_view(attrs@).len() == attrs@.len(),
            forall|k: int| 0 <= k < attrs@.len() ==> #[trigger] attrs_view(attrs@)[k] == attrs@[k]@,
            strings_view(out@) == base + set_names(attrs_view(attrs@).take(j as int)),
        decreases attrs@.len() - j,
    {
        let ghost av = attrs_view(attrs@);
        proof {
            assert(av.take(j + 1).drop_last() =~= av.take(j as int));
            assert(av.take(j + 1).last() == attrs@[j as int]@);
        }
        if attrs[j].prefix.is_none() {
            let t = string_of(attrs[j].name.as_str());
            proof {
                assert(strings_view(out@.push(t)) =~= strings_view(out@).push(t@));
                assert(base + set_names(av.take(j as int)).push(t@) =~= (base + set_names(
                    av.take(j as int),
                )).push(t@));
            }
            out.push(t);
        }
        j += 1;
    }
    proof {
        assert(attrs_view(attrs@).take(attrs@.len() as int) =~= attrs_view(attrs@));
    }
    out
}

fn keeps_attr_exec(elem: &String, a: &Attribute, inh: &Vec<String>) -> (b: bool)
    ensures
        b == keeps_attr(elem@, a@, strings_view(inh@)),
{
    if a.prefix.is_some() {
        return true;
    }
    let is_svg = is_lit(elem, "svg");
    if is_lit(&a.name, "version") && is_svg {
        return false;
    }
    if (is_lit(&a.name, "x") || is_lit(&a.name, "y")) && is_lit(&a.value, "0") && is_svg {
        return false;
    }
    if is_lit(&a.name, "fill") && is_svg {
        return true;
    }
    if names_contain(inh, &a.name) {
        return true;
    }
    !is_default_attr_exec(&a.name, &a.value)
}

fn kept_attr_list(elem: &String, v: &Vec<Attribute>, inh: &Vec<String>) -> (r: Vec<Attribute>)
    ensures
        attrs_view(r@) == kept_attrs(elem@, attrs_view(v@), strings_view(inh@)),
{
    let mut out: Vec<Attribute> = Vec::new();
    let mut i: usize = 0;
    while i < v.len()
        invariant
            0 <= i <= v@.len(),
            attrs_view(out@) == kept_attrs(elem@, attrs_view(v@.take(i as int)), strings_view(inh@)),
        decreases v@.len() - i,
    {
        proof {
            lemma_attrs_view_push(v@.take(i as int), v@[i as int]);
            assert(v@.take(i as int).push(v@[i as int]) =~= v@.take(i + 1));
            let t = attrs_view(v@.take(i + 1));
            assert(t.drop_last() =~= attrs_view(v@.take(i as int)));
        }
        if keeps_attr_exec(elem, &v[i], inh) {
            let a = clone_attr(&v[i]);
            proof {
                lemma_attrs_view_push(out@, a);
            }
            out.push(a);
        }
        i += 1;
    }
    assert(v@.take(v@.len() as int) =~= v@);
    out
}

fn rd_node_exec(n: &Node, inh: &Vec<String>) -> (r: (Node, bool))
    ensures
        (r.0@, r.1) == rd_node(n@, strings_view(inh@)),
    decreases n, 1int,
{
    match n {
        Node::Element(e) => {
            let attributes = kept_attr_list(&e.name, &e.attributes, inh);
            proof {
                crate::ast::lemma_attrs_view(attributes@);
                crate::ast::lemma_attrs_view(e.attributes@);
            }
            let removed = attributes.len() != e.attributes.len();
            let (children, c) = if is_foreign_exec(&e.name) {
                (crate::ast::clone_nodes(&e.children), false)
            } else {
                let below = names_below(inh, &e.attributes);
                rd_nodes_exec(&e.children, &below)
            };
            let ne = Element {
                prefix: clone_opt(&e.prefix),
                name: e.name.clone(),
                attributes,
                children,
            };
            (Node::Element(ne), removed || c)
        },
        _ => (clone_node(n), false),
    }
}

fn rd_nodes_exec(v: &Vec<Node>, inh: &Vec<String>) -> (r: (Vec<Node>, bool))
    ensures
        (nodes_view(r.0@), r.1) == rd_nodes(nodes_view(v@), strings_view(inh@)),
    decreases v, 0int,
{
    let mut out: Vec<Node> = Vec::new();
    let mut changed = false;
    let mut i: usize = 0;
    while i < v.len()
        invariant
            0 <= i <= v@.len(),
            (nodes_view(out@), changed) == rd_nodes(nodes_view(v@.take(i as int)), strings_view(inh@)),
        decreases v@.len() - i,
    {
        let (n, c) = rd_node_exec(&v[i], inh);
        proof {
            lemma_take_push(v@, i as int);
            lemma_nodes_view_push(out@, n);
        }
        out.push(n);
        changed = changed || c;
        i += 1;
    }
    proof {
        lemma_take_all(v@);
    }
    (out, changed)
}

impl Pass for RemoveUnknownsAndDefaults {
    open spec fn apply(&self, d: Seq<NodeV>) -> Seq<NodeV> {
        rd_nodes(d, seq![]).0
    }

    open spec fn reports_change(&self, d: Seq<NodeV>) -> bool {
        rd_nodes(d, seq![]).1
    }

    open spec fn pass_name(&self) -> Seq<char> {
        "removeUnknownsAndDefaults"@
    }

    fn name(&self) -> (r: &'static str) {
        "removeUnknownsAndDefaults"
    }

    fn run(&self, doc: &mut Document) -> (r: PassResult) {
        let none: Vec<String> = Vec::new();
        proof {
            assert(strings_view(none@) =~= Seq::<Seq<char>>::empty());
        }
        let (children, changed) = rd_nodes_exec(&doc.children, &none);
        doc.children = children;
        result_from(changed)
    }

    proof fn lemma_unchanged(&self, d: Seq<NodeV>) {
        lemma_rd_nodes_unchanged(d, seq![]);
    }
}

} // verus!
