//! Errors of the rendering pipeline.
use vstd::prelude::*;

use crate::config::PortAssignmentStrategy;
use crate::placement::sugiyama::EdgeEnds;
use crate::model::DiagramType;
use crate::ports::auto::{auto_needs_refinement, spec_auto_needs_refinement, StrategyInputs};
use crate::ports::needs_refinement;

verus! {

/// Error type for rendering failures.
#[derive(Debug, Clone)]
pub struct RenderError {
    pub message: String,
}

/// Error type for PNG conversion failures.
#[derive(Debug, Clone)]
pub struct PngError {
    pub message: String,
}

impl RenderError {
    /// The error as a sentence: `Render error: ` and the message.
    pub fn describe(&self) -> (r: String)
        ensures
            r@ == "Render error: "@ + self.message@,
    {
        let mut s = String::from_str("Render error: ");
        s.append(self.message.as_str());
        s
    }
}

impl PngError {
    /// The error as a sentence: `PNG conversion error: ` and the message.
    pub fn describe(&self) -> (r: String)
        ensures
            r@ == "PNG conversion error: "@ + self.message@,
    {
        let mut s = String::from_str("PNG conversion error: ");
        s.append(self.message.as_str());
        s
    }
}

/// Output format of a rendering.
#[derive(Debug, Clone, Copy, PartialEq, Eq, Structural)]
pub enum OutputFormat {
    Svg,
    Png,
}

/// Message of the error for PNG output where this build cannot convert.
pub open spec fn png_unsupported_message() -> Seq<char> {
    "PNG output is not supported in this build (compile with feature 'png')"@
}

/// The bytes a rendering hands back: the SVG itself, or for PNG output the
/// outcome of converting it, `png`, which is `None` where this build has no
/// converter. A failed conversion becomes a render error whose message is
/// `PNG conversion failed: ` and the converter's message.
pub fn format_output(svg_data: Vec<u8>, format: OutputFormat, png: Option<Result<Vec<u8>, PngError>>) -> (r:
    Result<Vec<u8>, RenderError>)
    ensures
        format == OutputFormat::Svg ==> (r matches Ok(b) && b@ == svg_data@),
        format == OutputFormat::Png ==> match png {
            Some(Ok(b)) => (r matches Ok(c) && c@ == b@),
            Some(Err(e)) => (r matches Err(err) && err.message@ == "PNG conversion failed: "@
                + e.message@),
            None => (r matches Err(err) && err.message@ == png_unsupported_message()),
        },
{
    match format {
        OutputFormat::Svg => Ok(svg_data),
        OutputFormat::Png => match png {
            Some(Ok(b)) => Ok(b),
            Some(Err(e)) => {
                let mut message = String::from_str("PNG conversion failed: ");
                message.append(e.message.as_str());
                Err(RenderError { message })
            },
            None => Err(
                RenderError {
                    message: String::from_str(
                        "PNG output is not supported in this build (compile with feature 'png')",
                    ),
                },
            ),
        },
    }
}

/// Whether the pipeline runs its port refinement loop: for `Auto`, when
/// some rounds are allowed and Auto would pick the two-phase strategy; for
/// the other strategies, when the strategy is a multi-round one and some
/// rounds are allowed.
pub fn use_refinement(
    strategy: PortAssignmentStrategy,
    rounds: usize,
    stats: &StrategyInputs,
    diagram_type: DiagramType,
    edges: &Vec<EdgeEnds>,
) -> (r: bool)
    requires
        2 * edges@.len() <= usize::MAX,
    ensures
        strategy == PortAssignmentStrategy::Auto ==> (r <==> rounds > 0
            && spec_auto_needs_refinement(*stats, diagram_type, edges@)),
        strategy != PortAssignmentStrategy::Auto ==> (r <==> rounds > 0 && (strategy
            == PortAssignmentStrategy::IterativeSwap || strategy
            == PortAssignmentStrategy::TwoPhase)),
{
    if strategy == PortAssignmentStrategy::Auto {
        rounds > 0 && auto_needs_refinement(stats, diagram_type, edges)
    } else {
        needs_refinement(strategy) && rounds > 0
    }
}

/// Number of layers of a placed graph, from each node's layer coordinate
/// (its `y`, or its `x` in a left-right layout, in tenths of a pixel,
/// rounded): the number of distinct values.
pub fn count_layers(layer_keys: &Vec<i64>) -> (n: usize)
    ensures
        n == layer_keys@.to_set().len(),
{
    let mut seen: Vec<i64> = Vec::new();
    let mut i: usize = 0;
    while i < layer_keys.len()
        invariant
            i <= layer_keys.len(),
            seen@.no_duplicates(),
            seen@.to_set() == layer_keys@.subrange(0, i as int).to_set(),
        decreases layer_keys.len() - i,
    {
        let v = layer_keys[i];
        let mut found = false;
        let mut j: usize = 0;
        while j < seen.len()
            invariant
                j <= seen.len(),
                found == (exists|t: int| 0 <= t < j && seen@[t] == v),
            decreases seen.len() - j,
        {
            if seen[j] == v {
                found = true;
            }
            j = j + 1;
        }
        let ghost before = seen@;
        if !found {
            seen.push(v);
        }
        proof {
            let old_prefix = layer_keys@.subrange(0, i as int);
            let prefix = layer_keys@.subrange(0, i + 1);
            assert(prefix =~= old_prefix.push(v));
            if found {
                assert(seen@ == before);
                let t = choose|t: int| 0 <= t < j && seen@[t] == v;
                assert(before.contains(v));
            } else {
                assert(seen@ =~= before.push(v));
                assert forall|t: int| 0 <= t < before.len() implies before[t] != v by {
                    assert(seen@[t] == before[t]);
                }
            }
            assert forall|x: i64| #[trigger] seen@.contains(x) <==> prefix.contains(x) by {
                assert(before.to_set().contains(x) == old_prefix.to_set().contains(x));
                if seen@.contains(x) {
                    let t = choose|t: int| 0 <= t < seen@.len() && seen@[t] == x;
                    if t < before.len() {
                        assert(before[t] == x);
                        assert(before.contains(x));
                        let u = choose|u: int| 0 <= u < old_prefix.len() && old_prefix[u] == x;
                        assert(prefix[u] == x);
                    } else {
                        assert(x == v);
                        assert(prefix[i as int] == x);
                    }
                }
                if prefix.contains(x) {
                    let u = choose|u: int| 0 <= u < prefix.len() && prefix[u] == x;
                    if u < i {
                        assert(old_prefix[u] == x);
                        assert(old_prefix.contains(x));
                        let t = choose|t: int| 0 <= t < before.len() && before[t] == x;
                        assert(seen@[t] == x);
                    } else {
                        assert(x == v);
                        if found {
                            let t = choose|t: int| 0 <= t < before.len() && before[t] == v;
                            assert(seen@[t] == x);
                        } else {
                            assert(seen@[seen@.len() - 1] == x);
                        }
                    }
                }
            }
            assert(seen@.to_set() =~= prefix.to_set());
        }
        i = i + 1;
    }
    proof {
        assert(layer_keys@.subrange(0, layer_keys@.len() as int) =~= layer_keys@);
        seen@.unique_seq_to_set();
    }
    seen.len()
}

} // verus!
