//! The sequential compute core of the per-folder pipeline: serialized graph
//! ingestion, the traversal hand-off, and the batch-size dispatch policy.
//! Channels, worker pools and file reading stay outside; they feed plain
//! values in and take plain values out.

use vstd::prelude::*;

use crate::graph::{spec_edge_total, spec_traverse, GraphView, ThreadGraph};
use crate::post::Post;

verus! {

/// How one batch of text-processing work is dispatched.
#[derive(Debug, PartialEq, Eq, Structural)]
pub enum ExecutionStrategy {
    Sequential,
    Parallel,
}

/// The size policy for the text-processing stage: a batch larger than the
/// threshold goes to the parallel pool, any other batch runs sequentially to
/// avoid dispatch overhead.
pub fn execution_strategy(batch_size: usize, threshold: usize) -> (r: ExecutionStrategy)
    ensures
        r == (if batch_size > threshold {
            ExecutionStrategy::Parallel
        } else {
            ExecutionStrategy::Sequential
        }),
{
    if batch_size > threshold {
        ExecutionStrategy::Parallel
    } else {
        ExecutionStrategy::Sequential
    }
}

/// Drains one batch of parsed posts into the forest, in order: the sole
/// writer of the graph, as the single-consumer stage of the pipeline.
pub fn ingest(g: &mut ThreadGraph, posts: Vec<Post>)
    requires
        old(g)@.wf(),
        old(g)@.history.len() + posts@.len() <= usize::MAX,
    ensures
        final(g)@.wf(),
        final(g)@.history == old(g)@.history + posts@.map_values(|p: Post| p@),
{
    let ghost total = old(g)@.history + posts@.map_values(|p: Post| p@);
    let mut rest = posts;
    proof {
        assert(rest@.map_values(|p: Post| p@) =~= rest@.map_values(|p: Post| p@));
    }
    while rest.len() > 0
        invariant
            g@.wf(),
            g@.history + rest@.map_values(|p: Post| p@) == total,
            g@.history.len() + rest@.len() <= usize::MAX,
        decreases rest@.len(),
    {
        let ghost rest0 = rest@;
        let p = rest.remove(0);
        proof {
            assert(spec_edge_total(g@.children) < usize::MAX);
        }
        let ghost h_before = g@.history;
        g.add_post(p);
        proof {
            assert(rest@ =~= rest0.drop_first());
            let f = |q: Post| q@;
            assert(rest0.map_values(f)[0] == p@);
            assert(rest0.map_values(f).drop_first() =~= rest@.map_values(f));
            assert(h_before + rest0.map_values(f) =~= (h_before.push(p@)) + rest@.map_values(f));
        }
    }
    proof {
        assert(rest@.map_values(|p: Post| p@) =~= Seq::<crate::post::PostView>::empty());
        assert(g@.history =~= total);
    }
}

/// The per-folder core: builds a fresh forest from one batch of parsed
/// posts — in arrival order, which the placeholder mechanism makes
/// irrelevant — and traverses it into one `(root id, texts)` pair per
/// tracked root.
pub fn threads_from_posts(posts: Vec<Post>) -> (r: Vec<(String, Vec<String>)>)
    ensures
        exists|g: GraphView|
            #![trigger g.wf()]
            g.wf() && g.history == posts@.map_values(|p: Post| p@) && r@.map_values(
                |pr: (String, Vec<String>)| (pr.0@, pr.1@.map_values(|s: String| s@)),
            ) == spec_traverse(g),
{
    let mut graph = ThreadGraph::new();
    proof {
        assert(vstd::std_specs::vec::spec_vec_len(&posts) == posts@.len());
        assert(Seq::<crate::post::PostView>::empty() + posts@.map_values(|p: Post| p@)
            =~= posts@.map_values(|p: Post| p@));
    }
    let ghost post_views = posts@.map_values(|p: Post| p@);
    ingest(&mut graph, posts);
    let ghost gv = graph@;
    let r = graph.traverse();
    proof {
        assert(gv.wf() && gv.history == post_views && r@.map_values(
            |pr: (String, Vec<String>)| (pr.0@, pr.1@.map_values(|s: String| s@)),
        ) == spec_traverse(gv));
    }
    r
}

} // verus!
