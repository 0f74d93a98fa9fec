//! What each client receives over a run of broadcasts, stated over the
//! abstract registry.
use crate::registry::{broadcast_step, lemma_kept_contains, register_step, RegistryView};
use vstd::prelude::*;

verus! {

/// `views` is a run of broadcasts: `views[i + 1]` follows `views[i]` once
/// `chunks[i]` was offered to every registered client, with `outcomes[i]`
/// telling which of them took it.
pub open spec fn broadcast_run(
    views: Seq<RegistryView>,
    chunks: Seq<Seq<u8>>,
    outcomes: Seq<Seq<bool>>,
) -> bool {
    &&& views.len() == chunks.len() + 1
    &&& outcomes.len() == chunks.len()
    &&& forall|i: int|
        0 <= i < chunks.len() ==> #[trigger] broadcast_step(
            views[i],
            views[i + 1],
            chunks[i],
            outcomes[i],
        )
}

/// A broadcast never removes a client it did not reach and never adds one.
proof fn lemma_step_keeps_only_registered(
    pre: RegistryView,
    post: RegistryView,
    c: Seq<u8>,
    d: Seq<bool>,
    id: u64,
)
    requires
        broadcast_step(pre, post, c, d),
        post.ids.contains(id),
    ensures
        pre.ids.contains(id),
{
    lemma_kept_contains(pre.ids, d, id);
    let j = choose|j: int| 0 <= j < pre.ids.len() && pre.ids[j] == id && d[j];
    assert(pre.ids[j] == id);
}

/// Fan-out is complete: after one broadcast every client that was
/// registered either took the chunk and is still registered, or did not
/// and has been removed. No client stays registered having missed it.
pub proof fn lemma_fan_out_complete(pre: RegistryView, post: RegistryView, c: Seq<u8>, d: Seq<bool>)
    requires
        pre.wf(),
        broadcast_step(pre, post, c, d),
    ensures
        forall|i: int|
            0 <= i < pre.ids.len() ==> {
                let id = #[trigger] pre.ids[i];
                ||| post.ids.contains(id) && d[i] && post.log[id] == pre.log[id].push(c)
                ||| !post.ids.contains(id) && !d[i] && post.log[id] == pre.log[id]
            },
{
    assert forall|i: int| 0 <= i < pre.ids.len() implies {
        let id = #[trigger] pre.ids[i];
        ||| post.ids.contains(id) && d[i] && post.log[id] == pre.log[id].push(c)
        ||| !post.ids.contains(id) && !d[i] && post.log[id] == pre.log[id]
    } by {
        let id = pre.ids[i];
        assert(pre.log.contains_key(id));
        lemma_kept_contains(pre.ids, d, id);
        if post.ids.contains(id) {
            let j = choose|j: int| 0 <= j < pre.ids.len() && pre.ids[j] == id && d[j];
            assert(j == i);
        }
    }
}

/// Per-client order: over a run of broadcasts, what a client receives is a
/// prefix of the chunks offered, in the order they were offered, each at
/// most once. A client still registered at the end received all of them;
/// one not registered at the start receives none.
pub proof fn lemma_client_order(
    views: Seq<RegistryView>,
    chunks: Seq<Seq<u8>>,
    outcomes: Seq<Seq<bool>>,
    id: u64,
)
    requires
        broadcast_run(views, chunks, outcomes),
        views[0].log.contains_key(id),
    ensures
        ({
            let n = chunks.len() as int;
            let first = views[0].log[id];
            let last = views[n].log[id];
            &&& views[n].log.contains_key(id)
            &&& first.len() <= last.len() <= first.len() + n
            &&& last == first + chunks.take(last.len() - first.len())
            &&& views[n].ids.contains(id) ==> views[0].ids.contains(id) && last == first + chunks
            &&& !views[0].ids.contains(id) ==> last == first && !views[n].ids.contains(id)
        }),
    decreases chunks.len(),
{
    let n = chunks.len() as int;
    let first = views[0].log[id];
    if n == 0 {
        assert(chunks.take(0) =~= Seq::<Seq<u8>>::empty());
        assert(first + chunks.take(0) =~= first);
        assert(first + chunks =~= first);
    } else {
        let (v0, c0, o0) = (views.drop_last(), chunks.drop_last(), outcomes.drop_last());
        assert forall|i: int| 0 <= i < c0.len() implies #[trigger] broadcast_step(
            v0[i],
            v0[i + 1],
            c0[i],
            o0[i],
        ) by {
            assert(broadcast_step(views[i], views[i + 1], chunks[i], outcomes[i]));
        }
        lemma_client_order(v0, c0, o0, id);
        let mid = views[n - 1].log[id];
        let last = views[n].log[id];
        let m = mid.len() - first.len();
        assert(broadcast_step(views[n - 1], views[n], chunks[n - 1], outcomes[n - 1]));
        assert(c0.take(m) =~= chunks.take(m));
        if views[n].ids.contains(id) {
            lemma_step_keeps_only_registered(
                views[n - 1],
                views[n],
                chunks[n - 1],
                outcomes[n - 1],
                id,
            );
            assert(last == mid.push(chunks[n - 1]));
            assert(c0 =~= chunks.take(n - 1));
            assert(first + chunks =~= (first + c0).push(chunks[n - 1]));
            assert(chunks.take(n) =~= chunks);
        } else {
            assert(last == mid);
        }
    }
}

/// Late-join isolation: a client registered just before a run of
/// broadcasts receives only chunks of that run, a prefix of them in order,
/// and all of them if it is still registered at the end.
pub proof fn lemma_late_join(
    before: RegistryView,
    views: Seq<RegistryView>,
    chunks: Seq<Seq<u8>>,
    outcomes: Seq<Seq<bool>>,
    id: u64,
)
    requires
        register_step(before, views[0], id),
        broadcast_run(views, chunks, outcomes),
    ensures
        ({
            let last = views[chunks.len() as int].log[id];
            &&& last.len() <= chunks.len()
            &&& last == chunks.take(last.len() as int)
            &&& views[chunks.len() as int].ids.contains(id) ==> last == chunks
        }),
{
    assert(views[0].log[id] == Seq::<Seq<u8>>::empty());
    lemma_client_order(views, chunks, outcomes, id);
    let last = views[chunks.len() as int].log[id];
    assert(Seq::<Seq<u8>>::empty() + chunks.take(last.len() as int) =~= chunks.take(
        last.len() as int,
    ));
    assert(Seq::<Seq<u8>>::empty() + chunks =~= chunks);
}

/// Pruning is final: once a client is out of the registry, no later
/// broadcast offers it anything. It never comes back and its log never
/// changes, so it is removed at most once.
pub proof fn lemma_pruned_stays_out(
    views: Seq<RegistryView>,
    chunks: Seq<Seq<u8>>,
    outcomes: Seq<Seq<bool>>,
    id: u64,
)
    requires
        broadcast_run(views, chunks, outcomes),
        views[0].log.contains_key(id),
        !views[0].ids.contains(id),
    ensures
        forall|i: int|
            0 <= i < views.len() ==> !(#[trigger] views[i]).ids.contains(id) && views[i].log[id]
                == views[0].log[id],
{
    assert forall|i: int| 0 <= i < views.len() implies !(#[trigger] views[i]).ids.contains(id)
        && views[i].log[id] == views[0].log[id] by {
        let (vs, cs, os) = (views.take(i + 1), chunks.take(i), outcomes.take(i));
        assert forall|k: int| 0 <= k < cs.len() implies #[trigger] broadcast_step(
            vs[k],
            vs[k + 1],
            cs[k],
            os[k],
        ) by {
            assert(broadcast_step(views[k], views[k + 1], chunks[k], outcomes[k]));
        }
        lemma_client_order(vs, cs, os, id);
        assert(vs[i] == views[i]);
    }
}

} // verus!
