//! The worklist scheduler. One tick snapshots every component's committed
//! outputs, evaluates every queued component against that snapshot (so the
//! order among queued components cannot matter), commits the changes, and
//! queues for the next tick the fan-out of every change plus every queued
//! component whose behavior forces its own reevaluation. A feedback loop is
//! legal: it resolves over several ticks, one hop of propagation per tick.

use vstd::prelude::*;
use crate::component::{
    clone_rows, component_commits_to, component_updates_to, copy_bits, find_dep, forwarded_rel,
    inputs_ok, lemma_find_dep_absent, lemma_find_dep_first, lemma_net_height_bound,
    lemma_net_height_pointwise, lemma_slice_rows_deep, lemma_vec_rows_deep, net_height, out_value,
    outputs_ok, remove_first_dep, remove_first_node, row_eq, slot_concat, slot_has_driver,
    spec_changed, states_of, subnet_comp_ticks, subnet_comp_updates, subnet_reason,
    subnet_ticks_to, updater_height, Component, InPinId, OutPinId, Updater,
};

verus! {

broadcast use
    vstd::seq_lib::lemma_seq_contains_after_push,
    vstd::seq_lib::lemma_seq_take_contains,
    vstd::seq_lib::lemma_seq_take_index,
    vstd::seq_lib::lemma_seq_take_len,
;

/// `q` extended by `id` unless `id` is already queued.
pub open spec fn spec_push_unique(q: Seq<usize>, id: usize) -> Seq<usize> {
    if q.contains(id) {
        q
    } else {
        q.push(id)
    }
}

/// What [`spec_push_unique`] holds: the old entries and the new id.
pub proof fn lemma_push_unique_contains(q: Seq<usize>, id: usize)
    ensures
        forall|x: usize| #[trigger]
            spec_push_unique(q, id).contains(x) <==> (q.contains(x) || x == id),
{
}

/// Every queued id names an existing component.
pub open spec fn queue_valid(q: Seq<usize>, n: nat) -> bool {
    forall|j: int| 0 <= j < q.len() ==> (#[trigger] q[j] as nat) < n
}

/// One component's whole tick: one evaluation against the snapshot, then
/// one commit.
pub open spec fn component_ticks_to(
    c: Component,
    snap: Seq<Seq<Seq<bool>>>,
    c2: Component,
) -> bool {
    exists|mid: Component|
        component_updates_to(c, snap, mid) && component_commits_to(mid, c2)
}

/// Why an id stands in the queue after a tick that turned `cs` into `cs2`
/// and processed the first `upto` entries of `q`: it is in the fan-out of a
/// processed component whose committed state changed, or it is a processed
/// component whose behavior forces its own reevaluation.
pub open spec fn queued_reason_upto(
    cs: Seq<Component>,
    cs2: Seq<Component>,
    q: Seq<usize>,
    upto: int,
    id: usize,
) -> bool {
    ||| exists|j: int|
        0 <= j < upto && cs2[#[trigger] q[j] as int].state.deep_view()
            != cs[q[j] as int].state.deep_view() && cs[q[j] as int].connected_to@.contains(id)
    ||| exists|j: int|
        0 <= j < upto && #[trigger] q[j] == id && id < cs.len()
            && cs[id as int].updater.spec_force_update()
}

/// Why an id stands in the next tick's queue.
pub open spec fn next_queue_reason(
    cs: Seq<Component>,
    cs2: Seq<Component>,
    q: Seq<usize>,
    id: usize,
) -> bool {
    queued_reason_upto(cs, cs2, q, q.len() as int, id)
}

/// How one tick relates the network and the queue to their successors:
/// every queued component is evaluated against the pre-tick snapshot and
/// committed, every other component stands, and the next queue holds
/// exactly the ids with a [`next_queue_reason`], free of duplicates.
pub open spec fn tick_rel(
    cs: Seq<Component>,
    q: Seq<usize>,
    cs2: Seq<Component>,
    q2: Seq<usize>,
) -> bool {
    let snap = states_of(cs);
    &&& cs2.len() == cs.len()
    &&& forall|i: usize| (i as nat) < cs.len() && !q.contains(i) ==> cs2[i as int] == cs[i as int]
    &&& forall|i: usize|
        (i as nat) < cs.len() && q.contains(i) ==> component_ticks_to(
            cs[i as int],
            snap,
            cs2[i as int],
        )
    &&& q2.no_duplicates()
    &&& forall|id: usize| #[trigger] q2.contains(id) <==> next_queue_reason(cs, cs2, q, id)
}

/// Whether `v` holds `x`.
fn vec_contains(v: &Vec<usize>, x: usize) -> (r: bool)
    ensures
        r == v@.contains(x),
{
    let mut i: usize = 0;
    while i < v.len()
        invariant
            i <= v@.len(),
            forall|j: int| 0 <= j < i ==> v@[j] != x,
        decreases v@.len() - i,
    {
        if v[i] == x {
            return true;
        }
        i += 1;
    }
    false
}

/// Pushes `x` unless it is already there, keeping the list duplicate-free.
fn push_unique(v: &mut Vec<usize>, x: usize)
    ensures
        final(v)@ == spec_push_unique(old(v)@, x),
        old(v)@.no_duplicates() ==> final(v)@.no_duplicates(),
{
    if !vec_contains(v, x) {
        v.push(x);
    }
}

/// The committed states of every component, cloned: the snapshot one tick
/// evaluates against.
fn get_states(components: &Vec<Component>) -> (r: Vec<Vec<Vec<bool>>>)
    ensures
        r.deep_view() == states_of(components@),
{
    let mut r: Vec<Vec<Vec<bool>>> = Vec::new();
    let mut i: usize = 0;
    while i < components.len()
        invariant
            i <= components@.len(),
            r@.len() == i,
            forall|t: int|
                0 <= t < i ==> #[trigger] r@[t].deep_view() == components@[t].state.deep_view(),
        decreases components@.len() - i,
    {
        let rows = clone_rows(&components[i].state);
        r.push(rows);
        i += 1;
    }
    proof {
        assert(r.deep_view() =~= states_of(components@));
    }
    r
}

/// Inserts a fresh component with the given behavior into the network and
/// hands back its stable id. Ids are indices into the network's arena and
/// are never reused while the network exists.
pub fn create_component(components: &mut Vec<Component>, updater: Updater) -> (id: usize)
    ensures
        id == old(components)@.len(),
        final(components)@.len() == old(components)@.len() + 1,
        forall|i: int|
            0 <= i < old(components)@.len() ==> final(components)@[i] == old(components)@[i],
        ({
            let c = final(components)@[id as int];
            &&& c.updater == updater
            &&& c.state.deep_view() == crate::component::init_states(updater.spec_output_count())
            &&& c.next_state.deep_view() == crate::component::init_states(
                updater.spec_output_count(),
            )
            &&& c.depends_on@.len() == 0
            &&& c.connected_to@.len() == 0
            &&& c.wf()
        }),
{
    let id = components.len();
    let c = Component::new(updater);
    components.push(c);
    id
}

/// The scheduler: owns the work queue of component ids to evaluate on the
/// next tick.
pub struct Simulation {
    pub queue: Vec<usize>,
}

impl Default for Simulation {
    /// A scheduler with an empty work queue.
    fn default() -> (s: Simulation)
        ensures
            s.queue@.len() == 0,
    {
        Simulation { queue: Vec::new() }
    }
}

impl Simulation {
    /// Enqueues a component for the next tick. The queue stays free of
    /// duplicates: queueing a component twice is harmless.
    pub fn add_to_queue(&mut self, index: usize)
        ensures
            final(self).queue@ == spec_push_unique(old(self).queue@, index),
            old(self).queue@.no_duplicates() ==> final(self).queue@.no_duplicates(),
    {
        push_unique(&mut self.queue, index);
    }

    /// One synchronous step: evaluates every queued component against the
    /// pre-tick snapshot, commits the results, and replaces the queue with
    /// the fan-out of every change plus the self-entries of forcing
    /// behaviors, by [`tick_rel`].
    pub fn tick(&mut self, components: &mut Vec<Component>)
        requires
            old(self).queue@.no_duplicates(),
            queue_valid(old(self).queue@, old(components)@.len()),
            forall|j: int|
                0 <= j < old(self).queue@.len() ==> (#[trigger] old(components)@[old(
                    self,
                ).queue@[j] as int]).can_update(states_of(old(components)@)),
        ensures
            tick_rel(
                old(components)@,
                old(self).queue@,
                final(components)@,
                final(self).queue@,
            ),
        decreases net_height(components@), 3int,
    {
        let ghost cs0 = components@;
        let ghost q0 = self.queue@;
        let ghost snap = states_of(cs0);
        let states = get_states(components);
        let nq = self.queue.len();
        let mut idx: usize = 0;
        while idx < nq
            invariant
                idx <= nq,
                nq == q0.len(),
                self.queue@ == q0,
                q0.no_duplicates(),
                queue_valid(q0, cs0.len()),
                cs0 == old(components)@,
                components@.len() == cs0.len(),
                states.deep_view() == snap,
                snap == states_of(cs0),
                forall|j: int|
                    0 <= j < q0.len() ==> (#[trigger] cs0[q0[j] as int]).can_update(snap),
                forall|i: usize|
                    (i as nat) < cs0.len() && !q0.take(idx as int).contains(i)
                        ==> components@[i as int] == cs0[i as int],
                forall|j: int|
                    0 <= j < idx ==> component_updates_to(
                        cs0[#[trigger] q0[j] as int],
                        snap,
                        components@[q0[j] as int],
                    ),
            decreases nq - idx,
        {
            let id = self.queue[idx];
            proof {
                if q0.take(idx as int).contains(id) {
                    let w = choose|j: int| 0 <= j < idx && q0.take(idx as int)[j] == id;
                    assert(q0[w] == q0[idx as int]);
                    assert(false);
                }
                assert(components@[id as int] == cs0[id as int]);
                assert(cs0[q0[idx as int] as int].can_update(snap));
                lemma_net_height_bound(cs0, id as int);
                assert(cs0 == old(components)@);
                assert(updater_height(components@[id as int].updater) <= net_height(
                    old(components)@,
                ));
            }
            components[id].update(&states);
            proof {
                assert forall|i: usize|
                    (i as nat) < cs0.len() && !q0.take(idx as int + 1).contains(i)
                        implies components@[i as int] == cs0[i as int] by {
                    if q0.take(idx as int).contains(i) {
                        let w = choose|j: int| 0 <= j < idx && q0.take(idx as int)[j] == i;
                        assert(q0.take(idx as int + 1)[w] == i);
                    }
                    assert(q0.take(idx as int + 1)[idx as int] == id);
                }
                assert forall|j: int|
                    0 <= j < idx + 1 implies component_updates_to(
                    cs0[#[trigger] q0[j] as int],
                    snap,
                    components@[q0[j] as int],
                ) by {
                    if j < idx {
                        assert(q0[j] != q0[idx as int]);
                    }
                }
            }
            idx += 1;
        }
        proof {
            assert(q0.take(nq as int) =~= q0);
            assert forall|j: int|
                0 <= j < nq implies component_updates_to(
                cs0[#[trigger] q0[j] as int],
                snap,
                components@[q0[j] as int],
            ) by {}
        }
        let mut next_queue: Vec<usize> = Vec::new();
        let mut idx2: usize = 0;
        while idx2 < nq
            invariant
                idx2 <= nq,
                nq == q0.len(),
                self.queue@ == q0,
                q0.no_duplicates(),
                queue_valid(q0, cs0.len()),
                components@.len() == cs0.len(),
                snap == states_of(cs0),
                forall|i: usize|
                    (i as nat) < cs0.len() && !q0.contains(i) ==> components@[i as int] == cs0[i as int],
                forall|j: int|
                    0 <= j < idx2 ==> component_ticks_to(
                        cs0[#[trigger] q0[j] as int],
                        snap,
                        components@[q0[j] as int],
                    ),
                forall|j: int|
                    idx2 <= j < nq ==> component_updates_to(
                        cs0[#[trigger] q0[j] as int],
                        snap,
                        components@[q0[j] as int],
                    ),
                next_queue@.no_duplicates(),
                forall|id: usize| #[trigger]
                    next_queue@.contains(id) <==> queued_reason_upto(
                        cs0,
                        components@,
                        q0,
                        idx2 as int,
                        id,
                    ),
            decreases nq - idx2,
        {
            let id = self.queue[idx2];
            let ghost pre = components@[id as int];
            proof {
                if q0.take(idx2 as int).contains(id) {
                    let w = choose|j: int| 0 <= j < idx2 && q0.take(idx2 as int)[j] == id;
                    assert(q0[w] == q0[idx2 as int]);
                    assert(false);
                }
                assert(component_updates_to(cs0[id as int], snap, pre));
            }
            let changed = components[id].finalize();
            proof {
                assert(component_ticks_to(cs0[id as int], snap, components@[id as int])) by {
                    assert(component_updates_to(cs0[id as int], snap, pre)
                        && component_commits_to(pre, components@[id as int]));
                }
                assert(changed == (components@[id as int].state.deep_view()
                    != cs0[id as int].state.deep_view()));
                crate::component::lemma_evals_preserves_kind(
                    cs0[id as int].updater,
                    cs0[id as int].gather(snap),
                    cs0[id as int].next_state.deep_view(),
                    pre.updater,
                    pre.next_state.deep_view(),
                );
                assert(components@[id as int].connected_to == cs0[id as int].connected_to);
                assert(components@[id as int].updater == pre.updater);
            }
            let ghost before_fan = next_queue@;
            let ghost fans = cs0[id as int].connected_to@;
            if changed {
                let nf = components[id].connected_to.len();
                let mut f: usize = 0;
                while f < nf
                    invariant
                        f <= nf,
                        id < components@.len(),
                        nf == components@[id as int].connected_to@.len(),
                        components@[id as int].connected_to == cs0[id as int].connected_to,
                        fans == cs0[id as int].connected_to@,
                        next_queue@.no_duplicates(),
                        forall|x: usize| #[trigger]
                            next_queue@.contains(x) <==> (before_fan.contains(x) || fans.take(
                                f as int,
                            ).contains(x)),
                    decreases nf - f,
                {
                    let tgt = components[id].connected_to[f];
                    let ghost prevq = next_queue@;
                    push_unique(&mut next_queue, tgt);
                    proof {
                        lemma_push_unique_contains(prevq, tgt);
                        assert(fans[f as int] == tgt);
                        assert forall|x: usize| #[trigger]
                            next_queue@.contains(x) <==> (before_fan.contains(x) || fans.take(
                            f as int + 1,
                        ).contains(x)) by {
                            assert(next_queue@.contains(x) <==> (prevq.contains(x) || x == tgt));
                        }
                    }
                    f += 1;
                }
                proof {
                    assert(fans.take(nf as int) =~= fans);
                }
            }
            let ghost after_fan = next_queue@;
            proof {
                assert forall|x: usize| #[trigger]
                    after_fan.contains(x) <==> (before_fan.contains(x) || (changed
                    && fans.contains(x))) by {}
            }
            if components[id].updater.force_update() {
                let ghost prevq = next_queue@;
                push_unique(&mut next_queue, id);
                proof {
                    lemma_push_unique_contains(prevq, id);
                }
            }
            proof {
                let forced = cs0[id as int].updater.spec_force_update();
                let cur = components@;
                assert forall|x: usize| #[trigger]
                    next_queue@.contains(x) <==> (after_fan.contains(x) || (forced && x
                    == id)) by {}
                assert forall|x: usize| #[trigger]
                    next_queue@.contains(x) <==> queued_reason_upto(
                    cs0,
                    cur,
                    q0,
                    idx2 as int + 1,
                    x,
                ) by {
                    if next_queue@.contains(x) {
                        if before_fan.contains(x) {
                            assert(queued_reason_upto(cs0, cur, q0, idx2 as int, x));
                        } else if changed && fans.contains(x) {
                            assert(cur[q0[idx2 as int] as int].state.deep_view()
                                != cs0[q0[idx2 as int] as int].state.deep_view()
                                && cs0[q0[idx2 as int] as int].connected_to@.contains(x));
                        } else {
                            assert(forced && x == id);
                            assert(q0[idx2 as int] == x);
                        }
                    }
                    if queued_reason_upto(cs0, cur, q0, idx2 as int + 1, x) {
                        if queued_reason_upto(cs0, cur, q0, idx2 as int, x) {
                            assert(before_fan.contains(x));
                        } else {
                            if exists|j: int|
                                0 <= j < idx2 + 1 && cur[#[trigger] q0[j] as int].state.deep_view()
                                    != cs0[q0[j] as int].state.deep_view()
                                    && cs0[q0[j] as int].connected_to@.contains(x) {
                                let j = choose|j: int|
                                    0 <= j < idx2 + 1 && cur[#[trigger] q0[j] as int].state.deep_view()
                                        != cs0[q0[j] as int].state.deep_view()
                                        && cs0[q0[j] as int].connected_to@.contains(x);
                                assert(j == idx2 as int);
                                assert(changed);
                                assert(after_fan.contains(x));
                            } else {
                                let j = choose|j: int|
                                    0 <= j < idx2 + 1 && #[trigger] q0[j] == x && x < cs0.len()
                                        && cs0[x as int].updater.spec_force_update();
                                assert(j == idx2 as int);
                                assert(x == id && forced);
                            }
                        }
                    }
                }
            }
            idx2 += 1;
        }
        self.queue = next_queue;
        proof {
            assert forall|i: usize|
                (i as nat) < cs0.len() && q0.contains(i) implies component_ticks_to(
                cs0[i as int],
                snap,
                components@[i as int],
            ) by {
                let w = q0.index_of(i);
                assert(0 <= w < q0.len());
                assert(q0[w] == i);
                assert(component_ticks_to(cs0[q0[w] as int], snap, components@[q0[w] as int]));
            }
        }
    }
}

/// Whether a bit-vector carries an asserted (non-zero) value.
pub open spec fn is_asserted(bits: Seq<bool>) -> bool {
    bits.contains(true)
}

/// A witness of acyclicity: every wire leads from a lower-ranked component
/// to a higher-ranked one, and every wire target exists.
pub open spec fn wiring_ranked(cs: Seq<Component>, rank: Seq<nat>) -> bool {
    &&& rank.len() == cs.len()
    &&& forall|i: int, m: int|
        0 <= i < cs.len() && 0 <= m < cs[i].connected_to@.len() ==> {
            let t = #[trigger] cs[i].connected_to@[m];
            &&& (t as nat) < cs.len()
            &&& rank[t as int] > rank[i]
        }
}

/// No component's behavior forces its own reevaluation.
pub open spec fn no_forced(cs: Seq<Component>) -> bool {
    forall|i: int| 0 <= i < cs.len() ==> !(#[trigger] cs[i].updater).spec_force_update()
}

/// One tick of an acyclic network without forcing behaviors pushes the
/// whole queue at least one rank level up, and keeps the network acyclic:
/// propagation walks the ranks, one level per tick.
pub proof fn lemma_tick_raises_rank(
    cs: Seq<Component>,
    q: Seq<usize>,
    cs2: Seq<Component>,
    q2: Seq<usize>,
    rank: Seq<nat>,
    t: nat,
)
    requires
        tick_rel(cs, q, cs2, q2),
        cs.len() <= usize::MAX,
        wiring_ranked(cs, rank),
        no_forced(cs),
        queue_valid(q, cs.len()),
        forall|j: int| 0 <= j < q.len() ==> rank[#[trigger] q[j] as int] >= t,
    ensures
        cs2.len() == cs.len(),
        wiring_ranked(cs2, rank),
        no_forced(cs2),
        queue_valid(q2, cs2.len()),
        forall|j: int| 0 <= j < q2.len() ==> rank[#[trigger] q2[j] as int] >= t + 1,
{
    let snap = states_of(cs);
    assert forall|i: usize| (i as nat) < cs.len() implies #[trigger] cs2[i as int].connected_to
        == cs[i as int].connected_to && cs2[i as int].updater.spec_force_update()
        == cs[i as int].updater.spec_force_update() by {
        if q.contains(i) {
            assert(component_ticks_to(cs[i as int], snap, cs2[i as int]));
            let mid = choose|mid: Component|
                component_updates_to(cs[i as int], snap, mid) && component_commits_to(
                    mid,
                    cs2[i as int],
                );
            crate::component::lemma_evals_preserves_kind(
                cs[i as int].updater,
                cs[i as int].gather(snap),
                cs[i as int].next_state.deep_view(),
                mid.updater,
                mid.next_state.deep_view(),
            );
        }
    }
    assert forall|i: int, m: int|
        0 <= i < cs2.len() && 0 <= m < cs2[i].connected_to@.len() implies {
        let tg = #[trigger] cs2[i].connected_to@[m];
        (tg as nat) < cs2.len() && rank[tg as int] > rank[i]
    } by {
        let iu = i as usize;
        assert(cs2[iu as int].connected_to == cs[iu as int].connected_to);
        assert(cs[i].connected_to@[m] == cs2[i].connected_to@[m]);
    }
    assert forall|i: int| 0 <= i < cs2.len() implies !(#[trigger] cs2[i].updater).spec_force_update() by {
        let iu = i as usize;
        assert(cs2[iu as int].updater.spec_force_update() == cs[iu as int].updater.spec_force_update());
    }
    assert forall|j: int|
        0 <= j < q2.len() implies (#[trigger] q2[j] as nat) < cs2.len() && rank[q2[j] as int] >= t
        + 1 by {
        let id = q2[j];
        assert(q2.contains(id));
        assert(next_queue_reason(cs, cs2, q, id));
        if exists|jj: int|
            0 <= jj < q.len() && #[trigger] q[jj] == id && id < cs.len()
                && cs[id as int].updater.spec_force_update() {
            assert(false);
        }
        let jj = choose|jj: int|
            0 <= jj < q.len() && cs2[#[trigger] q[jj] as int].state.deep_view()
                != cs[q[jj] as int].state.deep_view()
                && cs[q[jj] as int].connected_to@.contains(id);
        let src = q[jj];
        assert(rank[src as int] >= t);
        let m = cs[src as int].connected_to@.index_of(id);
        assert(cs[src as int].connected_to@[m] == id);
        assert(rank[id as int] > rank[src as int]);
    }
}

/// Propagation latency: each tick moves the change frontier of an acyclic
/// network without forcing behaviors up by exactly one level of the wiring,
/// so a component stands still at every tick past its rank - a change takes
/// one tick per hop to arrive, and no fewer.
pub proof fn lemma_propagation_settles(
    nets: Seq<Seq<Component>>,
    queues: Seq<Seq<usize>>,
    rank: Seq<nat>,
    t: int,
    i: usize,
)
    requires
        nets.len() == queues.len(),
        0 <= t < nets.len() - 1,
        nets[0].len() <= usize::MAX,
        forall|u: int|
            0 <= u < nets.len() - 1 ==> tick_rel(
                #[trigger] nets[u],
                queues[u],
                nets[u + 1],
                queues[u + 1],
            ),
        wiring_ranked(nets[0], rank),
        no_forced(nets[0]),
        queue_valid(queues[0], nets[0].len()),
        (i as nat) < nets[0].len(),
        rank[i as int] < t,
    ensures
        nets[t + 1][i as int] == nets[t][i as int],
{
    lemma_convergence_aux(nets, queues, rank, t);
    if queues[t].contains(i) {
        let w = queues[t].index_of(i);
        assert(queues[t][w] == i);
        assert(rank[i as int] >= t);
    }
    assert(tick_rel(nets[t], queues[t], nets[t + 1], queues[t + 1]));
}

/// Convergence: an acyclic network (witnessed by a rank below the node
/// count on every component) with no forcing behaviors reaches an empty
/// queue within at most as many ticks as it has nodes. `nets` and `queues`
/// are the states along any run of ticks.
pub proof fn lemma_convergence(nets: Seq<Seq<Component>>, queues: Seq<Seq<usize>>, rank: Seq<nat>)
    requires
        nets.len() == queues.len(),
        nets.len() > nets[0].len(),
        nets[0].len() <= usize::MAX,
        forall|t: int|
            0 <= t < nets.len() - 1 ==> tick_rel(
                #[trigger] nets[t],
                queues[t],
                nets[t + 1],
                queues[t + 1],
            ),
        wiring_ranked(nets[0], rank),
        no_forced(nets[0]),
        queue_valid(queues[0], nets[0].len()),
        forall|i: int| 0 <= i < rank.len() ==> #[trigger] rank[i] < nets[0].len(),
    ensures
        queues[nets[0].len() as int].len() == 0,
{
    let n = nets[0].len() as int;
    lemma_convergence_aux(nets, queues, rank, n);
    if queues[n].len() > 0 {
        assert(rank[queues[n][0] as int] >= n);
        assert(rank[queues[n][0] as int] < nets[0].len());
    }
}

proof fn lemma_convergence_aux(
    nets: Seq<Seq<Component>>,
    queues: Seq<Seq<usize>>,
    rank: Seq<nat>,
    t: int,
)
    requires
        nets.len() == queues.len(),
        0 <= t < nets.len(),
        nets[0].len() <= usize::MAX,
        forall|u: int|
            0 <= u < nets.len() - 1 ==> tick_rel(
                #[trigger] nets[u],
                queues[u],
                nets[u + 1],
                queues[u + 1],
            ),
        wiring_ranked(nets[0], rank),
        no_forced(nets[0]),
        queue_valid(queues[0], nets[0].len()),
    ensures
        nets[t].len() == nets[0].len(),
        wiring_ranked(nets[t], rank),
        no_forced(nets[t]),
        queue_valid(queues[t], nets[t].len()),
        forall|j: int| 0 <= j < queues[t].len() ==> rank[#[trigger] queues[t][j] as int] >= t,
    decreases t,
{
    if t > 0 {
        lemma_convergence_aux(nets, queues, rank, t - 1);
        assert(tick_rel(nets[t - 1], queues[t - 1], nets[t - 1 + 1], queues[t - 1 + 1]));
        lemma_tick_raises_rank(
            nets[t - 1],
            queues[t - 1],
            nets[t],
            queues[t],
            rank,
            (t - 1) as nat,
        );
    }
}

/// Whether any bit of `v` is set.
fn any_bit(v: &Vec<bool>) -> (r: bool)
    ensures
        r == is_asserted(v@),
{
    let mut i: usize = 0;
    while i < v.len()
        invariant
            i <= v@.len(),
            forall|j: int| 0 <= j < i ==> v@[j] != true,
        decreases v@.len() - i,
    {
        if v[i] {
            return true;
        }
        i += 1;
    }
    false
}

impl Simulation {
    /// Breaks the wire from output pin `from` to input pin `to`: the driver
    /// forgets one fan-out entry for the target, the target forgets its
    /// first dependency on that input port, and the target is enqueued when
    /// the driver's committed output carries an asserted value, since
    /// breaking such a wire changes what the input reads without the driver
    /// re-evaluating.
    pub fn disconnect(&mut self, from: OutPinId, to: InPinId, components: &mut Vec<Component>)
        requires
            (from.node as nat) < old(components)@.len(),
            (to.node as nat) < old(components)@.len(),
            (from.output as int) < old(components)@[from.node as int].state@.len(),
        ensures
            final(components)@.len() == old(components)@.len(),
            forall|i: usize|
                (i as nat) < old(components)@.len() ==> {
                    let oldc = old(components)@[i as int];
                    let newc = #[trigger] final(components)@[i as int];
                    &&& newc.state == oldc.state
                    &&& newc.next_state == oldc.next_state
                    &&& newc.updater == oldc.updater
                    &&& newc.connected_to@ == if i == from.node {
                        remove_first_node(oldc.connected_to@, to.node)
                    } else {
                        oldc.connected_to@
                    }
                    &&& newc.depends_on@ == if i == to.node {
                        remove_first_dep(oldc.depends_on@, to.input)
                    } else {
                        oldc.depends_on@
                    }
                },
            final(self).queue@ == if is_asserted(
                old(components)@[from.node as int].state.deep_view()[from.output as int],
            ) {
                spec_push_unique(old(self).queue@, to.node)
            } else {
                old(self).queue@
            },
    {
        proof {
            lemma_vec_rows_deep(&components[from.node as int].state);
        }
        let asserted = any_bit(&components[from.node].state[from.output]);
        components[from.node].register_disconnection(to.node);
        components[to.node].register_undepending(to.input);
        if asserted {
            self.add_to_queue(to.node);
        }
    }

    /// Wires output pin `from` to input pin `to`. A non-bus input accepts
    /// exactly one driver: a driver already feeding that port is fully
    /// disconnected first (last-writer-wins); a Compositor input accepts
    /// several drivers side by side. The target is enqueued when the new or
    /// the displaced driver carries an asserted value.
    pub fn connect(&mut self, from: OutPinId, to: InPinId, components: &mut Vec<Component>)
        requires
            (from.node as nat) < old(components)@.len(),
            (to.node as nat) < old(components)@.len(),
            (from.output as int) < old(components)@[from.node as int].state@.len(),
            (to.input as int) < old(components)@[to.node as int].updater.spec_input_count().len(),
            // a non-bus input holds at most one driver already
            !(old(components)@[to.node as int].updater is Compositor) ==> forall|m1: int, m2: int|
                0 <= m1 < old(components)@[to.node as int].depends_on@.len() && 0 <= m2 < old(
                    components,
                )@[to.node as int].depends_on@.len() && (#[trigger] old(
                    components,
                )@[to.node as int].depends_on@[m1]).1 == to.input && (#[trigger] old(
                    components,
                )@[to.node as int].depends_on@[m2]).1 == to.input ==> m1 == m2,
            // the driver to displace, if any, points at an existing pin
            ({
                let p = find_dep(old(components)@[to.node as int].depends_on@, to.input);
                !(old(components)@[to.node as int].updater is Compositor) && p >= 0 ==> {
                    let d = old(components)@[to.node as int].depends_on@[p];
                    &&& (d.0.node as nat) < old(components)@.len()
                    &&& (d.0.output as int) < old(components)@[d.0.node as int].state@.len()
                }
            }),
        ensures
            final(components)@.len() == old(components)@.len(),
            ({
                let olddeps = old(components)@[to.node as int].depends_on@;
                let p = find_dep(olddeps, to.input);
                let displaced = !(old(components)@[to.node as int].updater is Compositor) && p
                    >= 0;
                &&& forall|i: usize|
                    (i as nat) < old(components)@.len() ==> {
                        let oldc = old(components)@[i as int];
                        let newc = #[trigger] final(components)@[i as int];
                        &&& newc.state == oldc.state
                        &&& newc.next_state == oldc.next_state
                        &&& newc.updater == oldc.updater
                        &&& newc.depends_on@ == {
                            let base = if i == to.node && displaced {
                                remove_first_dep(oldc.depends_on@, to.input)
                            } else {
                                oldc.depends_on@
                            };
                            if i == to.node {
                                base.push((from, to.input))
                            } else {
                                base
                            }
                        }
                        &&& newc.connected_to@ == {
                            let base = if displaced && olddeps[p].0.node == i {
                                remove_first_node(oldc.connected_to@, to.node)
                            } else {
                                oldc.connected_to@
                            };
                            if i == from.node {
                                base.push(to.node)
                            } else {
                                base
                            }
                        }
                    }
                &&& final(self).queue@ == {
                    let newly = is_asserted(
                        old(components)@[from.node as int].state.deep_view()[from.output as int],
                    );
                    let formerly = displaced && is_asserted(
                        old(
                            components,
                        )@[olddeps[p].0.node as int].state.deep_view()[olddeps[p].0.output as int],
                    );
                    if newly || formerly {
                        spec_push_unique(old(self).queue@, to.node)
                    } else {
                        old(self).queue@
                    }
                }
            }),
    {
        proof {
            lemma_vec_rows_deep(&components[from.node as int].state);
        }
        let mut enq = any_bit(&components[from.node].state[from.output]);
        let target_is_bus = match components[to.node].updater {
            Updater::Compositor => true,
            _ => false,
        };
        if !target_is_bus {
            let deps_len = components[to.node].depends_on.len();
            let mut m: usize = 0;
            let mut fpos: usize = 0;
            let mut found = false;
            while m < deps_len
                invariant
                    m <= deps_len,
                    deps_len == components@[to.node as int].depends_on@.len(),
                    (to.node as nat) < components@.len(),
                    !found ==> forall|j: int|
                        0 <= j < m ==> components@[to.node as int].depends_on@[j].1 != to.input,
                    found ==> fpos < m && components@[to.node as int].depends_on@[fpos as int].1
                        == to.input && forall|j: int|
                        0 <= j < fpos ==> components@[to.node as int].depends_on@[j].1 != to.input,
                decreases deps_len - m,
            {
                if !found && components[to.node].depends_on[m].1 == to.input {
                    found = true;
                    fpos = m;
                }
                m += 1;
            }
            if found {
                let d = components[to.node].depends_on[fpos];
                proof {
                    lemma_find_dep_first(
                        components@[to.node as int].depends_on@,
                        to.input,
                        fpos as int,
                    );
                    lemma_vec_rows_deep(&components[d.0.node as int].state);
                }
                if any_bit(&components[d.0.node].state[d.0.output]) {
                    enq = true;
                }
                components[to.node].register_undepending(to.input);
                components[d.0.node].register_disconnection(to.node);
            } else {
                proof {
                    lemma_find_dep_absent(components@[to.node as int].depends_on@, to.input);
                }
            }
        }
        components[from.node].register_connection(to.node);
        components[to.node].register_dependency(from, to.input);
        if enq {
            self.add_to_queue(to.node);
        }
    }

    /// Applies a user edit to a Switch (a latch) or a Button (a momentary
    /// hold): sets the flag, and enqueues the component when its committed
    /// output no longer matches the flag, just as an internal change would.
    /// Reports whether the component was such a source.
    pub fn set_source_state(
        &mut self,
        components: &mut Vec<Component>,
        id: usize,
        value: bool,
    ) -> (applied: bool)
        requires
            (id as nat) < old(components)@.len(),
            old(components)@[id as int].wf(),
        ensures
            final(components)@.len() == old(components)@.len(),
            forall|i: usize|
                (i as nat) < old(components)@.len() && i != id ==> final(components)@[i as int]
                    == old(components)@[i as int],
            ({
                let oldc = old(components)@[id as int];
                let newc = final(components)@[id as int];
                &&& newc.state == oldc.state
                &&& newc.next_state == oldc.next_state
                &&& newc.depends_on == oldc.depends_on
                &&& newc.connected_to == oldc.connected_to
                &&& match oldc.updater {
                    Updater::Switch { .. } => applied && newc.updater == (Updater::Switch {
                        is_toggled: value,
                    }),
                    Updater::Button { .. } => applied && newc.updater == (Updater::Button {
                        is_pressed: value,
                    }),
                    _ => !applied && newc.updater == oldc.updater,
                }
            }),
            final(self).queue@ == if (old(components)@[id as int].updater matches Updater::Switch {
                ..
            } || old(components)@[id as int].updater matches Updater::Button { .. }) && old(
                components,
            )@[id as int].state.deep_view()[0][0] != value {
                spec_push_unique(old(self).queue@, id)
            } else {
                old(self).queue@
            },
    {
        let is_source = match &mut components[id].updater {
            Updater::Switch { is_toggled } => {
                *is_toggled = value;
                true
            },
            Updater::Button { is_pressed } => {
                *is_pressed = value;
                true
            },
            _ => false,
        };
        if !is_source {
            return false;
        }
        proof {
            lemma_vec_rows_deep(&components[id as int].state);
            assert(old(components)@[id as int].updater.spec_output_count()[0] == Some(1usize));
            assert(components@[id as int].state@[0]@.len() == 1);
        }
        let bit = components[id].state[0][0];
        if bit != value {
            self.add_to_queue(id);
        }
        true
    }
}

/// Two snapshots of the same shape make every input port gather the same
/// widths: what a port reads depends on its drivers' values, but how much
/// it reads depends only on their widths.
proof fn lemma_slot_concat_len(
    deps: Seq<(OutPinId, usize)>,
    a: Seq<Seq<Seq<bool>>>,
    b: Seq<Seq<Seq<bool>>>,
    s: int,
)
    requires
        b.len() == a.len(),
        forall|n: int| 0 <= n < a.len() ==> #[trigger] b[n].len() == a[n].len(),
        forall|n: int, o: int|
            0 <= n < a.len() && 0 <= o < a[n].len() ==> #[trigger] b[n][o].len()
                == a[n][o].len(),
        forall|k: int|
            0 <= k < deps.len() ==> ((#[trigger] deps[k]).0.node as nat) < a.len() && (
            deps[k].0.output as nat) < a[deps[k].0.node as int].len(),
    ensures
        slot_concat(deps, b, s).len() == slot_concat(deps, a, s).len(),
    decreases deps.len(),
{
    if deps.len() > 0 {
        assert forall|k: int|
            0 <= k < deps.drop_last().len() implies ((#[trigger] deps.drop_last()[k]).0.node
            as nat) < a.len() && (deps.drop_last()[k].0.output as nat) < a[deps.drop_last()[k].0.node as int].len() by {
            assert(deps.drop_last()[k] == deps[k]);
        }
        lemma_slot_concat_len(deps.drop_last(), a, b, s);
    }
}

/// A component that can evaluate against one snapshot can evaluate against
/// any snapshot of the same shape, with the same behavior and wiring and
/// well-shaped states.
proof fn lemma_can_update_shape(
    c: Component,
    c1: Component,
    a: Seq<Seq<Seq<bool>>>,
    b: Seq<Seq<Seq<bool>>>,
)
    requires
        c.can_update(a),
        c1.updater == c.updater,
        c1.depends_on == c.depends_on,
        outputs_ok(c1.updater, c1.state.deep_view()),
        outputs_ok(c1.updater, c1.next_state.deep_view()),
        b.len() == a.len(),
        forall|n: int| 0 <= n < a.len() ==> #[trigger] b[n].len() == a[n].len(),
        forall|n: int, o: int|
            0 <= n < a.len() && 0 <= o < a[n].len() ==> #[trigger] b[n][o].len()
                == a[n][o].len(),
    ensures
        c1.can_update(b),
{
    assert forall|s: int|
        0 <= s < c1.gather(b).len() implies #[trigger] c1.gather(b)[s].len() == c.gather(
        a,
    )[s].len() by {
        assert(c1.gather(b)[s] == c1.slot_value(b, s));
        assert(c.gather(a)[s] == c.slot_value(a, s));
        if slot_has_driver(c.depends_on@, s) {
            lemma_slot_concat_len(c.depends_on@, a, b, s);
        }
    }
    assert(inputs_ok(c1.updater, c1.gather(b)));
}

/// A scheduler tick of a forwarded sub-circuit network is a sub-circuit
/// tick as the composite's behavioral model states it, because forwarding
/// left every stored behavior in place.
proof fn lemma_tick_rel_subnet(
    base: Seq<Component>,
    fwd: Seq<Component>,
    q: Seq<usize>,
    cs2: Seq<Component>,
    q2: Seq<usize>,
)
    requires
        tick_rel(fwd, q, cs2, q2),
        fwd.len() == base.len(),
        forall|i: int| 0 <= i < fwd.len() ==> (#[trigger] fwd[i]).updater == base[i].updater,
        forall|i: int|
            0 <= i < fwd.len() ==> !((#[trigger] fwd[i]).updater matches Updater::Composite {
                ..
            }),
    ensures
        subnet_ticks_to(base, fwd, q, cs2, q2),
{
    let snap = states_of(fwd);
    assert forall|i: usize|
        (i as nat) < fwd.len() && q.contains(i) implies subnet_comp_ticks(
        (#[trigger] base[i as int]).updater,
        fwd[i as int],
        snap,
        cs2[i as int],
    ) by {
        assert(component_ticks_to(fwd[i as int], snap, cs2[i as int]));
        let mid = choose|mid: Component|
            component_updates_to(fwd[i as int], snap, mid) && component_commits_to(
                mid,
                cs2[i as int],
            );
        crate::component::lemma_evals_prim_agrees(
            fwd[i as int].updater,
            fwd[i as int].gather(snap),
            fwd[i as int].next_state.deep_view(),
            mid.updater,
            mid.next_state.deep_view(),
        );
        assert(subnet_comp_updates(base[i as int].updater, fwd[i as int], snap, mid));
    }
    assert forall|id: usize| #[trigger]
        q2.contains(id) <==> subnet_reason(fwd, cs2, q, id) by {
        assert(q2.contains(id) <==> next_queue_reason(fwd, cs2, q, id));
    }
}

/// One evaluation of a sub-circuit, on its pieces: forwards the external
/// inputs into the In-nodes (enqueueing the fan-out of every port whose
/// value changed), runs one internal scheduler tick, and rewrites `output`
/// with what the Out-nodes then record.
pub(crate) fn run_composite(
    components: &mut Vec<Component>,
    queue: &mut Vec<usize>,
    in_ports: &Vec<(usize, usize)>,
    out_ports: &Vec<(usize, usize)>,
    input: &[Vec<bool>],
    output: &mut Vec<Vec<bool>>,
)
    requires
        old(queue)@.no_duplicates(),
        queue_valid(old(queue)@, old(components)@.len()),
        forall|p: int|
            0 <= p < in_ports@.len() ==> {
                let pr = #[trigger] in_ports@[p];
                &&& (pr.0 as nat) < old(components)@.len()
                &&& old(components)@[pr.0 as int].updater matches Updater::In { size, .. }
                    && size == pr.1
            },
        forall|p1: int, p2: int|
            0 <= p1 < in_ports@.len() && 0 <= p2 < in_ports@.len() && (
            #[trigger] in_ports@[p1]).0 == (#[trigger] in_ports@[p2]).0 ==> p1 == p2,
        forall|p: int|
            0 <= p < out_ports@.len() ==> ((#[trigger] out_ports@[p]).0 as nat) < old(
                components,
            )@.len(),
        forall|i: int|
            0 <= i < old(components)@.len() ==> (#[trigger] old(components)@[i]).can_update(
                states_of(old(components)@),
            ),
        forall|i: int, m: int|
            0 <= i < old(components)@.len() && 0 <= m < old(components)@[i].connected_to@.len()
                ==> ((#[trigger] old(components)@[i].connected_to@[m]) as nat) < old(
                components,
            )@.len(),
        forall|i: int|
            0 <= i < old(components)@.len() ==> !((#[trigger] old(
                components,
            )@[i]).updater matches Updater::Composite { .. }),
        input.deep_view().len() == in_ports@.len(),
        forall|p: int|
            0 <= p < in_ports@.len() ==> #[trigger] input.deep_view()[p].len()
                == in_ports@[p].1,
        old(output)@.len() == out_ports@.len(),
    ensures
        exists|fwd: Seq<Component>, q1: Seq<usize>|
            forwarded_rel(
                old(components)@,
                in_ports@,
                input.deep_view(),
                old(queue)@,
                fwd,
                q1,
            ) && subnet_ticks_to(old(components)@, fwd, q1, final(components)@, final(queue)@),
        final(output).deep_view() == Seq::new(
            out_ports@.len(),
            |p: int| out_value(final(components)@[out_ports@[p].0 as int].updater),
        ),
    decreases net_height(components@), 4int,
{
    proof {
        lemma_slice_rows_deep(input);
    }
    let ghost base = components@;
    let ghost q0 = queue@;
    let ghost ports = in_ports@;
    let ghost inp = input.deep_view();
    let np = in_ports.len();
    let mut p: usize = 0;
    while p < np
        invariant
            p <= np,
            np == ports.len(),
            ports == in_ports@,
            base == old(components)@,
            q0 == old(queue)@,
            q0.no_duplicates(),
            queue_valid(q0, base.len()),
            inp == input.deep_view(),
            input@.len() == inp.len(),
            forall|t: int| 0 <= t < input@.len() ==> #[trigger] input@[t]@ == inp[t],
            inp.len() == ports.len(),
            forall|t: int| 0 <= t < ports.len() ==> #[trigger] inp[t].len() == ports[t].1,
            forall|t: int|
                0 <= t < ports.len() ==> {
                    let pr = #[trigger] ports[t];
                    &&& (pr.0 as nat) < base.len()
                    &&& base[pr.0 as int].updater matches Updater::In { size, .. } && size
                        == pr.1
                },
            forall|t1: int, t2: int|
                0 <= t1 < ports.len() && 0 <= t2 < ports.len() && (#[trigger] ports[t1]).0 == (
                #[trigger] ports[t2]).0 ==> t1 == t2,
            forall|i: int|
                0 <= i < base.len() ==> (#[trigger] base[i]).can_update(states_of(base)),
            forall|i: int|
                0 <= i < base.len() ==> !((#[trigger] base[i]).updater
                    matches Updater::Composite { .. }),
            forall|i: int, m: int|
                0 <= i < base.len() && 0 <= m < base[i].connected_to@.len() ==> ((
                #[trigger] base[i].connected_to@[m]) as nat) < base.len(),
            components@.len() == base.len(),
            forall|t: int|
                0 <= t < p ==> {
                    let n = (#[trigger] ports[t]).0 as int;
                    &&& components@[n].state.deep_view() == base[n].state.deep_view().update(
                        0,
                        inp[t],
                    )
                    &&& components@[n].next_state.deep_view()
                        == base[n].next_state.deep_view().update(0, inp[t])
                    &&& components@[n].depends_on == base[n].depends_on
                    &&& components@[n].connected_to == base[n].connected_to
                    &&& components@[n].updater == base[n].updater
                },
            forall|i: int|
                0 <= i < base.len() && !(exists|t: int|
                    0 <= t < p && (#[trigger] ports[t]).0 as int == i) ==> components@[i]
                    == base[i],
            queue@.no_duplicates(),
            queue_valid(queue@, base.len()),
            forall|x: usize|
                #[trigger] queue@.contains(x) <==> (q0.contains(x) || exists|t: int|
                    0 <= t < p && base[(#[trigger] ports[t]).0 as int].state.deep_view()[0]
                        != inp[t] && base[ports[t].0 as int].connected_to@.contains(x)),
        decreases np - p,
    {
        let pr = in_ports[p];
        let nid = pr.0;
        proof {
            assert(pr == in_ports@[p as int]);
            if exists|t: int| 0 <= t < p && (#[trigger] ports[t]).0 as int == nid as int {
                let t = choose|t: int| 0 <= t < p && (#[trigger] ports[t]).0 as int == nid as int;
                assert(ports[t].0 == ports[p as int].0);
                assert(t == p as int);
                assert(false);
            }
            assert(components@[nid as int] == base[nid as int]);
            assert(base[nid as int].can_update(states_of(base)));
            assert(base[nid as int].updater.spec_output_count()[0] == Some(ports[p as int].1));
            lemma_vec_rows_deep(&components[nid as int].state);
            lemma_vec_rows_deep(&components[nid as int].next_state);
        }
        let differs = !row_eq(&components[nid].state[0], &input[p]);
        let row = copy_bits(&input[p]);
        components[nid].state.set(0, row);
        let row2 = copy_bits(&input[p]);
        components[nid].next_state.set(0, row2);
        proof {
            lemma_vec_rows_deep(&components[nid as int].state);
            lemma_vec_rows_deep(&components[nid as int].next_state);
            assert(components@[nid as int].state.deep_view() =~= base[nid as int].state.deep_view().update(0, inp[p as int]));
            assert(components@[nid as int].next_state.deep_view() =~= base[nid as int].next_state.deep_view().update(0, inp[p as int]));
            assert(differs == (base[nid as int].state.deep_view()[0] != inp[p as int]));
        }
        let ghost before_fan = queue@;
        if differs {
            let nf = components[nid].connected_to.len();
            let ghost fans = base[nid as int].connected_to@;
            proof {
                assert forall|m: int| 0 <= m < fans.len() implies ((#[trigger] fans[m]) as nat)
                    < base.len() by {
                    assert(base[nid as int].connected_to@[m] == fans[m]);
                }
            }
            let mut f: usize = 0;
            while f < nf
                invariant
                    f <= nf,
                    (nid as nat) < components@.len(),
                    components@.len() == base.len(),
                    nf == components@[nid as int].connected_to@.len(),
                    components@[nid as int].connected_to@ == fans,
                    forall|m: int| 0 <= m < fans.len() ==> ((#[trigger] fans[m]) as nat) < base.len(),
                    queue@.no_duplicates(),
                    queue_valid(queue@, base.len()),
                    forall|x: usize|
                        #[trigger] queue@.contains(x) <==> (before_fan.contains(x) || fans.take(
                            f as int,
                        ).contains(x)),
                decreases nf - f,
            {
                let tgt = components[nid].connected_to[f];
                let ghost prevq = queue@;
                push_unique(queue, tgt);
                proof {
                    lemma_push_unique_contains(prevq, tgt);
                    assert(fans[f as int] == tgt);
                    assert forall|x: usize|
                        #[trigger] queue@.contains(x) <==> (before_fan.contains(x) || fans.take(
                        f as int + 1,
                    ).contains(x)) by {
                        assert(queue@.contains(x) <==> (prevq.contains(x) || x == tgt));
                    }
                    assert(queue_valid(queue@, base.len())) by {
                        assert((tgt as nat) < base.len());
                        if !prevq.contains(tgt) {
                            assert(queue@ == prevq.push(tgt));
                            assert forall|j: int|
                                0 <= j < queue@.len() implies ((#[trigger] queue@[j]) as nat)
                                < base.len() by {
                                if j < prevq.len() {
                                    assert(queue@[j] == prevq[j]);
                                }
                            }
                        }
                    }
                }
                f += 1;
            }
            proof {
                assert(fans.take(nf as int) =~= fans);
            }
        }
        proof {
            let ghost fans = base[nid as int].connected_to@;
            assert forall|x: usize|
                #[trigger] queue@.contains(x) <==> (q0.contains(x) || exists|t: int|
                    0 <= t < p + 1 && base[(#[trigger] ports[t]).0 as int].state.deep_view()[0]
                        != inp[t] && base[ports[t].0 as int].connected_to@.contains(x)) by {
                if queue@.contains(x) {
                    if before_fan.contains(x) {
                        if !q0.contains(x) {
                            let t = choose|t: int|
                                0 <= t < p && base[(#[trigger] ports[t]).0 as int].state.deep_view()[0]
                                    != inp[t] && base[ports[t].0 as int].connected_to@.contains(x);
                            assert(0 <= t < p + 1);
                        }
                    } else {
                        assert(differs && fans.contains(x));
                    }
                }
                if !queue@.contains(x) && (q0.contains(x) || exists|t: int|
                    0 <= t < p + 1 && base[(#[trigger] ports[t]).0 as int].state.deep_view()[0]
                        != inp[t] && base[ports[t].0 as int].connected_to@.contains(x)) {
                    if !q0.contains(x) {
                        let t = choose|t: int|
                            0 <= t < p + 1 && base[(#[trigger] ports[t]).0 as int].state.deep_view()[0]
                                != inp[t] && base[ports[t].0 as int].connected_to@.contains(x);
                        if t < p {
                            assert(before_fan.contains(x));
                        } else {
                            assert(differs && fans.contains(x));
                        }
                        assert(false);
                    }
                    assert(false);
                }
            }
            assert forall|i: int|
                0 <= i < base.len() && !(exists|t: int|
                    0 <= t < p + 1 && (#[trigger] ports[t]).0 as int == i) implies components@[i]
                == base[i] by {
                if exists|t: int| 0 <= t < p && (#[trigger] ports[t]).0 as int == i {
                    let t = choose|t: int| 0 <= t < p && (#[trigger] ports[t]).0 as int == i;
                    assert(0 <= t < p + 1);
                }
                assert(i != nid as int) by {
                    assert(ports[p as int].0 as int == nid as int);
                }
            }
        }
        p += 1;
    }
    let ghost fwd = components@;
    let ghost q1 = queue@;
    proof {
        assert(forwarded_rel(base, ports, inp, q0, fwd, q1)) by {
            assert forall|t: int|
                0 <= t < ports.len() implies {
                let n = (#[trigger] ports[t]).0 as int;
                &&& fwd[n].state.deep_view() == base[n].state.deep_view().update(0, inp[t])
                &&& fwd[n].next_state.deep_view() == base[n].next_state.deep_view().update(
                    0,
                    inp[t],
                )
                &&& fwd[n].depends_on == base[n].depends_on
                &&& fwd[n].connected_to == base[n].connected_to
                &&& fwd[n].updater == base[n].updater
            } by {}
        }
        // the forwarded snapshot has the stored snapshot's shape
        let snap1 = states_of(base);
        let snap2 = states_of(fwd);
        assert forall|n: int| 0 <= n < snap1.len() implies #[trigger] snap2[n].len()
            == snap1[n].len() by {
            if exists|t: int| 0 <= t < ports.len() && (#[trigger] ports[t]).0 as int == n {
                let t = choose|t: int| 0 <= t < ports.len() && (#[trigger] ports[t]).0 as int == n;
                assert(fwd[n].state.deep_view() == base[n].state.deep_view().update(0, inp[t]));
            } else {
                assert(fwd[n] == base[n]);
            }
        }
        assert forall|n: int, o: int|
            0 <= n < snap1.len() && 0 <= o < snap1[n].len() implies #[trigger] snap2[n][o].len()
            == snap1[n][o].len() by {
            if exists|t: int| 0 <= t < ports.len() && (#[trigger] ports[t]).0 as int == n {
                let t = choose|t: int| 0 <= t < ports.len() && (#[trigger] ports[t]).0 as int == n;
                assert(fwd[n].state.deep_view() == base[n].state.deep_view().update(0, inp[t]));
                if o == 0 {
                    assert(base[n].updater.spec_output_count()[0] == Some(ports[t].1));
                    assert(snap1[n][0].len() == ports[t].1);
                    assert(snap2[n][0] == inp[t]);
                }
            } else {
                assert(fwd[n] == base[n]);
            }
        }
        // every queued component can evaluate against the forwarded snapshot
        assert forall|j: int|
            0 <= j < q1.len() implies (#[trigger] fwd[q1[j] as int]).can_update(states_of(fwd)) by {
            let i = q1[j] as int;
            assert(base[i].can_update(snap1));
            assert(outputs_ok(fwd[i].updater, fwd[i].state.deep_view())) by {
                if exists|t: int| 0 <= t < ports.len() && (#[trigger] ports[t]).0 as int == i {
                    let t = choose|t: int|
                        0 <= t < ports.len() && (#[trigger] ports[t]).0 as int == i;
                    assert(base[i].updater.spec_output_count() =~= seq![Some(ports[t].1)]);
                    assert(fwd[i].state.deep_view() == base[i].state.deep_view().update(0, inp[t]));
                    assert(fwd[i].state.deep_view().len() == 1);
                    assert(fwd[i].state.deep_view()[0].len() == ports[t].1);
                } else {
                    assert(fwd[i] == base[i]);
                }
            }
            assert(outputs_ok(fwd[i].updater, fwd[i].next_state.deep_view())) by {
                if exists|t: int| 0 <= t < ports.len() && (#[trigger] ports[t]).0 as int == i {
                    let t = choose|t: int|
                        0 <= t < ports.len() && (#[trigger] ports[t]).0 as int == i;
                    assert(base[i].updater.spec_output_count() =~= seq![Some(ports[t].1)]);
                    assert(fwd[i].next_state.deep_view() == base[i].next_state.deep_view().update(
                        0,
                        inp[t],
                    ));
                    assert(fwd[i].next_state.deep_view().len() == 1);
                    assert(fwd[i].next_state.deep_view()[0].len() == ports[t].1);
                } else {
                    assert(fwd[i] == base[i]);
                }
            }
            assert(fwd[i].updater == base[i].updater && fwd[i].depends_on == base[i].depends_on)
                by {
                if exists|t: int| 0 <= t < ports.len() && (#[trigger] ports[t]).0 as int == i {
                } else {
                    assert(fwd[i] == base[i]);
                }
            }
            lemma_can_update_shape(base[i], fwd[i], snap1, snap2);
        }
    }
    proof {
        assert forall|i: int| 0 <= i < fwd.len() implies (#[trigger] base[i]).updater
            == fwd[i].updater by {
            if exists|t: int| 0 <= t < ports.len() && (#[trigger] ports[t]).0 as int == i {
            } else {
                assert(fwd[i] == base[i]);
            }
        }
        lemma_net_height_pointwise(base, fwd);
    }
    let mut sim = Simulation { queue: Vec::new() };
    core::mem::swap(&mut sim.queue, queue);
    sim.tick(components);
    core::mem::swap(&mut sim.queue, queue);
    let ghost cs2 = components@;
    proof {
        assert(tick_rel(fwd, q1, cs2, queue@));
        assert forall|i: int| 0 <= i < fwd.len() implies (#[trigger] fwd[i]).updater
            == base[i].updater by {
            if exists|t: int| 0 <= t < ports.len() && (#[trigger] ports[t]).0 as int == i {
            } else {
                assert(fwd[i] == base[i]);
            }
        }
        assert forall|i: int|
            0 <= i < fwd.len() implies !((#[trigger] fwd[i]).updater matches Updater::Composite {
            ..
        }) by {
            assert(fwd[i].updater == base[i].updater);
        }
        lemma_tick_rel_subnet(base, fwd, q1, cs2, queue@);
    }
    let no = out_ports.len();
    let mut p2: usize = 0;
    while p2 < no
        invariant
            p2 <= no,
            no == out_ports@.len(),
            components@ == cs2,
            cs2.len() == base.len(),
            forall|t: int| 0 <= t < no ==> ((#[trigger] out_ports@[t]).0 as nat) < base.len(),
            output@.len() == out_ports@.len(),
            forall|t: int|
                0 <= t < p2 ==> #[trigger] output@[t]@ == out_value(
                    cs2[out_ports@[t].0 as int].updater,
                ),
        decreases no - p2,
    {
        let pr = out_ports[p2];
        let nid = pr.0;
        let row = match &components[nid].updater {
            Updater::Out { value, .. } => copy_bits(value),
            _ => Vec::new(),
        };
        output.set(p2, row);
        p2 += 1;
    }
    proof {
        lemma_vec_rows_deep(output);
        assert(output.deep_view() =~= Seq::new(
            out_ports@.len(),
            |p: int| out_value(cs2[out_ports@[p].0 as int].updater),
        ));
        assert(forwarded_rel(base, in_ports@, input.deep_view(), q0, fwd, q1)
            && subnet_ticks_to(base, fwd, q1, cs2, queue@));
    }
}

} // verus!
