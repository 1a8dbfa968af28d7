//! What holds of the sweep whatever the input.
use vstd::prelude::*;
use crate::active::{key_of, probe, search, Key};
use crate::events::{Event, EventType};
use crate::geom::{lemma_compare_self, LineOrPoint};
use crate::model::{State, Step};
use crate::point::{Rel, SweepPoint};
use crate::segment::{split, Segment, SplitSegments};

verus! {

/// Two segments that the sweep line at `at` crosses have an order in the
/// active set: a line that starts at or before `at` and ends after it
/// compares with every other such line, and two different segments never
/// compare as equal.
pub proof fn lemma_crossed_keys_compare(a: Key, b: Key, at: SweepPoint)
    requires
        a.geom is Line,
        b.geom is Line,
        a.geom.left_spec().before_eq(at),
        b.geom.left_spec().before_eq(at),
        at.before(a.geom.right_spec()),
        at.before(b.geom.right_spec()),
    ensures
        probe(a, b) is Some,
        probe(b, a) is Some,
        a.id != b.id ==> probe(a, b) != Some(Rel::Equal),
{
}

/// The sweep line at `at` crosses the piece `g`: a segment that starts at
/// or before `at` and ends after it.
pub open spec fn crossed(g: LineOrPoint, at: SweepPoint) -> bool {
    g is Line && g.left_spec().before_eq(at) && at.before(g.right_spec())
}

/// Bisection among entries that all compare with the query comes to an
/// end without a failed probe.
pub proof fn lemma_search_succeeds(
    entries: Seq<usize>,
    segs: Seq<Segment>,
    q: Key,
    lo: int,
    hi: int,
)
    requires
        0 <= lo <= hi <= entries.len(),
        forall|i: int| lo <= i < hi ==> probe(q, key_of(segs, #[trigger] entries[i])) is Some,
    ensures
        search(entries, segs, q, lo, hi) is Some,
    decreases hi - lo,
{
    if lo < hi {
        let mid = lo + (hi - lo) / 2;
        assert(probe(q, key_of(segs, entries[mid])) is Some);
        lemma_search_succeeds(entries, segs, q, lo, mid);
        lemma_search_succeeds(entries, segs, q, mid + 1, hi);
    }
}

/// While the sweep line crosses every active piece, no comparison among
/// them fails: a piece that the line crosses as well has its place in the
/// active set.
pub proof fn lemma_crossed_pieces_have_a_place(st: State, id: usize, at: SweepPoint)
    requires
        id < st.segs.len(),
        crossed(st.segs[id as int].geom, at),
        forall|i: int|
            0 <= i < st.active.len() ==> (#[trigger] st.active[i]) < st.segs.len() && crossed(
                st.segs[st.active[i] as int].geom,
                at,
            ),
    ensures
        st.spot(id) is Some,
{
    let q = key_of(st.segs, id);
    assert forall|i: int| 0 <= i < st.active.len() implies probe(
        q,
        key_of(st.segs, #[trigger] st.active[i]),
    ) is Some by {
        lemma_crossed_keys_compare(q, key_of(st.segs, st.active[i]), at);
    }
    lemma_search_succeeds(st.active, st.segs, q, 0, st.active.len() as int);
}

/// A piece that is put into the active set, or looked up in it, compares
/// with itself: its ends are in sweep order.
pub proof fn lemma_placed_compares_with_itself(st: State, id: usize)
    requires
        st.spot(id) is Some,
    ensures
        probe(key_of(st.segs, id), key_of(st.segs, id)) == Some(Rel::Equal),
{
    lemma_compare_self(st.segs[id as int].geom);
}

/// Where a piece of a well-formed state is cut, it and the new pieces of
/// its edge cover what it covered before, once: it keeps its left end,
/// each new piece starts where the one before it ends, and the last ends
/// where the piece ended. The new pieces belong to the same edge.
pub proof fn lemma_cut_covers(st: State, id: usize, common: LineOrPoint)
    requires
        st.wf(),
        id < st.segs.len(),
    ensures
        ({
            let g = st.segs[id as int].geom;
            let t = st.adjusted(id, common);
            let n = st.segs.len() as int;
            match split(g, common) {
                SplitSegments::Unchanged { overlap } => t == st,
                SplitSegments::SplitOnce { overlap, left, right } => {
                    &&& t.segs[id as int].geom.left_spec() == g.left_spec()
                    &&& t.segs[id as int].geom.right_spec() == t.segs[n].geom.left_spec()
                    &&& t.segs[n].geom.right_spec() == g.right_spec()
                    &&& t.segs[n].edge == st.segs[id as int].edge
                    &&& t.segs[id as int].edge == st.segs[id as int].edge
                },
                SplitSegments::SplitTwice { left, middle, right } => {
                    let m = st.shortened(id, left).created(
                        st.segs[id as int].edge,
                        st.segs[id as int].tags,
                        right,
                        Some(id),
                    ).segs.len() as int;
                    &&& t.segs[id as int].geom.left_spec() == g.left_spec()
                    &&& t.segs[id as int].geom.right_spec() == t.segs[m].geom.left_spec()
                    &&& t.segs[m].geom.right_spec() == t.segs[n].geom.left_spec()
                    &&& t.segs[n].geom.right_spec() == g.right_spec()
                    &&& t.segs[n].edge == st.segs[id as int].edge
                    &&& t.segs[m].edge == st.segs[id as int].edge
                    &&& t.segs[id as int].edge == st.segs[id as int].edge
                },
            }
        }),
{
}

/// When a segment ends, every member of its chain is reported as leaving
/// in that one step, in the order of the chain, and nothing else is
/// reported: no member leaves alone.
pub proof fn lemma_chain_leaves_together(st: State, e: Event)
    requires
        e.ty == EventType::LineRight,
        !st.stale(e),
        st.settled(e) is Some,
    ensures
        st.settled(e).unwrap().reports == st.reports_for(
            e.payload,
            st.chain_of(e.payload),
            EventType::LineRight,
        ),
        st.settled(e).unwrap().reports.len() == st.chain_of(e.payload).len(),
        forall|j: int|
            0 <= j < st.chain_of(e.payload).len() ==> (#[trigger] st.settled(
                e,
            ).unwrap().reports[j]).segment == st.chain_of(e.payload)[j],
{
    let ms = st.chain_of(e.payload);
    assert(ms[0] == e.payload);
    assert(st.with_followers(e.payload) =~= ms);
}

/// An event that a cut or a chain has overtaken is dropped: handling it
/// changes nothing and reports nothing, however often it comes.
pub proof fn lemma_stale_event_is_dropped(st: State, e: Event)
    requires
        st.stale(e),
    ensures
        st.handled(e) == Some(Step { state: st, reports: Seq::empty() }),
        st.handled(e).unwrap().state.handled(e) == st.handled(e),
{
}

} // verus!
