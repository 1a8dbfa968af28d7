//! How much of the grid the pieces of a sweep cover, edge by edge, and how
//! much work a sweep has left.
use vstd::prelude::*;
use crate::geom::LineOrPoint;
use crate::model::{copies, first_at, fresh, lemma_first_at, others, State};
use crate::segment::{split, Segment, SplitSegments};

verus! {

/// The length of a piece, in steps of the sweep order from its left end to
/// its right end. Lengths add up along a segment: a point between the ends
/// parts the length in two.
pub open spec fn width(g: LineOrPoint) -> int {
    match g {
        LineOrPoint::Point(_) => 0,
        LineOrPoint::Line { left, right } => (right.x - left.x) * 0x1_0000_0000 + (right.y
            - left.y),
    }
}

/// What is summed over the pieces.
pub enum Weight {
    /// The length of the pieces of one edge.
    Extent(usize),
    /// The cuts that a piece can still take: one less than its length.
    Slack,
}

/// What a piece of the edge `edge` on the stretch `g` counts for.
pub open spec fn weigh(k: Weight, edge: usize, g: LineOrPoint) -> int {
    match k {
        Weight::Extent(e) => if edge == e {
            width(g)
        } else {
            0
        },
        Weight::Slack => if g is Line {
            width(g) - 1
        } else {
            0
        },
    }
}

/// The sum over all pieces.
pub open spec fn total(segs: Seq<Segment>, k: Weight) -> int
    decreases segs.len(),
{
    if segs.len() == 0 {
        0
    } else {
        total(segs.drop_last(), k) + weigh(k, segs.last().edge, segs.last().geom)
    }
}

/// The sum over the pieces `ms`, each taken as if it lay on `g`.
pub open spec fn tally(segs: Seq<Segment>, ms: Seq<usize>, k: Weight, g: LineOrPoint) -> int
    decreases ms.len(),
{
    if ms.len() == 0 {
        0
    } else {
        tally(segs, ms.drop_last(), k, g) + weigh(k, segs[ms.last() as int].edge, g)
    }
}

/// The sum over two runs of pieces is the sum of their sums.
pub proof fn lemma_total_add(a: Seq<Segment>, b: Seq<Segment>, k: Weight)
    ensures
        total(a + b, k) == total(a, k) + total(b, k),
    decreases b.len(),
{
    if b.len() == 0 {
        assert(a + b =~= a);
    } else {
        lemma_total_add(a, b.drop_last(), k);
        assert((a + b).drop_last() =~= a + b.drop_last());
    }
}

/// Replacing one piece changes the sum by what the two count for.
pub proof fn lemma_total_update(s: Seq<Segment>, i: int, v: Segment, k: Weight)
    requires
        0 <= i < s.len(),
    ensures
        total(s.update(i, v), k) == total(s, k) - weigh(k, s[i].edge, s[i].geom) + weigh(
            k,
            v.edge,
            v.geom,
        ),
    decreases s.len(),
{
    if i == s.len() - 1 {
        assert(s.update(i, v).drop_last() =~= s.drop_last());
    } else {
        lemma_total_update(s.drop_last(), i, v, k);
        assert(s.update(i, v).drop_last() =~= s.drop_last().update(i, v));
    }
}

/// Pieces with the same edges on the same stretches have the same sum.
pub proof fn lemma_total_same(a: Seq<Segment>, b: Seq<Segment>, k: Weight)
    requires
        a.len() == b.len(),
        forall|i: int| 0 <= i < a.len() ==> a[i].edge == b[i].edge && a[i].geom == b[i].geom,
    ensures
        total(a, k) == total(b, k),
    decreases a.len(),
{
    if a.len() > 0 {
        lemma_total_same(a.drop_last(), b.drop_last(), k);
    }
}

/// Copies of pieces on one stretch sum to the tally of the copied pieces
/// on that stretch.
pub proof fn lemma_total_copies(
    segs: Seq<Segment>,
    ms: Seq<usize>,
    geom: LineOrPoint,
    chain: usize,
    k: Weight,
)
    ensures
        total(copies(segs, ms, geom, chain), k) == tally(segs, ms, k, geom),
    decreases ms.len(),
{
    if ms.len() > 0 {
        lemma_total_copies(segs, ms.drop_last(), geom, chain, k);
        assert(copies(segs, ms, geom, chain).drop_last() =~= copies(
            segs,
            ms.drop_last(),
            geom,
            chain,
        ));
    }
}

/// The tally over two runs is the sum of their tallies.
pub proof fn lemma_tally_add(
    segs: Seq<Segment>,
    a: Seq<usize>,
    b: Seq<usize>,
    k: Weight,
    g: LineOrPoint,
)
    ensures
        tally(segs, a + b, k, g) == tally(segs, a, k, g) + tally(segs, b, k, g),
    decreases b.len(),
{
    if b.len() == 0 {
        assert(a + b =~= a);
    } else {
        lemma_tally_add(segs, a, b.drop_last(), k, g);
        assert((a + b).drop_last() =~= a + b.drop_last());
    }
}

/// The tally reads the edges of the pieces only.
pub proof fn lemma_tally_same(
    a: Seq<Segment>,
    b: Seq<Segment>,
    ms: Seq<usize>,
    k: Weight,
    g: LineOrPoint,
)
    requires
        forall|j: int| 0 <= j < ms.len() ==> a[ms[j] as int].edge == b[ms[j] as int].edge,
    ensures
        tally(a, ms, k, g) == tally(b, ms, k, g),
    decreases ms.len(),
{
    if ms.len() > 0 {
        lemma_tally_same(a, b, ms.drop_last(), k, g);
    }
}

/// The tally of a chain is what one member counts for and the tally of
/// the others.
pub proof fn lemma_tally_others(
    segs: Seq<Segment>,
    ms: Seq<usize>,
    id: usize,
    k: Weight,
    g: LineOrPoint,
)
    requires
        ms.contains(id),
    ensures
        tally(segs, ms, k, g) == weigh(k, segs[id as int].edge, g) + tally(
            segs,
            others(ms, id),
            k,
            g,
        ),
{
    lemma_first_at(ms, id);
    lemma_first_at_finds(ms, id);
    let f = first_at(ms, id);
    let one = seq![id];
    let head = ms.take(f);
    let tail = ms.skip(f + 1);
    assert(ms =~= (head + one) + tail);
    assert(others(ms, id) == head + tail);
    lemma_tally_add(segs, head + one, tail, k, g);
    lemma_tally_add(segs, head, one, k, g);
    lemma_tally_add(segs, head, tail, k, g);
    assert(one.drop_last() =~= Seq::<usize>::empty());
    assert(tally(segs, one.drop_last(), k, g) == 0);
    assert(one.last() == id);
    assert(tally(segs, one, k, g) == weigh(k, segs[id as int].edge, g));
}

/// A member of a chain has a first place in it.
pub proof fn lemma_first_at_finds(ms: Seq<usize>, id: usize)
    requires
        ms.contains(id),
    ensures
        first_at(ms, id) < ms.len(),
    decreases ms.len(),
{
    if ms[0] != id {
        let w = choose|w: int| 0 <= w < ms.len() && ms[w] == id;
        assert(ms.skip(1)[w - 1] == id);
        lemma_first_at_finds(ms.skip(1), id);
    }
}

/// Where what a piece counts for on `g` is, by `c`, more than what it
/// counts for on `l` and on `r` together, whatever its edge, the tallies
/// differ by `c` for each piece.
pub proof fn lemma_tally_split(
    segs: Seq<Segment>,
    ms: Seq<usize>,
    k: Weight,
    g: LineOrPoint,
    l: LineOrPoint,
    r: LineOrPoint,
    c: int,
)
    requires
        forall|edge: usize| weigh(k, edge, l) + weigh(k, edge, r) + c == #[trigger] weigh(k, edge, g),
    ensures
        tally(segs, ms, k, l) + tally(segs, ms, k, r) + c * ms.len() == tally(segs, ms, k, g),
    decreases ms.len(),
{
    if ms.len() > 0 {
        lemma_tally_split(segs, ms.drop_last(), k, g, l, r, c);
        assert(c * ms.len() == c * ms.drop_last().len() + c) by (nonlinear_arith)
            requires
                ms.len() == ms.drop_last().len() + 1,
        ;
    }
}

/// The pieces with those of `ms` cut back to `left`.
pub open spec fn cut_back(segs: Seq<Segment>, ms: Seq<usize>, left: LineOrPoint) -> Seq<Segment> {
    Seq::new(
        segs.len(),
        |i: int|
            if ms.contains(i as usize) {
                Segment { geom: left, ..segs[i] }
            } else {
                segs[i]
            },
    )
}

/// Cutting back distinct pieces that all lie on `g` changes the sum by
/// the difference of their tallies on the two stretches.
pub proof fn lemma_total_cut_back(
    segs: Seq<Segment>,
    ms: Seq<usize>,
    g: LineOrPoint,
    left: LineOrPoint,
    k: Weight,
)
    requires
        segs.len() <= usize::MAX,
        ms.no_duplicates(),
        forall|j: int| 0 <= j < ms.len() ==> ms[j] < segs.len() && segs[ms[j] as int].geom == g,
    ensures
        total(cut_back(segs, ms, left), k) == total(segs, k) - tally(segs, ms, k, g) + tally(
            segs,
            ms,
            k,
            left,
        ),
    decreases ms.len(),
{
    if ms.len() == 0 {
        assert(cut_back(segs, ms, left) =~= segs);
    } else {
        let head = ms.drop_last();
        let m = ms.last();
        lemma_total_cut_back(segs, head, g, left, k);
        let before = cut_back(segs, head, left);
        assert(!head.contains(m)) by {
            if head.contains(m) {
                let w = choose|w: int| 0 <= w < head.len() && head[w] == m;
                assert(ms[w] == ms[ms.len() - 1]);
            }
        }
        assert(before[m as int] == segs[m as int]);
        let v = Segment { geom: left, ..segs[m as int] };
        assert(cut_back(segs, ms, left) =~= before.update(m as int, v)) by {
            assert forall|i: int| 0 <= i < segs.len() implies cut_back(segs, ms, left)[i]
                == before.update(m as int, v)[i] by {
                if head.contains(i as usize) {
                    let w = choose|w: int| 0 <= w < head.len() && head[w] == i as usize;
                    assert(ms[w] == i as usize);
                }
                if ms.contains(i as usize) && i != m {
                    let w = choose|w: int| 0 <= w < ms.len() && ms[w] == i as usize;
                    assert(head[w] == i as usize);
                }
                if i == m {
                    assert(ms[ms.len() - 1] == i as usize);
                }
            }
        }
        lemma_total_update(before, m as int, v, k);
    }
}

/// The work that a sweep has left: the events that wait, and three for
/// every cut that a piece can still take.
pub open spec fn work(st: State) -> int {
    st.queue.len() + 3 * total(st.segs, Weight::Slack)
}

/// From `old` to `new` the work has not grown, and the pieces of every
/// edge cover as much as before.
pub open spec fn advances(old: State, new: State) -> bool {
    &&& work(new) <= work(old)
    &&& forall|e: usize| #[trigger]
        total(new.segs, Weight::Extent(e)) == total(old.segs, Weight::Extent(e))
}

/// What a cut takes from each piece that it cuts: one cut of those that
/// the piece could still take, and nothing of what its edge covers.
pub open spec fn toll(k: Weight) -> int {
    match k {
        Weight::Extent(_) => 0,
        Weight::Slack => 1,
    }
}

/// No piece of a well-formed state counts for less than nothing.
pub proof fn lemma_total_nonnegative(segs: Seq<Segment>, k: Weight)
    requires
        forall|i: int| 0 <= i < segs.len() ==> (#[trigger] segs[i]).geom.wf(),
    ensures
        total(segs, k) >= 0,
    decreases segs.len(),
{
    if segs.len() > 0 {
        assert(segs.last().geom.wf());
        assert forall|i: int| 0 <= i < segs.drop_last().len() implies (
        #[trigger] segs.drop_last()[i]).geom.wf() by {
            assert(segs[i].geom.wf());
        }
        lemma_total_nonnegative(segs.drop_last(), k);
    }
}

/// The work of a well-formed state is not negative.
pub proof fn lemma_work_nonnegative(st: State)
    requires
        st.wf(),
    ensures
        work(st) >= 0,
{
    lemma_total_nonnegative(st.segs, Weight::Slack);
}

/// The members of the chain of a piece lie where the piece lies.
proof fn lemma_chain_coincides(st: State, id: usize)
    requires
        st.wf(),
        id < st.segs.len(),
    ensures
        st.chain_of(id).contains(id),
        st.chain_of(id).no_duplicates(),
        forall|j: int|
            0 <= j < st.chain_of(id).len() ==> (#[trigger] st.chain_of(id)[j]) < st.segs.len()
                && st.segs[st.chain_of(id)[j] as int].geom == st.segs[id as int].geom
                && st.segs[st.chain_of(id)[j] as int].chain == st.segs[id as int].chain,
{
    let c = st.segs[id as int].chain as int;
    let ms = st.chains[c];
    assert(st.chains[st.segs[id as int].chain as int].contains(id));
    let w = choose|w: int| 0 <= w < ms.len() && ms[w] == id;
    assert(st.segs[st.chains[c][w] as int].geom == st.segs[st.chains[c][0] as int].geom);
    assert(st.chains[c].no_duplicates());
    assert forall|j: int| 0 <= j < ms.len() implies (#[trigger] ms[j]) < st.segs.len()
        && st.segs[ms[j] as int].geom == st.segs[id as int].geom && st.segs[ms[j] as int].chain
        == st.segs[id as int].chain by {
        assert(st.chains[c][j] < st.segs.len());
        assert(st.segs[st.chains[c][j] as int].geom == st.segs[st.chains[c][0] as int].geom);
        assert(st.segs[st.chains[c][j] as int].chain == c);
    }
}

/// Cutting a piece and its chain back changes the sum by the difference
/// of the chain's tallies on the two stretches.
proof fn lemma_shortened_total(st: State, id: usize, left: LineOrPoint, k: Weight)
    requires
        st.wf(),
        id < st.segs.len(),
        st.segs.len() <= usize::MAX,
    ensures
        total(st.shortened(id, left).segs, k) == total(st.segs, k) - tally(
            st.segs,
            st.chain_of(id),
            k,
            st.segs[id as int].geom,
        ) + tally(st.segs, st.chain_of(id), k, left),
{
    lemma_chain_coincides(st, id);
    let ms = st.chain_of(id);
    assert(st.shortened(id, left).segs =~= cut_back(st.segs, ms, left));
    lemma_total_cut_back(st.segs, ms, st.segs[id as int].geom, left, k);
}

/// Making a piece adds what it counts for and the tally of the copied
/// pieces on its stretch.
proof fn lemma_created_total(
    st: State,
    edge: usize,
    tags: u8,
    geom: LineOrPoint,
    parent: Option<usize>,
    k: Weight,
)
    ensures
        total(st.created(edge, tags, geom, parent).segs, k) == total(st.segs, k) + weigh(
            k,
            edge,
            geom,
        ) + tally(st.segs, st.rest_of(parent), k, geom),
{
    let c = st.chains.len() as usize;
    let main = fresh(geom, edge, tags, parent is None, c);
    let tail = copies(st.segs, st.rest_of(parent), geom, c);
    lemma_total_add(st.segs.push(main), tail, k);
    lemma_total_copies(st.segs, st.rest_of(parent), geom, c, k);
    assert(st.segs.push(main).drop_last() =~= st.segs);
}

/// Cutting a piece and its chain back to `left` and making a new piece
/// on `right` changes the sum by the chain's tallies: those on the two
/// stretches come in place of that on the old one.
proof fn lemma_cut_off_total(st: State, id: usize, left: LineOrPoint, right: LineOrPoint, k: Weight)
    requires
        st.wf(),
        id < st.segs.len(),
        st.segs.len() <= usize::MAX,
    ensures
        total(
            st.shortened(id, left).created(
                st.segs[id as int].edge,
                st.segs[id as int].tags,
                right,
                Some(id),
            ).segs,
            k,
        ) + tally(st.segs, st.chain_of(id), k, st.segs[id as int].geom) == total(st.segs, k)
            + tally(st.segs, st.chain_of(id), k, left) + tally(st.segs, st.chain_of(id), k, right),
{
    let s = st.segs[id as int];
    let s1 = st.shortened(id, left);
    let ms = st.chain_of(id);
    lemma_chain_coincides(st, id);
    lemma_shortened_total(st, id, left, k);
    lemma_created_total(s1, s.edge, s.tags, right, Some(id), k);
    assert(s1.chain_of(id) == ms);
    crate::model::lemma_others_are_members(ms, id);
    assert forall|j: int| 0 <= j < others(ms, id).len() implies s1.segs[others(ms, id)[j] as int].edge
        == st.segs[others(ms, id)[j] as int].edge by {
        let v = others(ms, id)[j];
        assert(ms.contains(v));
        let w = choose|w: int| 0 <= w < ms.len() && ms[w] == v;
        assert(ms[w] < st.segs.len());
    }
    lemma_tally_same(s1.segs, st.segs, others(ms, id), k, right);
    lemma_tally_others(st.segs, ms, id, k, right);
    assert(s1.segs[id as int].edge == s.edge);
}

/// Cutting a piece takes the toll from each member of its chain for each
/// of the cuts, and nothing else.
pub proof fn lemma_adjusted_total(st: State, id: usize, common: LineOrPoint, k: Weight)
    requires
        st.wf(),
        id < st.segs.len(),
        st.segs.len() <= usize::MAX,
    ensures
        total(st.adjusted(id, common).segs, k) + toll(k) * st.chain_of(id).len() * (match split(
            st.segs[id as int].geom,
            common,
        ) {
            SplitSegments::Unchanged { .. } => 0int,
            SplitSegments::SplitOnce { .. } => 1int,
            SplitSegments::SplitTwice { .. } => 2int,
        }) == total(st.segs, k),
{
    let s = st.segs[id as int];
    let g = s.geom;
    let ms = st.chain_of(id);
    lemma_chain_coincides(st, id);
    crate::segment::lemma_split_covers(g, common);
    match split(g, common) {
        SplitSegments::Unchanged { overlap } => {},
        SplitSegments::SplitOnce { overlap, left, right } => {
            lemma_cut_off_total(st, id, left, right, k);
            assert forall|edge: usize| weigh(k, edge, left) + weigh(k, edge, right) + toll(k)
                == #[trigger] weigh(k, edge, g) by {}
            lemma_tally_split(st.segs, ms, k, g, left, right, toll(k));
            assert(toll(k) * ms.len() * 1 == toll(k) * ms.len()) by (nonlinear_arith);
        },
        SplitSegments::SplitTwice { left, middle, right } => {
            let rest = LineOrPoint::Line { left: middle.left_spec(), right: right.right_spec() };
            lemma_cut_off_total(st, id, left, right, k);
            let s1 = st.shortened(id, left);
            let s2 = s1.created(s.edge, s.tags, right, Some(id));
            lemma_created_total(s2, s.edge, s.tags, middle, Some(id), k);
            assert(s2.chain_of(id) == ms);
            crate::model::lemma_others_are_members(ms, id);
            assert forall|j: int| 0 <= j < others(ms, id).len() implies s2.segs[others(
                ms,
                id,
            )[j] as int].edge == st.segs[others(ms, id)[j] as int].edge by {
                let v = others(ms, id)[j];
                assert(ms.contains(v));
                let w = choose|w: int| 0 <= w < ms.len() && ms[w] == v;
                assert(ms[w] < st.segs.len());
            }
            lemma_tally_same(s2.segs, st.segs, others(ms, id), k, middle);
            lemma_tally_others(st.segs, ms, id, k, middle);
            assert(s2.segs[id as int].edge == s.edge);
            assert forall|edge: usize| weigh(k, edge, middle) + weigh(k, edge, right) + toll(k)
                == #[trigger] weigh(k, edge, rest) by {}
            lemma_tally_split(st.segs, ms, k, rest, middle, right, toll(k));
            assert forall|edge: usize| weigh(k, edge, left) + weigh(k, edge, rest) + toll(k)
                == #[trigger] weigh(k, edge, g) by {}
            lemma_tally_split(st.segs, ms, k, g, left, rest, toll(k));
            assert(toll(k) * ms.len() * 2 == toll(k) * ms.len() + toll(k) * ms.len())
                by (nonlinear_arith);
        },
    }
}

/// Cutting a piece back queues one event.
proof fn lemma_shortened_len(st: State, id: usize, left: LineOrPoint)
    ensures
        st.shortened(id, left).queue.len() == st.queue.len() + 1,
{
    let s = Segment { geom: left, ..st.segs[id as int] };
    crate::events::lemma_slot(st.queue, s.right_event(id));
}

/// Making a piece queues two events.
proof fn lemma_created_len(
    st: State,
    edge: usize,
    tags: u8,
    geom: LineOrPoint,
    parent: Option<usize>,
)
    ensures
        st.created(edge, tags, geom, parent).queue.len() == st.queue.len() + 2,
{
    let n = st.segs.len() as usize;
    let main = fresh(geom, edge, tags, parent is None, st.chains.len() as usize);
    crate::events::lemma_slot(st.queue, main.left_event(n));
    crate::events::lemma_slot(
        crate::model::queued(st.queue, main.left_event(n)),
        main.right_event(n),
    );
}

/// A cut does not add to the work of a sweep, and leaves what the
/// pieces of every edge cover together as it was.
pub proof fn lemma_adjusted_advances(st: State, id: usize, common: LineOrPoint)
    requires
        st.wf(),
        id < st.segs.len(),
        st.segs.len() <= usize::MAX,
    ensures
        advances(st, st.adjusted(id, common)),
{
    let t = st.adjusted(id, common);
    let n = st.chain_of(id).len();
    let s = st.segs[id as int];
    lemma_chain_coincides(st, id);
    lemma_adjusted_total(st, id, common, Weight::Slack);
    assert(n >= 1);
    match split(st.segs[id as int].geom, common) {
        SplitSegments::Unchanged { overlap } => {},
        SplitSegments::SplitOnce { overlap, left, right } => {
            let s1 = st.shortened(id, left);
            lemma_shortened_len(st, id, left);
            lemma_created_len(s1, s.edge, s.tags, right, Some(id));
            assert(t.queue.len() == st.queue.len() + 3);
            assert(1 * n * 1 >= 1) by (nonlinear_arith)
                requires
                    n >= 1,
            ;
        },
        SplitSegments::SplitTwice { left, middle, right } => {
            let s1 = st.shortened(id, left);
            let s2 = s1.created(s.edge, s.tags, right, Some(id));
            lemma_shortened_len(st, id, left);
            lemma_created_len(s1, s.edge, s.tags, right, Some(id));
            lemma_created_len(s2, s.edge, s.tags, middle, Some(id));
            assert(t.queue.len() == st.queue.len() + 5);
            assert(1 * n * 2 >= 2) by (nonlinear_arith)
                requires
                    n >= 1,
            ;
        },
    }
    assert forall|e: usize| #[trigger]
        total(t.segs, Weight::Extent(e)) == total(st.segs, Weight::Extent(e)) by {
        lemma_adjusted_total(st, id, common, Weight::Extent(e));
        assert(0 * n * 0 == 0 && 0 * n * 1 == 0 && 0 * n * 2 == 0) by (nonlinear_arith);
    }
}

/// A change that moves no piece and changes no edge, and adds no event,
/// does not add to the work, and leaves what the pieces of every edge
/// cover as it was.
pub proof fn lemma_same_pieces_advance(old: State, new: State)
    requires
        new.segs.len() == old.segs.len(),
        forall|i: int|
            0 <= i < old.segs.len() ==> old.segs[i].edge == new.segs[i].edge && old.segs[i].geom
                == new.segs[i].geom,
        new.queue.len() <= old.queue.len(),
    ensures
        advances(old, new),
{
    lemma_total_same(old.segs, new.segs, Weight::Slack);
    assert forall|e: usize| #[trigger]
        total(new.segs, Weight::Extent(e)) == total(old.segs, Weight::Extent(e)) by {
        lemma_total_same(old.segs, new.segs, Weight::Extent(e));
    }
}

} // verus!
