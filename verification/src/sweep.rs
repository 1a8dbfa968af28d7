//! The sweep itself: the pieces, their chains, the queue of events and the
//! active set, advanced one event at a time.
use vstd::prelude::*;
use crate::active::{above, below, ActiveSet};
use crate::error::Error;
use crate::events::{Event, EventQueue, EventType};
use crate::geom::LineOrPoint;
use crate::measure::{
    advances,
    lemma_adjusted_advances,
    lemma_same_pieces_advance,
    lemma_total_nonnegative,
    total,
    width,
    work,
    Weight,
};
use crate::model::{
    copies,
    first_at,
    followers,
    fresh,
    ahead,
    lemma_active_wf,
    lemma_behind_exists,
    lemma_chained_wf,
    lemma_created_wf,
    lemma_entered_wf,
    lemma_finished_reports,
    lemma_first_at,
    lemma_popped_wf,
    lemma_shortened_wf,
    queued,
    run,
    Outcome,
    Report,
    State,
    Touch,
};
use crate::point::SweepPoint;
use crate::segment::{split_segments, Edge, Segment, SplitSegments};

verus! {

/// The sweep over a set of edges.
pub struct Sweep {
    segments: Vec<Segment>,
    chains: Vec<Vec<usize>>,
    events: EventQueue,
    active: ActiveSet,
}

impl View for Sweep {
    type V = State;

    closed spec fn view(&self) -> State {
        State {
            segs: self.segments@,
            chains: Seq::new(self.chains@.len(), |c: int| self.chains@[c]@),
            queue: self.events@,
            active: self.active@,
        }
    }
}

/// The queue that the edges up to the `n`-th leave behind: for each edge
/// in turn, the two events of its piece.
pub open spec fn seeded(edges: Seq<Edge>, n: nat) -> Seq<Event>
    decreases n,
{
    if n == 0 {
        Seq::empty()
    } else {
        let id = (n - 1) as usize;
        let s = piece_of(edges[n - 1], id);
        queued(queued(seeded(edges, (n - 1) as nat), s.left_event(id)), s.right_event(id))
    }
}

/// The piece that covers the whole of an edge, the `id`-th of the input.
pub open spec fn piece_of(e: Edge, id: usize) -> Segment {
    fresh(LineOrPoint::between(e.a, e.b), id, e.tags, true, id)
}

impl Sweep {
    /// What holds of every sweep.
    pub open spec fn wf(&self) -> bool {
        self@.wf()
    }

    /// A sweep over `edges`, with one piece for each edge, in a chain of
    /// its own, and the two events of each piece in the queue.
    pub fn new(edges: &Vec<Edge>) -> (sweep: Sweep)
        ensures
            sweep.wf(),
            sweep@.segs == Seq::new(edges@.len(), |i: int| piece_of(edges@[i], i as usize)),
            sweep@.chains == Seq::new(edges@.len(), |i: int| seq![i as usize]),
            sweep@.active == Seq::<usize>::empty(),
            sweep@.queue == seeded(edges@, edges@.len()),
            forall|e: usize|
                e < edges@.len() ==> #[trigger] total(sweep@.segs, Weight::Extent(e)) == width(
                    LineOrPoint::between(edges@[e as int].a, edges@[e as int].b),
                ),
    {
        let mut sweep = Sweep {
            segments: Vec::new(),
            chains: Vec::new(),
            events: EventQueue::new(),
            active: ActiveSet::new(),
        };
        let mut i: usize = 0;
        assert(sweep@.chains =~= Seq::new(0, |i: int| seq![i as usize]));
        assert(sweep@.segs =~= Seq::new(0, |i: int| piece_of(edges@[i], i as usize)));
        while i < edges.len()
            invariant
                0 <= i <= edges@.len(),
                sweep.wf(),
                sweep@.segs == Seq::new(i as nat, |j: int| piece_of(edges@[j], j as usize)),
                sweep@.chains == Seq::new(i as nat, |j: int| seq![j as usize]),
                sweep@.active == Seq::<usize>::empty(),
                sweep@.queue == seeded(edges@, i as nat),
                forall|e: usize| #[trigger]
                    total(sweep@.segs, Weight::Extent(e)) == (if e < i {
                        width(LineOrPoint::between(edges@[e as int].a, edges@[e as int].b))
                    } else {
                        0
                    }),
            decreases edges@.len() - i,
        {
            let e = edges[i];
            let ghost before = sweep@;
            let n = sweep.create_segment(i, e.tags, LineOrPoint::new(e.a, e.b), None);
            proof {
                assert(before.rest_of(None::<usize>) =~= Seq::<usize>::empty());
                assert(sweep@.segs =~= Seq::new(
                    (i + 1) as nat,
                    |j: int| piece_of(edges@[j], j as usize),
                ));
                assert(run(i, 1) =~= seq![i]);
                assert(sweep@.chains =~= Seq::new((i + 1) as nat, |j: int| seq![j as usize]));
                assert(sweep@.segs =~= before.segs.push(piece_of(edges@[i as int], i)));
                assert(sweep@.segs.drop_last() =~= before.segs);
                assert forall|e: usize| #[trigger]
                    total(sweep@.segs, Weight::Extent(e)) == (if e < i + 1 {
                        width(LineOrPoint::between(edges@[e as int].a, edges@[e as int].b))
                    } else {
                        0
                    }) by {
                    assert(total(before.segs, Weight::Extent(e)) == (if e < i {
                        width(LineOrPoint::between(edges@[e as int].a, edges@[e as int].b))
                    } else {
                        0
                    }));
                }
            }
            i = i + 1;
        }
        sweep
    }

    /// The number of pieces.
    pub fn segment_count(&self) -> (n: usize)
        ensures
            n == self@.segs.len(),
    {
        self.segments.len()
    }

    /// The number of events that wait.
    pub fn pending_events(&self) -> (n: usize)
        ensures
            n == self@.queue.len(),
    {
        self.events.len()
    }

    /// The piece `id`.
    pub fn segment(&self, id: usize) -> (s: &Segment)
        requires
            id < self@.segs.len(),
        ensures
            *s == self@.segs[id as int],
    {
        &self.segments[id]
    }

    /// Whether another piece stands for the piece `id`.
    pub fn is_overlapping(&self, id: usize) -> (r: bool)
        requires
            self.wf(),
            id < self@.segs.len(),
        ensures
            r == self@.overlapping(id),
    {
        let c: usize = self.segments[id].chain;
        self.chains[c].len() == 0 || self.chains[c][0] != id
    }

    /// The point of the next event, which stays in the queue.
    pub fn peek_point(&self) -> (r: Option<SweepPoint>)
        ensures
            self@.queue.len() == 0 ==> r is None,
            self@.queue.len() > 0 ==> r == Some(self@.queue.last().point),
    {
        match self.events.peek() {
            Some(e) => Some(e.point),
            None => None,
        }
    }

    /// The piece just below the piece `id` in the active set, where the
    /// sweep stands at the left end of `id`. Fails where the piece cannot
    /// be placed among the active pieces.
    pub fn prev_active(&self, id: usize) -> (r: Result<Option<&Segment>, Error>)
        requires
            self.wf(),
            id < self@.segs.len(),
        ensures
            r is Ok <==> self@.spot(id) is Some,
            r matches Ok(o) ==> match below(self@.active, self@.spot(id).unwrap()) {
                Some(k) => k < self@.segs.len() && o == Some(&self@.segs[k as int]),
                None => o is None,
            },
    {
        match self.active.previous(&self.segments, id) {
            Err(e) => Err(e),
            Ok(None) => Ok(None),
            Ok(Some(k)) => Ok(Some(&self.segments[k])),
        }
    }

    /// The piece `id` and the pieces behind it in its chain.
    pub fn chain_from(&self, id: usize) -> (v: Vec<usize>)
        requires
            self.wf(),
            id < self@.segs.len(),
        ensures
            v@ == self@.with_followers(id),
            forall|j: int| 0 <= j < v@.len() ==> (#[trigger] v@[j]) < self@.segs.len(),
    {
        let mut v: Vec<usize> = Vec::new();
        v.push(id);
        let pc: usize = self.segments[id].chain;
        let len: usize = self.chains[pc].len();
        let ghost ms = self.chains@[pc as int]@;
        let mut i: usize = 0;
        proof {
            assert(ms.skip(0) =~= ms);
        }
        while i < len && self.chains[pc][i] != id
            invariant
                0 <= i <= len,
                len == ms.len(),
                pc < self.chains@.len(),
                self.chains@[pc as int]@ == ms,
                followers(ms, id) == followers(ms.skip(i as int), id),
            decreases len - i,
        {
            proof {
                assert(ms.skip(i as int).skip(1) =~= ms.skip(i + 1));
            }
            i = i + 1;
        }
        if i < len {
            proof {
                assert(ms.skip(i as int).skip(1) =~= ms.skip(i + 1));
            }
            i = i + 1;
        } else {
            proof {
                assert(ms.skip(i as int) =~= ms.skip(len as int));
            }
        }
        let ghost start = i;
        let ghost fs = ms.skip(start as int);
        while i < len
            invariant
                start <= i <= len,
                len == ms.len(),
                fs == ms.skip(start as int),
                pc < self.chains@.len(),
                self.chains@[pc as int]@ == ms,
                v@ == seq![id] + fs.take(i - start),
            decreases len - i,
        {
            v.push(self.chains[pc][i]);
            proof {
                assert(v@ =~= seq![id] + fs.take(i + 1 - start));
            }
            i = i + 1;
        }
        proof {
            assert(fs.take(len - start) =~= fs);
            assert(ms == self@.chain_of(id));
            assert(v@ == self@.with_followers(id));
            lemma_behind_exists(self@, Some(id));
            assert forall|j: int| 0 <= j < v@.len() implies (#[trigger] v@[j]) < self@.segs.len() by {
                if j > 0 {
                    assert(v@[j] == self@.behind(Some(id))[j - 1]);
                }
            }
        }
        v
    }

    /// Makes a piece on `geom` for the edge `edge` and queues its two
    /// events. Where it is cut off a `parent`, the other members of the
    /// parent's chain are copied onto `geom` as well, and follow the new
    /// piece in a chain of its own.
    fn create_segment(
        &mut self,
        edge: usize,
        tags: u8,
        geom: LineOrPoint,
        parent: Option<usize>,
    ) -> (n: usize)
        requires
            old(self).wf(),
            geom.wf(),
            parent matches Some(p) ==> p < old(self)@.segs.len(),
        ensures
            final(self).wf(),
            n == old(self)@.segs.len(),
            final(self)@ == old(self)@.created(edge, tags, geom, parent),
            final(self)@.segs.len() > old(self)@.segs.len(),
    {
        let n: usize = self.segments.len();
        let c: usize = self.chains.len();
        let seg = Segment {
            geom,
            edge,
            tags,
            first_segment: parent.is_none(),
            left_event_done: false,
            chain: c,
        };
        let ghost bs = old(self)@.rest_of(parent);
        proof {
            old(self).events.lemma_view_wf();
        }
        self.segments.push(seg);
        self.events.push(seg.left_event_of(n));
        self.events.push(seg.right_event_of(n));
        let mut members: Vec<usize> = Vec::new();
        members.push(n);
        if let Some(p) = parent {
            let pc: usize = self.segments[p].chain;
            let len: usize = self.chains[pc].len();
            let ghost ms = old(self)@.chain_of(p);
            let ghost k = first_at(ms, p);
            proof {
                lemma_first_at(ms, p);
                assert(ms.skip(0) =~= ms);
            }
            let mut skipped: bool = false;
            let mut i: usize = 0;
            while i < len
                invariant
                    0 <= i <= len,
                    len == ms.len(),
                    pc < self.chains@.len(),
                    self.chains@ == old(self).chains@,
                    self.chains@[pc as int]@ == ms,
                    0 <= k <= len,
                    k == first_at(ms, p),
                    skipped ==> k < i,
                    !skipped ==> k == i + first_at(ms.skip(i as int), p),
                    self.events@ == queued(
                        queued(old(self).events@, seg.left_event(n)),
                        seg.right_event(n),
                    ),
                    self.active@ == old(self).active@,
                    old(self).wf(),
                    p < old(self)@.segs.len(),
                    ms == old(self)@.chain_of(p),
                    n == old(self).segments@.len(),
                    c == old(self).chains@.len(),
                    self.segments@ == old(self).segments@.push(seg) + copies(
                        old(self).segments@,
                        if skipped {
                            ms.take(k) + ms.subrange(k + 1, i as int)
                        } else {
                            ms.take(i as int)
                        },
                        geom,
                        c,
                    ),
                    members@ == run(
                        n,
                        (if skipped {
                            i as int
                        } else {
                            i + 1
                        }) as nat,
                    ),
                decreases len - i,
            {
                let m: usize = self.chains[pc][i];
                assert(m == ms[i as int]);
                proof {
                    assert(ms.skip(i as int).skip(1) =~= ms.skip(i + 1));
                    assert(ms.skip(i as int)[0] == m);
                }
                if !skipped && m == p {
                    skipped = true;
                    proof {
                        assert(k == i);
                        assert(ms.take(k) + ms.subrange(k + 1, i + 1) =~= ms.take(i as int));
                    }
                } else {
                    assert(m == old(self)@.chains[old(self)@.segs[p as int].chain as int][i as int]);
                    assert(m < old(self).segments@.len());
                    assert(self.segments@[m as int] == old(self).segments@[m as int]);
                    let src = self.segments[m];
                    let id: usize = self.segments.len();
                    let copy = Segment {
                        geom,
                        edge: src.edge,
                        tags: src.tags,
                        first_segment: false,
                        left_event_done: false,
                        chain: c,
                    };
                    let ghost a = if skipped {
                        ms.take(k) + ms.subrange(k + 1, i as int)
                    } else {
                        ms.take(i as int)
                    };
                    let ghost b = if skipped {
                        ms.take(k) + ms.subrange(k + 1, i + 1)
                    } else {
                        ms.take(i + 1)
                    };
                    self.segments.push(copy);
                    members.push(id);
                    proof {
                        assert(b =~= a.push(m));
                        assert(copies(old(self).segments@, b, geom, c) =~= copies(
                            old(self).segments@,
                            a,
                            geom,
                            c,
                        ).push(copy));
                        assert(self.segments@ =~= old(self).segments@.push(seg) + copies(
                            old(self).segments@,
                            b,
                            geom,
                            c,
                        ));
                        assert(members@ =~= run(n, (members@.len()) as nat));
                    }
                }
                i = i + 1;
            }
            proof {
                if skipped {
                    assert(ms.subrange(k + 1, len as int) =~= ms.skip(k + 1));
                } else {
                    assert(ms.skip(len as int).len() == 0);
                    assert(ms.take(len as int) =~= ms);
                }
                assert(self.segments@ == old(self).segments@.push(seg) + copies(
                    old(self).segments@,
                    bs,
                    geom,
                    c,
                ));
            }
        } else {
            proof {
                assert(self.segments@ =~= old(self).segments@.push(seg) + copies(
                    old(self).segments@,
                    bs,
                    geom,
                    c,
                ));
                assert(members@ =~= run(n, 1));
            }
        }
        self.chains.push(members);
        let total: usize = self.segments.len();
        let count: usize = self.chains.len();
        proof {
            let t = old(self)@.created(edge, tags, geom, parent);
            assert(self@.chains =~= t.chains);
            assert(self@.segs == t.segs);
            assert(self@.queue == t.queue);
            assert(self@ == t);
            lemma_created_wf(old(self)@, edge, tags, geom, parent);
        }
        n
    }

    /// Cuts the piece `id` and the members of its chain back to `left`,
    /// and queues the new right event of the piece.
    fn shorten(&mut self, id: usize, left: LineOrPoint)
        requires
            old(self).wf(),
            id < old(self)@.segs.len(),
            left.wf(),
        ensures
            final(self).wf(),
            final(self)@ == old(self)@.shortened(id, left),
            final(self)@.segs.len() == old(self)@.segs.len(),
    {
        let mut s = self.segments[id];
        s.geom = left;
        proof {
            old(self).events.lemma_view_wf();
        }
        let c: usize = self.segments[id].chain;
        let ghost ms = old(self)@.chain_of(id);
        let slen: usize = self.segments.len();
        self.segments.set(id, s);
        let len: usize = self.chains[c].len();
        let mut j: usize = 0;
        while j < len
            invariant
                0 <= j <= len,
                len == ms.len(),
                c < self.chains@.len(),
                self.chains@ == old(self).chains@,
                self.chains@[c as int]@ == ms,
                ms == old(self)@.chain_of(id),
                old(self).wf(),
                id < slen,
                slen == self.segments@.len(),
                slen == old(self).segments@.len(),
                self.events@ == old(self).events@,
                self.active@ == old(self).active@,
                forall|k: int|
                    0 <= k < slen ==> #[trigger] self.segments@[k] == (if k == id || ms.take(
                        j as int,
                    ).contains(k as usize) {
                        Segment { geom: left, ..old(self).segments@[k] }
                    } else {
                        old(self).segments@[k]
                    }),
            decreases len - j,
        {
            let m: usize = self.chains[c][j];
            assert(m == old(self)@.chains[old(self)@.segs[id as int].chain as int][j as int]);
            assert(m < slen);
            let mut t = self.segments[m];
            t.geom = left;
            let ghost prior = self.segments@;
            self.segments.set(m, t);
            proof {
                let a0 = ms.take(j as int);
                let a1 = ms.take(j + 1);
                assert(a1 =~= a0.push(m));
                assert forall|k: int| 0 <= k < slen implies #[trigger] self.segments@[k] == (if k
                    == id || a1.contains(k as usize) {
                    Segment { geom: left, ..old(self).segments@[k] }
                } else {
                    old(self).segments@[k]
                }) by {
                    if a0.contains(k as usize) {
                        let w = choose|w: int| 0 <= w < a0.len() && a0[w] == k as usize;
                        assert(a1[w] == k as usize);
                    }
                    if k == m {
                        assert(a1[j as int] == m);
                    }
                    if a1.contains(k as usize) && k != m {
                        let w = choose|w: int| 0 <= w < a1.len() && a1[w] == k as usize;
                        assert(a0[w] == k as usize);
                    }
                    assert(prior[k] == (if k == id || a0.contains(k as usize) {
                        Segment { geom: left, ..old(self).segments@[k] }
                    } else {
                        old(self).segments@[k]
                    }));
                }
            }
            j = j + 1;
        }
        self.events.push(s.right_event_of(id));
        proof {
            assert(ms.take(len as int) =~= ms);
            let t = old(self)@.shortened(id, left);
            assert(self@.segs =~= t.segs);
            assert(self@.chains =~= t.chains);
            assert(self@ == t);
            lemma_shortened_wf(old(self)@, id, left);
        }
    }

    /// Cuts the piece `id` by `common`, what it shares with another piece.
    /// It keeps the first part; each further part becomes a new piece of
    /// the same edge, with its events queued. Returns the piece that
    /// covers the common stretch, where that is more than a point.
    fn adjust_one_segment(&mut self, id: usize, common: &LineOrPoint) -> (r: Option<usize>)
        requires
            old(self).wf(),
            id < old(self)@.segs.len(),
        ensures
            final(self).wf(),
            advances(old(self)@, final(self)@),
            final(self)@ == old(self)@.adjusted(id, *common),
            r == old(self)@.shared_piece(id, *common),
            final(self)@.segs.len() >= old(self)@.segs.len(),
            final(self)@.active == old(self)@.active,
            r matches Some(k) ==> k < final(self)@.segs.len(),
    {
        let s = self.segments[id];
        let total: usize = self.segments.len();
        proof {
            lemma_adjusted_advances(old(self)@, id, *common);
        }
        match split_segments(&s.geom, common) {
            SplitSegments::Unchanged { overlap } => {
                if overlap {
                    Some(id)
                } else {
                    None
                }
            },
            SplitSegments::SplitOnce { overlap, left, right } => {
                self.shorten(id, left);
                let n = self.create_segment(s.edge, s.tags, right, Some(id));
                match overlap {
                    None => None,
                    Some(false) => Some(id),
                    Some(true) => Some(n),
                }
            },
            SplitSegments::SplitTwice { left, middle, right } => {
                self.shorten(id, left);
                let _ = self.create_segment(s.edge, s.tags, right, Some(id));
                let m = self.create_segment(s.edge, s.tags, middle, Some(id));
                Some(m)
            },
        }
    }

    /// Joins the chain of the piece `b` to the chain of the piece `a`.
    fn chain_overlap(&mut self, a: usize, b: usize)
        requires
            old(self).wf(),
            a < old(self)@.segs.len(),
            b < old(self)@.segs.len(),
            old(self)@.segs[a as int].geom == old(self)@.segs[b as int].geom,
        ensures
            final(self).wf(),
            advances(old(self)@, final(self)@),
            final(self)@ == old(self)@.chained(a, b),
            final(self)@.segs.len() == old(self)@.segs.len(),
    {
        let x: usize = self.segments[a].chain;
        let y: usize = self.segments[b].chain;
        proof {
            lemma_chained_wf(old(self)@, a, b);
            lemma_same_pieces_advance(old(self)@, old(self)@.chained(a, b));
        }
        if x == y {
            return ;
        }
        let ghost xs = old(self)@.chains[x as int];
        let ghost ys = old(self)@.chains[y as int];
        let mut merged: Vec<usize> = Vec::new();
        let xlen: usize = self.chains[x].len();
        let mut i: usize = 0;
        while i < xlen
            invariant
                0 <= i <= xlen,
                xlen == xs.len(),
                x < self.chains@.len(),
                self.chains@[x as int]@ == xs,
                merged@ == xs.take(i as int),
            decreases xlen - i,
        {
            merged.push(self.chains[x][i]);
            proof {
                assert(merged@ =~= xs.take(i + 1));
            }
            i = i + 1;
        }
        proof {
            assert(xs.take(xlen as int) =~= xs);
        }
        let ylen: usize = self.chains[y].len();
        let slen: usize = self.segments.len();
        let mut j: usize = 0;
        while j < ylen
            invariant
                0 <= j <= ylen,
                slen == self.segments@.len(),
                self.events@ == old(self).events@,
                self.active@ == old(self).active@,
                ylen == ys.len(),
                y < self.chains@.len(),
                self.chains@ == old(self).chains@,
                self.chains@[y as int]@ == ys,
                ys == old(self)@.chains[y as int],
                old(self).wf(),
                merged@ == xs + ys.take(j as int),
                self.segments@.len() == old(self).segments@.len(),
                forall|k: int|
                    0 <= k < self.segments@.len() ==> #[trigger] self.segments@[k] == (if ys.take(
                        j as int,
                    ).contains(k as usize) {
                        Segment { chain: x, ..old(self).segments@[k] }
                    } else {
                        old(self).segments@[k]
                    }),
            decreases ylen - j,
        {
            let m: usize = self.chains[y][j];
            assert(m == old(self)@.chains[y as int][j as int]);
            assert(m < self.segments@.len());
            let mut s = self.segments[m];
            s.chain = x;
            let ghost prior = self.segments@;
            self.segments.set(m, s);
            merged.push(m);
            proof {
                let a0 = ys.take(j as int);
                let a1 = ys.take(j + 1);
                assert(merged@ =~= xs + a1);
                assert(a1 =~= a0.push(m));
                assert forall|k: int| 0 <= k < self.segments@.len() implies #[trigger] self.segments@[k]
                    == (if a1.contains(k as usize) {
                    Segment { chain: x, ..old(self).segments@[k] }
                } else {
                    old(self).segments@[k]
                }) by {
                    if a0.contains(k as usize) {
                        let w = choose|w: int| 0 <= w < a0.len() && a0[w] == k as usize;
                        assert(a1[w] == k as usize);
                    }
                    if k == m {
                        assert(a1[j as int] == m);
                    }
                    if a1.contains(k as usize) && k != m {
                        let w = choose|w: int| 0 <= w < a1.len() && a1[w] == k as usize;
                        assert(a0[w] == k as usize);
                    }
                    assert(prior[k] == (if a0.contains(k as usize) {
                        Segment { chain: x, ..old(self).segments@[k] }
                    } else {
                        old(self).segments@[k]
                    }));
                }
            }
            j = j + 1;
        }
        proof {
            assert(ys.take(ylen as int) =~= ys);
        }
        self.chains.set(x, merged);
        self.chains.set(y, Vec::new());
        proof {
            let t = old(self)@.chained(a, b);
            assert(self@.segs =~= t.segs);
            assert(self@.chains =~= t.chains);
            assert(self@ == t);
        }
    }

    /// Reports each of the pieces `ms` with the kind `kind`, on the
    /// stretch of the piece `root`.
    fn emit(&self, root: usize, ms: &Vec<usize>, kind: EventType, reports: &mut Vec<Report>)
        requires
            root < self@.segs.len(),
            forall|j: int| 0 <= j < ms@.len() ==> (#[trigger] ms@[j]) < self@.segs.len(),
        ensures
            final(reports)@ == old(reports)@ + self@.reports_for(root, ms@, kind),
    {
        let geom = self.segments[root].geom;
        let mut j: usize = 0;
        proof {
            assert(reports@ =~= old(reports)@ + self@.reports_for(root, ms@.take(0), kind));
        }
        while j < ms.len()
            invariant
                0 <= j <= ms@.len(),
                root < self@.segs.len(),
                geom == self@.segs[root as int].geom,
                forall|k: int| 0 <= k < ms@.len() ==> (#[trigger] ms@[k]) < self@.segs.len(),
                reports@ == old(reports)@ + self@.reports_for(root, ms@.take(j as int), kind),
            decreases ms@.len() - j,
        {
            let m: usize = ms[j];
            let src = self.segments[m];
            reports.push(Report { segment: m, kind, geom, edge: src.edge, tags: src.tags });
            proof {
                assert(reports@ =~= old(reports)@ + self@.reports_for(
                    root,
                    ms@.take(j + 1),
                    kind,
                ));
            }
            j = j + 1;
        }
        proof {
            assert(ms@.take(ms@.len() as int) =~= ms@);
        }
    }

    /// Marks each of the pieces `ms` as reported.
    fn mark_entered(&mut self, ms: &Vec<usize>)
        requires
            old(self).wf(),
            forall|j: int| 0 <= j < ms@.len() ==> (#[trigger] ms@[j]) < old(self)@.segs.len(),
        ensures
            final(self).wf(),
            advances(old(self)@, final(self)@),
            final(self)@ == old(self)@.entered(ms@),
            final(self)@.segs.len() == old(self)@.segs.len(),
    {
        let slen: usize = self.segments.len();
        let mut j: usize = 0;
        while j < ms.len()
            invariant
                0 <= j <= ms@.len(),
                slen == self.segments@.len(),
                slen == old(self).segments@.len(),
                self.events@ == old(self).events@,
                self.active@ == old(self).active@,
                self.chains@ == old(self).chains@,
                forall|k: int| 0 <= k < ms@.len() ==> (#[trigger] ms@[k]) < slen,
                forall|k: int|
                    0 <= k < slen ==> #[trigger] self.segments@[k] == (if ms@.take(
                        j as int,
                    ).contains(k as usize) {
                        Segment { left_event_done: true, ..old(self).segments@[k] }
                    } else {
                        old(self).segments@[k]
                    }),
            decreases ms@.len() - j,
        {
            let m: usize = ms[j];
            let mut s = self.segments[m];
            s.left_event_done = true;
            let ghost prior = self.segments@;
            self.segments.set(m, s);
            proof {
                let a0 = ms@.take(j as int);
                let a1 = ms@.take(j + 1);
                assert(a1 =~= a0.push(m));
                assert forall|k: int| 0 <= k < slen implies #[trigger] self.segments@[k] == (
                if a1.contains(k as usize) {
                    Segment { left_event_done: true, ..old(self).segments@[k] }
                } else {
                    old(self).segments@[k]
                }) by {
                    if a0.contains(k as usize) {
                        let w = choose|w: int| 0 <= w < a0.len() && a0[w] == k as usize;
                        assert(a1[w] == k as usize);
                    }
                    if k == m {
                        assert(a1[j as int] == m);
                    }
                    if a1.contains(k as usize) && k != m {
                        let w = choose|w: int| 0 <= w < a1.len() && a1[w] == k as usize;
                        assert(a0[w] == k as usize);
                    }
                    assert(prior[k] == (if a0.contains(k as usize) {
                        Segment { left_event_done: true, ..old(self).segments@[k] }
                    } else {
                        old(self).segments@[k]
                    }));
                }
            }
            j = j + 1;
        }
        proof {
            assert(ms@.take(ms@.len() as int) =~= ms@);
            let t = old(self)@.entered(ms@);
            assert(self@.segs =~= t.segs);
            assert(self@.chains =~= t.chains);
            assert(self@ == t);
            lemma_entered_wf(old(self)@, ms@);
            lemma_same_pieces_advance(old(self)@, t);
        }
    }

    /// Cuts the piece `adj` where the piece `seg` meets it, if it does.
    fn cut_by(&mut self, seg: usize, adj: Option<usize>)
        requires
            old(self).wf(),
            seg < old(self)@.segs.len(),
            adj matches Some(a) ==> a < old(self)@.segs.len(),
        ensures
            final(self).wf(),
            advances(old(self)@, final(self)@),
            final(self)@ == old(self)@.cut_by(seg, adj),
            final(self)@.segs.len() >= old(self)@.segs.len(),
            final(self)@.active == old(self)@.active,
    {
        if let Some(a) = adj {
            let g = self.segments[seg].geom;
            let ag = self.segments[a].geom;
            if let Some(x) = g.intersect_line_ordered(&ag) {
                let _ = self.adjust_one_segment(a, &x);
            }
        }
    }

    /// Cuts two pieces that have become neighbours where they meet, if
    /// they do.
    fn cut_pair(&mut self, prev: Option<usize>, next: Option<usize>)
        requires
            old(self).wf(),
            prev matches Some(p) ==> p < old(self)@.segs.len(),
            next matches Some(n) ==> n < old(self)@.segs.len(),
        ensures
            final(self).wf(),
            advances(old(self)@, final(self)@),
            final(self)@ == old(self)@.cut_pair(prev, next),
            final(self)@.segs.len() >= old(self)@.segs.len(),
            final(self)@.active == old(self)@.active,
    {
        if let (Some(p), Some(n)) = (prev, next) {
            let pg = self.segments[p].geom;
            let ng = self.segments[n].geom;
            if let Some(x) = pg.intersect_line_ordered(&ng) {
                let _ = self.adjust_one_segment(p, &x);
                let _ = self.adjust_one_segment(n, &x);
            }
        }
    }

    /// Handles a single point `seg`: cuts the neighbours below and above
    /// it where it lies on them, and reports it. Fails, and changes
    /// nothing, where it cannot be placed among the active pieces.
    fn point_left(&mut self, seg: usize, reports: &mut Vec<Report>) -> (r: Result<(), Error>)
        requires
            old(self).wf(),
            seg < old(self)@.segs.len(),
        ensures
            final(self).wf(),
            advances(old(self)@, final(self)@),
            final(self)@.segs.len() >= old(self)@.segs.len(),
            match old(self)@.point_left(seg) {
                Some(step) => r is Ok && final(self)@ == step.state && final(reports)@ == old(reports)@ + step.reports,
                None => r is Err && final(self)@ == old(self)@ && final(reports)@ == old(reports)@,
            },
    {
        let src = self.segments[seg];
        let prev = match self.active.previous(&self.segments, seg) {
            Ok(o) => o,
            Err(e) => {
                return Err(e);
            },
        };
        let next = match self.active.next(&self.segments, seg) {
            Ok(o) => o,
            Err(e) => {
                return Err(e);
            },
        };
        self.cut_by(seg, prev);
        self.cut_by(seg, next);
        reports.push(
            Report {
                segment: seg,
                kind: EventType::PointLeft,
                geom: src.geom,
                edge: src.edge,
                tags: src.tags,
            },
        );
        proof {
            assert(reports@ =~= old(reports)@ + old(self)@.reports_for(
                seg,
                seq![seg],
                EventType::PointLeft,
            ));
        }
        Ok(())
    }

    /// Handles the end of the segment `seg`: takes it out of the active
    /// set, reports it together with the pieces behind it in its chain,
    /// and cuts the neighbours that it parted where they meet. Fails, and
    /// changes nothing, where it is not found in the active set.
    fn line_right(&mut self, seg: usize, reports: &mut Vec<Report>) -> (r: Result<(), Error>)
        requires
            old(self).wf(),
            seg < old(self)@.segs.len(),
        ensures
            final(self).wf(),
            advances(old(self)@, final(self)@),
            final(self)@.segs.len() >= old(self)@.segs.len(),
            match old(self)@.line_right(seg) {
                Some(step) => r is Ok && final(self)@ == step.state && final(reports)@ == old(reports)@ + step.reports,
                None => r is Err && final(self)@ == old(self)@ && final(reports)@ == old(reports)@,
            },
    {
        let prev = match self.active.previous(&self.segments, seg) {
            Ok(o) => o,
            Err(e) => {
                return Err(e);
            },
        };
        let next = match self.active.next(&self.segments, seg) {
            Ok(o) => o,
            Err(e) => {
                return Err(e);
            },
        };
        match self.active.remove_active(&self.segments, seg) {
            Ok(()) => {},
            Err(e) => {
                proof {
                    assert(self@ == old(self)@);
                }
                return Err(e);
            },
        }
        proof {
            let i = old(self)@.spot(seg)->Some_0->At_0;
            assert(self@ == State { active: old(self)@.active.remove(i as int), ..old(self)@ });
            lemma_active_wf(old(self)@, self@.active);
        }
        let ms = self.chain_from(seg);
        proof {
            assert(self@.with_followers(seg) == old(self)@.with_followers(seg));
            assert(self@.reports_for(seg, ms@, EventType::LineRight) =~= old(self)@.reports_for(
                seg,
                ms@,
                EventType::LineRight,
            ));
        }
        self.emit(seg, &ms, EventType::LineRight, reports);
        self.cut_pair(prev, next);
        Ok(())
    }

    /// Handles an event other than the start of a segment. One that is
    /// stale changes nothing, reports nothing and gives `false`.
    fn settle(&mut self, e: Event, reports: &mut Vec<Report>) -> (r: Result<bool, Error>)
        requires
            old(self).wf(),
            e.payload < old(self)@.segs.len(),
            e.ty != EventType::LineLeft,
        ensures
            final(self).wf(),
            advances(old(self)@, final(self)@),
            final(self)@.segs.len() >= old(self)@.segs.len(),
            match old(self)@.settled(e) {
                Some(step) => r == Ok::<bool, Error>(!old(self)@.stale(e)) && final(self)@
                    == step.state && final(reports)@ == old(reports)@ + step.reports,
                None => r is Err && final(self)@ == old(self)@ && final(reports)@ == old(reports)@,
            },
    {
        let seg: usize = e.payload;
        match e.ty {
            EventType::LineRight => {
                if self.is_overlapping(seg) || !self.segments[seg].geom.right().same(&e.point) {
                    proof {
                        assert(reports@ =~= old(reports)@ + Seq::<Report>::empty());
                    }
                    return Ok(false);
                }
                match self.line_right(seg, reports) {
                    Ok(()) => Ok(true),
                    Err(err) => Err(err),
                }
            },
            EventType::PointLeft => {
                match self.point_left(seg, reports) {
                    Ok(()) => Ok(true),
                    Err(err) => Err(err),
                }
            },
            _ => {
                match self.active.find(&self.segments, seg) {
                    Ok(_) => {
                        proof {
                            assert(reports@ =~= old(reports)@ + Seq::<Report>::empty());
                        }
                        Ok(true)
                    },
                    Err(err) => Err(err),
                }
            },
        }
    }

    /// Takes the next event from the queue and handles it out of turn.
    /// Fails where the queue is empty or the event is the start of a
    /// segment.
    fn pending(&mut self, reports: &mut Vec<Report>) -> (r: Result<(), Error>)
        requires
            old(self).wf(),
        ensures
            final(self).wf(),
            advances(old(self)@, final(self)@),
            final(self)@.segs.len() >= old(self)@.segs.len(),
            match old(self)@.pending() {
                Some(step) => r is Ok && final(self)@ == step.state && final(reports)@ == old(reports)@ + step.reports,
                None => r is Err,
            },
    {
        let e = match self.events.peek() {
            None => {
                return Err(Error::Unhandled("no pending event to resolve"));
            },
            Some(e) => e,
        };
        match e.ty {
            EventType::LineLeft => {
                return Err(Error::Unhandled("pending event is not the end of a segment"));
            },
            _ => {},
        }
        proof {
            old(self).events.lemma_view_wf();
            lemma_popped_wf(old(self)@);
        }
        let _ = self.events.pop();
        proof {
            assert(self@ == old(self)@.popped());
        }
        match self.settle(e, reports) {
            Ok(_) => Ok(()),
            Err(err) => Err(err),
        }
    }

    /// The second half of a touch: cuts the segment `seg` by `x` and
    /// chains the piece on the common stretch behind `adj_part`, the
    /// neighbour's piece on it. Fails where only one of the two cuts left
    /// such a piece, or the two pieces do not coincide.
    fn join(&mut self, seg: usize, x: &LineOrPoint, adj_part: Option<usize>) -> (r: Result<
        Outcome,
        Error,
    >)
        requires
            old(self).wf(),
            seg < old(self)@.segs.len(),
            adj_part matches Some(a) ==> a < old(self)@.segs.len(),
        ensures
            final(self).wf(),
            advances(old(self)@, final(self)@),
            final(self)@.segs.len() >= old(self)@.segs.len(),
            match old(self)@.joined(seg, *x, adj_part, Seq::empty()) {
                Some(t) => r == Ok::<Outcome, Error>(t.outcome) && final(self)@ == t.state,
                None => r is Err,
            },
    {
        let seg_part = self.adjust_one_segment(seg, x);
        match (adj_part, seg_part) {
            (None, None) => Ok(Outcome::Continue),
            (Some(a), Some(t)) => {
                if self.segments[a].geom != self.segments[t].geom {
                    return Err(Error::Unhandled("overlapping pieces do not coincide"));
                }
                self.chain_overlap(a, t);
                if t != seg {
                    Ok(Outcome::Continue)
                } else if self.segments[a].left_event_done {
                    Ok(Outcome::Absorbed)
                } else {
                    Ok(Outcome::Deferred)
                }
            },
            _ => Err(
                Error::Unhandled(
                    "one of the intersecting segments had an overlap, but not the other",
                ),
            ),
        }
    }

    /// Holds the starting segment `seg` against its neighbour `adj`.
    fn left_touch(&mut self, seg: usize, adj: Option<usize>, reports: &mut Vec<Report>) -> (r:
        Result<Outcome, Error>)
        requires
            old(self).wf(),
            seg < old(self)@.segs.len(),
            adj matches Some(a) ==> a < old(self)@.segs.len(),
        ensures
            final(self).wf(),
            advances(old(self)@, final(self)@),
            final(self)@.segs.len() >= old(self)@.segs.len(),
            match old(self)@.left_touch(seg, adj) {
                Some(t) => r == Ok::<Outcome, Error>(t.outcome) && final(self)@ == t.state
                    && final(reports)@ == old(reports)@ + t.reports,
                None => r is Err,
            },
    {
        proof {
            reveal(State::left_touch);
        }
        let a: usize = match adj {
            None => {
                proof {
                    assert(reports@ =~= old(reports)@ + Seq::<Report>::empty());
                }
                return Ok(Outcome::Continue);
            },
            Some(a) => a,
        };
        let g = self.segments[seg].geom;
        let ag = self.segments[a].geom;
        let x = match g.intersect_line_ordered(&ag) {
            None => {
                proof {
                    assert(reports@ =~= old(reports)@ + Seq::<Report>::empty());
                }
                return Ok(Outcome::Continue);
            },
            Some(x) => x,
        };
        let adj_part = self.adjust_one_segment(a, &x);
        let early = !x.left().same(&ag.left()) && x.left().same(&g.left());
        if early {
            match self.pending(reports) {
                Ok(()) => {},
                Err(e) => {
                    return Err(e);
                },
            }
        } else {
            proof {
                assert(reports@ =~= old(reports)@ + Seq::<Report>::empty());
            }
        }
        self.join(seg, &x, adj_part)
    }

    /// Reports the segment `seg` and the pieces behind it in its chain as
    /// entering, and marks them so.
    fn announce(&mut self, seg: usize, reports: &mut Vec<Report>)
        requires
            old(self).wf(),
            seg < old(self)@.segs.len(),
        ensures
            final(self).wf(),
            advances(old(self)@, final(self)@),
            final(self)@.segs.len() == old(self)@.segs.len(),
            final(self)@ == old(self)@.announced(seg, Seq::empty()).state,
            final(reports)@ == old(reports)@ + old(self)@.announced(seg, Seq::empty()).reports,
    {
        let ms = self.chain_from(seg);
        self.emit(seg, &ms, EventType::LineLeft, reports);
        self.mark_entered(&ms);
        proof {
            assert(Seq::<Report>::empty() + old(self)@.reports_for(
                seg,
                ms@,
                EventType::LineLeft,
            ) =~= old(self)@.reports_for(seg, ms@, EventType::LineLeft));
        }
    }

    /// Ends the handling of the starting segment `seg` after its
    /// neighbours: puts it into the active set unless it was absorbed or
    /// deferred, and reports it unless it was deferred.
    fn finish(&mut self, outcome: Outcome, seg: usize, reports: &mut Vec<Report>) -> (r: Result<
        (),
        Error,
    >)
        requires
            old(self).wf(),
            seg < old(self)@.segs.len(),
        ensures
            final(self).wf(),
            advances(old(self)@, final(self)@),
            final(self)@.segs.len() >= old(self)@.segs.len(),
            match State::finished(
                Touch { state: old(self)@, reports: Seq::empty(), outcome },
                seg,
                Seq::empty(),
            ) {
                Some(step) => r is Ok && final(self)@ == step.state && final(reports)@ == old(reports)@ + step.reports,
                None => r is Err && final(self)@ == old(self)@ && final(reports)@ == old(reports)@,
            },
    {
        proof {
            reveal(State::finished);
        }
        match outcome {
            Outcome::Deferred => {
                proof {
                    assert(reports@ =~= old(reports)@ + (Seq::<Report>::empty() + Seq::<
                        Report,
                    >::empty()));
                }
                Ok(())
            },
            Outcome::Absorbed => {
                self.announce(seg, reports);
                proof {
                    assert(Seq::<Report>::empty() + Seq::<Report>::empty() =~= Seq::<
                        Report,
                    >::empty());
                }
                Ok(())
            },
            Outcome::Continue => {
                match self.active.insert_active(&self.segments, seg) {
                    Ok(()) => {},
                    Err(e) => {
                        proof {
                            assert(self@ == old(self)@);
                        }
                        return Err(e);
                    },
                }
                proof {
                    let i = old(self)@.spot(seg)->Some_0->Gap_0;
                    assert(self@ == State {
                        active: old(self)@.active.insert(i as int, seg),
                        ..old(self)@
                    });
                    lemma_active_wf(old(self)@, self@.active);
                    assert(Seq::<Report>::empty() + Seq::<Report>::empty() =~= Seq::<
                        Report,
                    >::empty());
                }
                self.announce(seg, reports);
                Ok(())
            },
        }
    }

    /// Handles the start of the segment `seg`.
    fn line_left(&mut self, seg: usize, reports: &mut Vec<Report>) -> (r: Result<(), Error>)
        requires
            old(self).wf(),
            seg < old(self)@.segs.len(),
        ensures
            final(self).wf(),
            advances(old(self)@, final(self)@),
            final(self)@.segs.len() >= old(self)@.segs.len(),
            match old(self)@.line_left(seg) {
                Some(step) => r is Ok && final(self)@ == step.state && final(reports)@ == old(reports)@ + step.reports,
                None => r is Err,
            },
    {
        let prev = match self.active.previous(&self.segments, seg) {
            Ok(o) => o,
            Err(e) => {
                return Err(e);
            },
        };
        let next = match self.active.next(&self.segments, seg) {
            Ok(o) => o,
            Err(e) => {
                return Err(e);
            },
        };
        let ghost spot = old(self)@.spot(seg)->Some_0;
        let ghost t1 = old(self)@.left_touch(seg, prev);
        let o1 = match self.left_touch(seg, prev, reports) {
            Ok(o) => o,
            Err(e) => {
                return Err(e);
            },
        };
        let ghost r1 = reports@;
        match o1 {
            Outcome::Continue => {
                let ghost t2 = t1->Some_0.state.left_touch(seg, next);
                let o2 = match self.left_touch(seg, next, reports) {
                    Ok(o) => o,
                    Err(e) => {
                        return Err(e);
                    },
                };
                let ghost r2 = reports@;
                proof {
                    lemma_finished_reports(t2->Some_0, seg, t1->Some_0.reports);
                }
                let r = self.finish(o2, seg, reports);
                proof {
                    let bare = State::finished(
                        Touch { state: t2->Some_0.state, reports: Seq::empty(), outcome: o2 },
                        seg,
                        Seq::empty(),
                    );
                    if bare is Some {
                        assert(reports@ =~= old(reports)@ + (t1->Some_0.reports + t2->Some_0.reports
                            + bare->Some_0.reports));
                    }
                }
                r
            },
            _ => {
                proof {
                    lemma_finished_reports(t1->Some_0, seg, Seq::empty());
                }
                let r = self.finish(o1, seg, reports);
                proof {
                    let bare = State::finished(
                        Touch { state: t1->Some_0.state, reports: Seq::empty(), outcome: o1 },
                        seg,
                        Seq::empty(),
                    );
                    if bare is Some {
                        assert(reports@ =~= old(reports)@ + (Seq::<Report>::empty()
                            + t1->Some_0.reports + bare->Some_0.reports));
                    }
                }
                r
            },
        }
    }

    /// Handles the event `event`, and tells whether it was handled: an
    /// event that a cut or a chain has overtaken is dropped, changes
    /// nothing and reports nothing. Otherwise a starting segment is cut
    /// against its neighbours, chained where it coincides with one, put
    /// into the active set and reported; an ending segment leaves the
    /// active set and is reported with its whole chain; a single point is
    /// reported. Reports are added to `reports`.
    pub fn handle_event(&mut self, event: Event, reports: &mut Vec<Report>) -> (r: Result<
        bool,
        Error,
    >)
        requires
            old(self).wf(),
            event.payload < old(self)@.segs.len(),
        ensures
            final(self).wf(),
            advances(old(self)@, final(self)@),
            final(self)@.segs.len() >= old(self)@.segs.len(),
            match old(self)@.handled(event) {
                Some(step) => r == Ok::<bool, Error>(!old(self)@.stale(event)) && final(self)@
                    == step.state && final(reports)@ == old(reports)@ + step.reports,
                None => r is Err,
            },
            old(self)@.stale(event) ==> r == Ok::<bool, Error>(false) && final(self)@ == old(self)@ && final(reports)@ == old(reports)@,
    {
        match event.ty {
            EventType::LineLeft => {
                match self.line_left(event.payload, reports) {
                    Ok(()) => Ok(true),
                    Err(e) => Err(e),
                }
            },
            _ => {
                let r = self.settle(event, reports);
                proof {
                    if old(self)@.stale(event) {
                        assert(old(reports)@ + Seq::<Report>::empty() =~= old(reports)@);
                    }
                }
                r
            },
        }
    }

    /// Takes the next event from the queue and handles it. Gives the
    /// point of the event, or `None`, with nothing changed, where the
    /// queue is empty.
    pub fn next_event(&mut self, reports: &mut Vec<Report>) -> (r: Result<
        Option<SweepPoint>,
        Error,
    >)
        requires
            old(self).wf(),
        ensures
            final(self).wf(),
            advances(old(self)@, final(self)@),
            old(self)@.queue.len() > 0 ==> work(final(self)@) < work(old(self)@),
            final(self)@.segs.len() >= old(self)@.segs.len(),
            old(self)@.queue.len() == 0 ==> r == Ok::<Option<SweepPoint>, Error>(None) && final(self)@ == old(self)@ && final(reports)@ == old(reports)@,
            old(self)@.queue.len() > 0 ==> match old(self)@.popped().handled(
                old(self)@.queue.last(),
            ) {
                Some(step) => r == Ok::<Option<SweepPoint>, Error>(
                    Some(old(self)@.queue.last().point),
                ) && final(self)@ == step.state && final(reports)@ == old(reports)@
                    + step.reports,
                None => r is Err,
            },
    {
        proof {
            old(self).events.lemma_view_wf();
            if old(self)@.queue.len() > 0 {
                lemma_popped_wf(old(self)@);
            }
        }
        match self.events.pop() {
            None => Ok(None),
            Some(event) => {
                proof {
                    assert(self@ == old(self)@.popped());
                }
                match self.handle_event(event, reports) {
                    Ok(_) => Ok(Some(event.point)),
                    Err(e) => Err(e),
                }
            },
        }
    }

    /// Handles the events until none waits, and fails with the first
    /// event whose handling fails. The work that is left falls with every
    /// event, so there is an end.
    pub fn drain(&mut self, reports: &mut Vec<Report>) -> (r: Result<(), Error>)
        requires
            old(self).wf(),
        ensures
            final(self).wf(),
            advances(old(self)@, final(self)@),
            match old(self)@.swept(work(old(self)@) as nat) {
                Some(step) => r is Ok && final(self)@ == step.state && final(reports)@ == old(
                    reports,
                )@ + step.reports && final(self)@.queue.len() == 0,
                None => r is Err,
            },
    {
        let ghost fuel0: nat = work(old(self)@) as nat;
        let ghost mut fuel: nat = fuel0;
        let ghost mut done: Seq<Report> = Seq::empty();
        proof {
            lemma_total_nonnegative(self@.segs, Weight::Slack);
            assert(reports@ =~= old(reports)@ + done);
            match self@.swept(fuel) {
                Some(step) => {
                    assert(done + step.reports =~= step.reports);
                },
                None => {},
            }
        }
        loop
            invariant
                self.wf(),
                advances(old(self)@, self@),
                reports@ == old(reports)@ + done,
                fuel >= work(self@),
                fuel0 == work(old(self)@) as nat,
                old(self)@.swept(fuel0) == ahead(done, self@.swept(fuel)),
            decreases fuel,
        {
            let ghost before = self@;
            proof {
                lemma_total_nonnegative(before.segs, Weight::Slack);
            }
            match self.next_event(reports) {
                Ok(None) => {
                    proof {
                        assert(done + Seq::<Report>::empty() =~= done);
                    }
                    return Ok(());
                },
                Ok(Some(_)) => {
                    proof {
                        let step = before.popped().handled(before.queue.last())->Some_0;
                        let rest = step.state.swept((fuel - 1) as nat);
                        match rest {
                            Some(r2) => {
                                assert(done + (step.reports + r2.reports) =~= (done + step.reports)
                                    + r2.reports);
                            },
                            None => {},
                        }
                        done = done + step.reports;
                        fuel = (fuel - 1) as nat;
                        assert(reports@ =~= old(reports)@ + done);
                    }
                },
                Err(e) => {
                    return Err(e);
                },
            }
        }
    }
}

} // verus!
