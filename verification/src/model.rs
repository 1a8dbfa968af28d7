//! What the sweep is, as plain sequences, and what each of its steps makes
//! of it. The sweep's functions are stated against these.
use vstd::prelude::*;
use crate::active::{above, below, locate, Spot};
use crate::events::{descending, slot, Event, EventType};
use crate::geom::LineOrPoint;
use crate::segment::{split, Segment, SplitSegments};

verus! {

/// What the sweep tells its caller: the piece `segment` enters, leaves or,
/// being a single point, is met.
#[derive(Clone, Copy, Debug, PartialEq, Eq, Structural)]
pub struct Report {
    pub segment: usize,
    pub kind: EventType,
    /// The stretch that the report is about.
    pub geom: LineOrPoint,
    /// The input edge of the piece.
    pub edge: usize,
    /// The operands of that edge.
    pub tags: u8,
}

/// The queue after `e` has gone into its slot.
pub open spec fn queued(q: Seq<Event>, e: Event) -> Seq<Event> {
    q.insert(slot(q, e), e)
}

/// A piece as it is made: not yet reported.
pub open spec fn fresh(
    geom: LineOrPoint,
    edge: usize,
    tags: u8,
    first: bool,
    chain: usize,
) -> Segment {
    Segment { geom, edge, tags, first_segment: first, left_event_done: false, chain }
}

/// The members of a chain that stand behind `parent` in it.
pub open spec fn followers(members: Seq<usize>, parent: usize) -> Seq<usize>
    decreases members.len(),
{
    if members.len() == 0 {
        members
    } else if members[0] == parent {
        members.skip(1)
    } else {
        followers(members.skip(1), parent)
    }
}

/// The place of the first `id` among `members`; their number where there
/// is none.
pub open spec fn first_at(members: Seq<usize>, id: usize) -> int
    decreases members.len(),
{
    if members.len() == 0 || members[0] == id {
        0
    } else {
        1 + first_at(members.skip(1), id)
    }
}

/// The members of a chain but `id`, in their order.
pub open spec fn others(members: Seq<usize>, id: usize) -> Seq<usize> {
    let k = first_at(members, id);
    if k < members.len() {
        members.take(k) + members.skip(k + 1)
    } else {
        members
    }
}

/// Copies of the pieces `ms` on the stretch `geom`, in the chain `chain`:
/// each keeps the edge and the operands of the piece it copies.
pub open spec fn copies(
    segs: Seq<Segment>,
    ms: Seq<usize>,
    geom: LineOrPoint,
    chain: usize,
) -> Seq<Segment> {
    Seq::new(
        ms.len(),
        |j: int| fresh(geom, segs[ms[j] as int].edge, segs[ms[j] as int].tags, false, chain),
    )
}

/// The numbers from `n` to `n + k - 1`.
pub open spec fn run(n: usize, k: nat) -> Seq<usize> {
    Seq::new(k, |j: int| (n + j) as usize)
}

/// How the handling of a starting segment goes on after one neighbour.
#[derive(Clone, Copy, Debug, PartialEq, Eq, Structural)]
pub enum Outcome {
    /// The segment is still to be put into the active set.
    Continue,
    /// The segment has joined a chain that was reported already: it is
    /// reported, but not put into the active set.
    Absorbed,
    /// The segment has joined a chain that is still to be reported: the
    /// event is over, the chain's own event will report it.
    Deferred,
}

/// The state of a sweep.
pub struct State {
    /// All pieces made so far; a piece is named by its place here.
    pub segs: Seq<Segment>,
    /// The chains made so far, each with the member that stands for it
    /// first.
    pub chains: Seq<Seq<usize>>,
    /// The events that wait, the next one last.
    pub queue: Seq<Event>,
    /// The pieces that the sweep line crosses, from the lowest up.
    pub active: Seq<usize>,
}

/// A state and what was reported on the way to it.
pub struct Step {
    pub state: State,
    pub reports: Seq<Report>,
}

/// A state after one neighbour of a starting segment has been dealt with.
pub struct Touch {
    pub state: State,
    pub reports: Seq<Report>,
    pub outcome: Outcome,
}

impl State {
    /// The queue is in order; events, active entries, chains and pieces
    /// name only what exists; every piece has its ends in sweep order.
    pub open spec fn wf(self) -> bool {
        &&& descending(self.queue)
        &&& forall|i: int|
            0 <= i < self.queue.len() ==> (#[trigger] self.queue[i]).payload < self.segs.len()
        &&& forall|i: int| 0 <= i < self.active.len() ==> (#[trigger] self.active[i]) < self.segs.len()
        &&& forall|i: int|
            0 <= i < self.segs.len() ==> (#[trigger] self.segs[i]).chain < self.chains.len()
                && self.segs[i].geom.wf()
        &&& forall|c: int, j: int|
            0 <= c < self.chains.len() && 0 <= j < self.chains[c].len() ==> (
            #[trigger] self.chains[c][j]) < self.segs.len()
        &&& self.chains_agree()
    }

    /// Every piece is a member of the chain that it names and of no
    /// other, once, and the members of a chain cover the same stretch.
    pub open spec fn chains_agree(self) -> bool {
        &&& forall|c: int, j: int|
            0 <= c < self.chains.len() && 0 <= j < self.chains[c].len() ==> self.segs[(
            #[trigger] self.chains[c][j]) as int].chain == c
        &&& forall|i: int|
            0 <= i < self.segs.len() ==> self.chains[(#[trigger] self.segs[i]).chain as int].contains(
                i as usize,
            )
        &&& forall|c: int, j: int|
            0 <= c < self.chains.len() && 0 <= j < self.chains[c].len() ==> self.segs[(
            #[trigger] self.chains[c][j]) as int].geom == self.segs[self.chains[c][0] as int].geom
        &&& forall|c: int| 0 <= c < self.chains.len() ==> (#[trigger] self.chains[c]).no_duplicates()
    }

    /// The chain of the piece `id`.
    pub open spec fn chain_of(self, id: usize) -> Seq<usize> {
        self.chains[self.segs[id as int].chain as int]
    }

    /// Another piece of its chain stands for the piece `id`.
    pub open spec fn overlapping(self, id: usize) -> bool {
        self.chain_of(id).len() == 0 || self.chain_of(id)[0] != id
    }

    /// The pieces that stand behind `parent` in its chain; none where
    /// there is no parent.
    pub open spec fn behind(self, parent: Option<usize>) -> Seq<usize> {
        match parent {
            Some(p) => followers(self.chain_of(p), p),
            None => Seq::empty(),
        }
    }

    /// The other members of the chain of `parent`; none where there is no
    /// parent.
    pub open spec fn rest_of(self, parent: Option<usize>) -> Seq<usize> {
        match parent {
            Some(p) => others(self.chain_of(p), p),
            None => Seq::empty(),
        }
    }

    /// The piece `id` and those behind it in its chain.
    pub open spec fn with_followers(self, id: usize) -> Seq<usize> {
        seq![id] + self.behind(Some(id))
    }

    /// The state with a new piece on `geom` and its two events; the other
    /// members of the chain of `parent` are copied onto `geom` and follow
    /// the new piece in a chain of its own.
    pub open spec fn created(
        self,
        edge: usize,
        tags: u8,
        geom: LineOrPoint,
        parent: Option<usize>,
    ) -> State {
        let n = self.segs.len() as usize;
        let c = self.chains.len() as usize;
        let main = fresh(geom, edge, tags, parent is None, c);
        let bs = self.rest_of(parent);
        State {
            segs: self.segs.push(main) + copies(self.segs, bs, geom, c),
            chains: self.chains.push(run(n, 1 + bs.len())),
            queue: queued(queued(self.queue, main.left_event(n)), main.right_event(n)),
            active: self.active,
        }
    }

    /// The state with the piece `id` and all members of its chain cut back
    /// to `left`, and the new right event of the piece queued.
    pub open spec fn shortened(self, id: usize, left: LineOrPoint) -> State {
        let s = Segment { geom: left, ..self.segs[id as int] };
        State {
            segs: Seq::new(
                self.segs.len(),
                |i: int|
                    if i == id || self.chain_of(id).contains(i as usize) {
                        Segment { geom: left, ..self.segs[i] }
                    } else {
                        self.segs[i]
                    },
            ),
            queue: queued(self.queue, s.right_event(id)),
            ..self
        }
    }

    /// The state after the piece `id` has been cut by `common`, what it
    /// shares with another piece: the piece keeps the first part, and each
    /// further part is a new piece of the same edge. The members of its
    /// chain are cut with it.
    pub open spec fn adjusted(self, id: usize, common: LineOrPoint) -> State {
        let s = self.segs[id as int];
        match split(s.geom, common) {
            SplitSegments::Unchanged { overlap } => self,
            SplitSegments::SplitOnce { overlap, left, right } => self.shortened(id, left).created(
                s.edge,
                s.tags,
                right,
                Some(id),
            ),
            SplitSegments::SplitTwice { left, middle, right } => self.shortened(id, left).created(
                s.edge,
                s.tags,
                right,
                Some(id),
            ).created(s.edge, s.tags, middle, Some(id)),
        }
    }

    /// The piece that covers the common stretch after the piece `id` has
    /// been cut by `common`, where that stretch is more than a point.
    pub open spec fn shared_piece(self, id: usize, common: LineOrPoint) -> Option<usize> {
        let s = self.segs[id as int];
        match split(s.geom, common) {
            SplitSegments::Unchanged { overlap } => if overlap {
                Some(id)
            } else {
                None
            },
            SplitSegments::SplitOnce { overlap, left, right } => match overlap {
                None => None,
                Some(false) => Some(id),
                Some(true) => Some(self.segs.len() as usize),
            },
            SplitSegments::SplitTwice { left, middle, right } => Some(
                self.shortened(id, left).created(s.edge, s.tags, right, Some(id)).segs.len() as usize,
            ),
        }
    }

    /// The state after the chain of `b` has joined the chain of `a`: its
    /// members follow those of `a`'s chain, and its own record is empty.
    pub open spec fn chained(self, a: usize, b: usize) -> State {
        let x = self.segs[a as int].chain;
        let y = self.segs[b as int].chain;
        if x == y {
            self
        } else {
            State {
                segs: Seq::new(
                    self.segs.len(),
                    |i: int|
                        if self.chains[y as int].contains(i as usize) {
                            Segment { chain: x, ..self.segs[i] }
                        } else {
                            self.segs[i]
                        },
                ),
                chains: self.chains.update(
                    x as int,
                    self.chains[x as int] + self.chains[y as int],
                ).update(y as int, Seq::empty()),
                ..self
            }
        }
    }

    /// The state after the pieces `ms` have been reported as entering.
    pub open spec fn entered(self, ms: Seq<usize>) -> State {
        State {
            segs: Seq::new(
                self.segs.len(),
                |i: int|
                    if ms.contains(i as usize) {
                        Segment { left_event_done: true, ..self.segs[i] }
                    } else {
                        self.segs[i]
                    },
            ),
            ..self
        }
    }

    /// One report of kind `kind` for each of the pieces `ms`, all on the
    /// stretch of the piece `root`.
    pub open spec fn reports_for(self, root: usize, ms: Seq<usize>, kind: EventType) -> Seq<
        Report,
    > {
        Seq::new(
            ms.len(),
            |j: int|
                Report {
                    segment: ms[j],
                    kind,
                    geom: self.segs[root as int].geom,
                    edge: self.segs[ms[j] as int].edge,
                    tags: self.segs[ms[j] as int].tags,
                },
        )
    }

    /// Where the piece `id` is found in the active set.
    pub open spec fn spot(self, id: usize) -> Option<Spot> {
        locate(self.active, self.segs, id)
    }

    /// An event that a cut or a chain has overtaken: the right end of a
    /// piece that another piece stands for, or that ends elsewhere now.
    pub open spec fn stale(self, e: Event) -> bool {
        e.ty == EventType::LineRight && (self.overlapping(e.payload)
            || self.segs[e.payload as int].geom.right_spec() != e.point)
    }

    /// The state after the piece `adj` has been cut where the piece `seg`
    /// meets it, if it does.
    pub open spec fn cut_by(self, seg: usize, adj: Option<usize>) -> State {
        match adj {
            None => self,
            Some(a) => match self.segs[seg as int].geom.meet_ordered(self.segs[a as int].geom) {
                None => self,
                Some(x) => self.adjusted(a, x),
            },
        }
    }

    /// A single point is met: the neighbours below and above it are cut
    /// where it lies on them, and it is reported. `None` where it cannot
    /// be placed among the active pieces.
    pub open spec fn point_left(self, seg: usize) -> Option<Step> {
        match self.spot(seg) {
            None => None,
            Some(spot) => Some(
                Step {
                    state: self.cut_by(seg, below(self.active, spot)).cut_by(
                        seg,
                        above(self.active, spot),
                    ),
                    reports: self.reports_for(seg, seq![seg], EventType::PointLeft),
                },
            ),
        }
    }

    /// The state after two pieces that have become neighbours have been
    /// cut where they meet, if they do.
    pub open spec fn cut_pair(self, prev: Option<usize>, next: Option<usize>) -> State {
        match (prev, next) {
            (Some(p), Some(n)) => match self.segs[p as int].geom.meet_ordered(
                self.segs[n as int].geom,
            ) {
                None => self,
                Some(x) => self.adjusted(p, x).adjusted(n, x),
            },
            _ => self,
        }
    }

    /// A segment ends: it leaves the active set, it and the pieces behind
    /// it in its chain are reported together, and the neighbours that it
    /// parted are cut where they meet. `None` where it is not found in the
    /// active set.
    pub open spec fn line_right(self, seg: usize) -> Option<Step> {
        match self.spot(seg) {
            Some(Spot::At(i)) => Some(
                Step {
                    state: State { active: self.active.remove(i as int), ..self }.cut_pair(
                        below(self.active, Spot::At(i)),
                        above(self.active, Spot::At(i)),
                    ),
                    reports: self.reports_for(seg, self.with_followers(seg), EventType::LineRight),
                },
            ),
            _ => None,
        }
    }

    /// An event other than the start of a segment is handled. One that is
    /// stale changes nothing and reports nothing. `None` where the handling
    /// fails.
    pub open spec fn settled(self, e: Event) -> Option<Step> {
        if self.stale(e) {
            Some(Step { state: self, reports: Seq::empty() })
        } else {
            match e.ty {
                EventType::LineRight => self.line_right(e.payload),
                EventType::PointLeft => self.point_left(e.payload),
                _ => match self.spot(e.payload) {
                    None => None,
                    Some(_) => Some(Step { state: self, reports: Seq::empty() }),
                },
            }
        }
    }

    /// The next event is taken from the queue and handled out of turn,
    /// while a starting segment is being handled. `None` where the queue
    /// is empty, the event is the start of a segment, or its handling
    /// fails.
    pub open spec fn pending(self) -> Option<Step> {
        if self.queue.len() == 0 || self.queue.last().ty == EventType::LineLeft {
            None
        } else {
            State { queue: self.queue.drop_last(), ..self }.settled(self.queue.last())
        }
    }

    /// A starting segment `seg` is held against its neighbour `adj`.
    /// Where they meet, the neighbour is cut; where the common part starts
    /// at the segment's left end but not at the neighbour's, the neighbour
    /// ends here, and that pending event is handled at once; then the
    /// segment is cut. Where both cuts leave a common stretch, the two
    /// pieces on it are chained. `None` where only one cut leaves such a
    /// stretch, the two pieces do not coincide, or the pending event
    /// fails.
    #[verifier::opaque]
    pub open spec fn left_touch(self, seg: usize, adj: Option<usize>) -> Option<Touch> {
        match adj {
            None => Some(Touch { state: self, reports: Seq::empty(), outcome: Outcome::Continue }),
            Some(a) => match self.segs[seg as int].geom.meet_ordered(self.segs[a as int].geom) {
                None => Some(
                    Touch { state: self, reports: Seq::empty(), outcome: Outcome::Continue },
                ),
                Some(x) => {
                    let early = x.left_spec() != self.segs[a as int].geom.left_spec()
                        && x.left_spec() == self.segs[seg as int].geom.left_spec();
                    let mid = if early {
                        self.adjusted(a, x).pending()
                    } else {
                        Some(Step { state: self.adjusted(a, x), reports: Seq::empty() })
                    };
                    match mid {
                        None => None,
                        Some(m) => m.state.joined(seg, x, self.shared_piece(a, x), m.reports),
                    }
                },
            },
        }
    }

    /// The second half of a touch: the segment `seg` is cut by `x`, and
    /// the piece on the common stretch is chained behind `adj_part`, the
    /// neighbour's piece on it.
    pub open spec fn joined(
        self,
        seg: usize,
        x: LineOrPoint,
        adj_part: Option<usize>,
        reports: Seq<Report>,
    ) -> Option<Touch> {
        let s = self.adjusted(seg, x);
        match (adj_part, self.shared_piece(seg, x)) {
            (None, None) => Some(Touch { state: s, reports, outcome: Outcome::Continue }),
            (Some(a), Some(t)) => if s.segs[a as int].geom != s.segs[t as int].geom {
                None
            } else {
                Some(
                Touch {
                    state: s.chained(a, t),
                    reports,
                    outcome: if t != seg {
                        Outcome::Continue
                    } else if s.chained(a, t).segs[a as int].left_event_done {
                        Outcome::Absorbed
                    } else {
                        Outcome::Deferred
                    },
                },
            )
            },
            _ => None,
        }
    }

    /// The segment `seg` and the pieces behind it in its chain are
    /// reported as entering, after `reports`.
    pub open spec fn announced(self, seg: usize, reports: Seq<Report>) -> Step {
        Step {
            state: self.entered(self.with_followers(seg)),
            reports: reports + self.reports_for(
                seg,
                self.with_followers(seg),
                EventType::LineLeft,
            ),
        }
    }

    /// The segment `seg` goes into the active set, and is reported with
    /// the pieces behind it in its chain. `None` where an active piece
    /// equals it or it cannot be placed.
    pub open spec fn inserted(self, seg: usize, reports: Seq<Report>) -> Option<Step> {
        match self.spot(seg) {
            Some(Spot::Gap(i)) => Some(
                State { active: self.active.insert(i as int, seg), ..self }.announced(seg, reports),
            ),
            _ => None,
        }
    }

    /// What follows a touch: nothing more where the event was deferred,
    /// the report alone where the segment was absorbed.
    #[verifier::opaque]
    pub open spec fn finished(t: Touch, seg: usize, before: Seq<Report>) -> Option<Step> {
        match t.outcome {
            Outcome::Deferred => Some(Step { state: t.state, reports: before + t.reports }),
            Outcome::Absorbed => Some(t.state.announced(seg, before + t.reports)),
            Outcome::Continue => t.state.inserted(seg, before + t.reports),
        }
    }

    /// A segment starts: it is held against the active piece below it,
    /// then, unless that settled the event, against the one above it;
    /// then, unless it was absorbed or deferred, it goes into the active
    /// set and is reported with its chain.
    pub open spec fn line_left(self, seg: usize) -> Option<Step> {
        match self.spot(seg) {
            None => None,
            Some(spot) => match self.left_touch(seg, below(self.active, spot)) {
                None => None,
                Some(t1) => match t1.outcome {
                    Outcome::Continue => match t1.state.left_touch(seg, above(self.active, spot)) {
                        None => None,
                        Some(t2) => State::finished(t2, seg, t1.reports),
                    },
                    _ => State::finished(t1, seg, Seq::empty()),
                },
            },
        }
    }

    /// The event `e` is handled.
    pub open spec fn handled(self, e: Event) -> Option<Step> {
        if e.ty == EventType::LineLeft {
            self.line_left(e.payload)
        } else {
            self.settled(e)
        }
    }

    /// The state without the next event.
    pub open spec fn popped(self) -> State {
        State { queue: self.queue.drop_last(), ..self }
    }

    /// The sweep is run until no event waits, through at most `fuel`
    /// events. `None` where the handling of an event fails, or events
    /// still wait when the fuel is spent.
    pub open spec fn swept(self, fuel: nat) -> Option<Step>
        decreases fuel,
    {
        if self.queue.len() == 0 {
            Some(Step { state: self, reports: Seq::empty() })
        } else if fuel == 0 {
            None
        } else {
            match self.popped().handled(self.queue.last()) {
                None => None,
                Some(step) => ahead(step.reports, step.state.swept((fuel - 1) as nat)),
            }
        }
    }
}

/// The step `s` with `done` reported before it.
pub open spec fn ahead(done: Seq<Report>, s: Option<Step>) -> Option<Step> {
    match s {
        None => None,
        Some(step) => Some(Step { state: step.state, reports: done + step.reports }),
    }
}

/// Followers of a member are members.
pub proof fn lemma_followers_are_members(members: Seq<usize>, parent: usize)
    ensures
        followers(members, parent).len() <= members.len(),
        forall|j: int|
            0 <= j < followers(members, parent).len() ==> members.contains(
                #[trigger] followers(members, parent)[j],
            ),
    decreases members.len(),
{
    if members.len() > 0 {
        let rest = members.skip(1);
        if members[0] != parent {
            lemma_followers_are_members(rest, parent);
        }
        assert forall|j: int| 0 <= j < followers(members, parent).len() implies members.contains(
            #[trigger] followers(members, parent)[j],
        ) by {
            let v = followers(members, parent)[j];
            assert(rest.contains(v));
            let k = choose|k: int| 0 <= k < rest.len() && rest[k] == v;
            assert(members[k + 1] == v);
        }
    }
}

/// The first place of a member is a place of the chain.
pub proof fn lemma_first_at(members: Seq<usize>, id: usize)
    ensures
        0 <= first_at(members, id) <= members.len(),
        first_at(members, id) < members.len() ==> members[first_at(members, id)] == id,
    decreases members.len(),
{
    if members.len() > 0 && members[0] != id {
        lemma_first_at(members.skip(1), id);
    }
}

/// The other members of a chain are members.
pub proof fn lemma_others_are_members(members: Seq<usize>, id: usize)
    ensures
        others(members, id).len() <= members.len(),
        forall|j: int|
            0 <= j < others(members, id).len() ==> members.contains(
                #[trigger] others(members, id)[j],
            ),
{
    lemma_first_at(members, id);
    let k = first_at(members, id);
    assert forall|j: int| 0 <= j < others(members, id).len() implies members.contains(
        #[trigger] others(members, id)[j],
    ) by {
        if k < members.len() {
            if j < k {
                assert(members[j] == others(members, id)[j]);
            } else {
                assert(members[j + 1] == others(members, id)[j]);
            }
        } else {
            assert(members[j] == others(members, id)[j]);
        }
    }
}

/// The pieces behind a piece of a well-formed state exist.
pub proof fn lemma_behind_exists(st: State, parent: Option<usize>)
    requires
        st.wf(),
        parent matches Some(p) ==> p < st.segs.len(),
    ensures
        forall|j: int| 0 <= j < st.behind(parent).len() ==> (#[trigger] st.behind(parent)[j]) < st.segs.len(),
{
    match parent {
        Some(p) => {
            let ms = st.chain_of(p);
            lemma_followers_are_members(ms, p);
            assert forall|j: int| 0 <= j < st.behind(parent).len() implies (
            #[trigger] st.behind(parent)[j]) < st.segs.len() by {
                let v = st.behind(parent)[j];
                assert(ms.contains(v));
                let k = choose|k: int| 0 <= k < ms.len() && ms[k] == v;
                assert(st.chains[st.segs[p as int].chain as int][k] < st.segs.len());
            }
        },
        None => {},
    }
}

/// A change that leaves pieces and chains alone leaves them in agreement.
pub proof fn lemma_same_chains_agree(st: State, t: State)
    requires
        st.chains_agree(),
        t.segs == st.segs,
        t.chains == st.chains,
    ensures
        t.chains_agree(),
{
    assert forall|c: int, j: int| 0 <= c < t.chains.len() && 0 <= j < t.chains[c].len() implies t.segs[(
    #[trigger] t.chains[c][j]) as int].chain == c by {
        assert(st.segs[st.chains[c][j] as int].chain == c);
    }
    assert forall|i: int| 0 <= i < t.segs.len() implies t.chains[(
    #[trigger] t.segs[i]).chain as int].contains(i as usize) by {
        assert(st.chains[st.segs[i].chain as int].contains(i as usize));
    }
    assert forall|c: int, j: int| 0 <= c < t.chains.len() && 0 <= j < t.chains[c].len() implies t.segs[(
    #[trigger] t.chains[c][j]) as int].geom == t.segs[t.chains[c][0] as int].geom by {
        assert(st.segs[st.chains[c][j] as int].geom == st.segs[st.chains[c][0] as int].geom);
    }
    assert forall|c: int| 0 <= c < t.chains.len() implies (#[trigger] t.chains[c]).no_duplicates() by {
        assert(st.chains[c].no_duplicates());
    }
}

/// Making a piece keeps a state well formed.
pub proof fn lemma_created_wf(
    st: State,
    edge: usize,
    tags: u8,
    geom: LineOrPoint,
    parent: Option<usize>,
)
    requires
        st.wf(),
        geom.wf(),
        parent matches Some(p) ==> p < st.segs.len(),
        st.created(edge, tags, geom, parent).segs.len() <= usize::MAX,
        st.chains.len() < usize::MAX,
    ensures
        st.created(edge, tags, geom, parent).wf(),
        st.created(edge, tags, geom, parent).segs.len() == st.segs.len() + 1 + st.rest_of(
            parent,
        ).len(),
{
    let t = st.created(edge, tags, geom, parent);
    let n = st.segs.len() as usize;
    let c = st.chains.len() as usize;
    let main = fresh(geom, edge, tags, parent is None, c);
    let q1 = queued(st.queue, main.left_event(n));
    crate::events::lemma_slot(st.queue, main.left_event(n));
    crate::events::lemma_slot_keeps_descending(st.queue, main.left_event(n));
    crate::events::lemma_slot(q1, main.right_event(n));
    crate::events::lemma_slot_keeps_descending(q1, main.right_event(n));
    assert forall|i: int| 0 <= i < t.queue.len() implies (#[trigger] t.queue[i]).payload
        < t.segs.len() by {
        let k2 = slot(q1, main.right_event(n));
        let k1 = slot(st.queue, main.left_event(n));
        if i != k2 {
            let i1 = if i < k2 {
                i
            } else {
                i - 1
            };
            assert(t.queue[i] == q1[i1]);
            if i1 != k1 {
                let i0 = if i1 < k1 {
                    i1
                } else {
                    i1 - 1
                };
                assert(q1[i1] == st.queue[i0]);
            }
        }
    }
    assert forall|i: int| 0 <= i < t.segs.len() implies (#[trigger] t.segs[i]).chain
        < t.chains.len() && t.segs[i].geom.wf() by {
        if i < st.segs.len() {
            assert(t.segs[i] == st.segs[i]);
        }
    }
    assert forall|c2: int, j: int|
        0 <= c2 < t.chains.len() && 0 <= j < t.chains[c2].len() implies (#[trigger] t.chains[c2][j])
        < t.segs.len() by {
        if c2 < st.chains.len() {
            assert(t.chains[c2][j] == st.chains[c2][j]);
        }
    }
    assert forall|c2: int, j: int|
        0 <= c2 < t.chains.len() && 0 <= j < t.chains[c2].len() implies t.segs[(
    #[trigger] t.chains[c2][j]) as int].chain == c2 by {
        if c2 < st.chains.len() {
            let m = st.chains[c2][j];
            assert(t.chains[c2][j] == m);
            assert(m < st.segs.len());
            assert(t.segs[m as int] == st.segs[m as int]);
            assert(st.segs[st.chains[c2][j] as int].chain == c2);
        }
    }
    assert forall|i: int| 0 <= i < t.segs.len() implies t.chains[(
    #[trigger] t.segs[i]).chain as int].contains(i as usize) by {
        if i < st.segs.len() {
            assert(t.segs[i] == st.segs[i]);
            let c2 = st.segs[i].chain as int;
            assert(st.chains[c2].contains(i as usize));
            assert(t.chains[c2] == st.chains[c2]);
        } else {
            assert(t.chains[c as int][i - n] == i as usize);
        }
    }
    assert forall|c2: int, j: int|
        0 <= c2 < t.chains.len() && 0 <= j < t.chains[c2].len() implies t.segs[(
    #[trigger] t.chains[c2][j]) as int].geom == t.segs[t.chains[c2][0] as int].geom by {
        if c2 < st.chains.len() {
            let m = st.chains[c2][j];
            let m0 = st.chains[c2][0];
            assert(t.chains[c2][j] == m);
            assert(t.chains[c2][0] == m0);
            assert(m < st.segs.len() && m0 < st.segs.len());
            assert(t.segs[m as int] == st.segs[m as int]);
            assert(t.segs[m0 as int] == st.segs[m0 as int]);
            assert(st.segs[st.chains[c2][j] as int].geom == st.segs[st.chains[c2][0] as int].geom);
        }
    }
    assert forall|c2: int| 0 <= c2 < t.chains.len() implies (#[trigger] t.chains[c2]).no_duplicates() by {
        if c2 < st.chains.len() {
            assert(st.chains[c2].no_duplicates());
        }
    }
}

/// Cutting a piece and its chain back keeps a state well formed.
pub proof fn lemma_shortened_wf(st: State, id: usize, left: LineOrPoint)
    requires
        st.wf(),
        id < st.segs.len(),
        left.wf(),
    ensures
        st.shortened(id, left).wf(),
        st.shortened(id, left).segs.len() == st.segs.len(),
{
    let t = st.shortened(id, left);
    let s = Segment { geom: left, ..st.segs[id as int] };
    let e = s.right_event(id);
    let cid = st.segs[id as int].chain as int;
    crate::events::lemma_slot(st.queue, e);
    crate::events::lemma_slot_keeps_descending(st.queue, e);
    assert forall|i: int| 0 <= i < t.queue.len() implies (#[trigger] t.queue[i]).payload
        < t.segs.len() by {
        let k = slot(st.queue, e);
        if i != k {
            let i0 = if i < k {
                i
            } else {
                i - 1
            };
            assert(t.queue[i] == st.queue[i0]);
        }
    }
    assert forall|i: int| 0 <= i < t.segs.len() implies (#[trigger] t.segs[i]).chain
        < t.chains.len() && t.segs[i].geom.wf() by {
        assert(st.segs[i].chain < st.chains.len());
    }
    assert forall|c2: int, j: int|
        0 <= c2 < t.chains.len() && 0 <= j < t.chains[c2].len() implies (#[trigger] t.chains[c2][j])
        < t.segs.len() by {
        assert(t.chains[c2][j] == st.chains[c2][j]);
    }
    assert forall|c2: int, j: int|
        0 <= c2 < t.chains.len() && 0 <= j < t.chains[c2].len() implies t.segs[(
    #[trigger] t.chains[c2][j]) as int].chain == c2 by {
        assert(st.segs[st.chains[c2][j] as int].chain == c2);
        assert(st.chains[c2][j] < st.segs.len());
    }
    assert forall|i: int| 0 <= i < t.segs.len() implies t.chains[(
    #[trigger] t.segs[i]).chain as int].contains(i as usize) by {
        assert(st.chains[st.segs[i].chain as int].contains(i as usize));
    }
    assert forall|c2: int, j: int|
        0 <= c2 < t.chains.len() && 0 <= j < t.chains[c2].len() implies t.segs[(
    #[trigger] t.chains[c2][j]) as int].geom == t.segs[t.chains[c2][0] as int].geom by {
        let m = st.chains[c2][j];
        let m0 = st.chains[c2][0];
        assert(m < st.segs.len() && m0 < st.segs.len());
        assert(st.segs[st.chains[c2][j] as int].chain == c2);
        assert(st.segs[st.chains[c2][0] as int].chain == c2);
        assert(st.segs[st.chains[c2][j] as int].geom == st.segs[st.chains[c2][0] as int].geom);
        if c2 == cid {
            assert(st.chain_of(id).contains(m));
            assert(st.chain_of(id).contains(m0));
        } else {
            if st.chain_of(id).contains(m) {
                let k = choose|k: int| 0 <= k < st.chains[cid].len() && st.chains[cid][k] == m;
                assert(st.segs[st.chains[cid][k] as int].chain == cid);
            }
            if st.chain_of(id).contains(m0) {
                let k = choose|k: int| 0 <= k < st.chains[cid].len() && st.chains[cid][k] == m0;
                assert(st.segs[st.chains[cid][k] as int].chain == cid);
            }
        }
    }
    assert forall|c2: int| 0 <= c2 < t.chains.len() implies (#[trigger] t.chains[c2]).no_duplicates() by {
        assert(st.chains[c2].no_duplicates());
    }
}

/// Joining the chains of two pieces that cover the same stretch keeps a
/// state well formed.
pub proof fn lemma_chained_wf(st: State, a: usize, b: usize)
    requires
        st.wf(),
        a < st.segs.len(),
        b < st.segs.len(),
        st.segs[a as int].geom == st.segs[b as int].geom,
    ensures
        st.chained(a, b).wf(),
        st.chained(a, b).segs.len() == st.segs.len(),
{
    let t = st.chained(a, b);
    let x = st.segs[a as int].chain as int;
    let y = st.segs[b as int].chain as int;
    let xs = st.chains[x];
    let ys = st.chains[y];
    if x != y {
        assert(st.chains[st.segs[a as int].chain as int].contains(a));
        assert(st.chains[st.segs[b as int].chain as int].contains(b));
        let ka = choose|k: int| 0 <= k < xs.len() && xs[k] == a;
        let kb = choose|k: int| 0 <= k < ys.len() && ys[k] == b;
        assert(st.segs[st.chains[x][ka] as int].geom == st.segs[st.chains[x][0] as int].geom);
        assert(st.segs[st.chains[y][kb] as int].geom == st.segs[st.chains[y][0] as int].geom);
        let g = st.segs[a as int].geom;
        assert forall|i: int| 0 <= i < t.segs.len() implies (#[trigger] t.segs[i]).chain
            < t.chains.len() && t.segs[i].geom.wf() by {
            assert(st.segs[i].chain < st.chains.len());
        }
        assert forall|c2: int, j: int|
            0 <= c2 < t.chains.len() && 0 <= j < t.chains[c2].len() implies (
        #[trigger] t.chains[c2][j]) < t.segs.len() by {
            if c2 == x {
                if j < xs.len() {
                    assert(t.chains[c2][j] == st.chains[x][j]);
                } else {
                    assert(t.chains[c2][j] == st.chains[y][j - xs.len()]);
                }
            } else if c2 != y {
                assert(t.chains[c2][j] == st.chains[c2][j]);
            }
        }
        assert forall|c2: int, j: int|
            0 <= c2 < t.chains.len() && 0 <= j < t.chains[c2].len() implies t.segs[(
        #[trigger] t.chains[c2][j]) as int].chain == c2 && t.segs[t.chains[c2][j] as int].geom == (
        if c2 == x {
            g
        } else {
            st.segs[st.chains[c2][0] as int].geom
        }) by {
            if c2 == x {
                if j < xs.len() {
                    let m = st.chains[x][j];
                    assert(t.chains[c2][j] == m);
                    assert(st.segs[st.chains[x][j] as int].chain == x);
                    assert(st.segs[st.chains[x][j] as int].geom == st.segs[st.chains[x][0] as int].geom);
                    if ys.contains(m) {
                        let k = choose|k: int| 0 <= k < ys.len() && ys[k] == m;
                        assert(st.segs[st.chains[y][k] as int].chain == y);
                    }
                } else {
                    let m = st.chains[y][j - xs.len()];
                    assert(t.chains[c2][j] == m);
                    assert(ys.contains(m));
                    assert(st.segs[st.chains[y][j - xs.len()] as int].geom
                        == st.segs[st.chains[y][0] as int].geom);
                }
            } else if c2 != y {
                let m = st.chains[c2][j];
                assert(t.chains[c2][j] == m);
                assert(st.segs[st.chains[c2][j] as int].chain == c2);
                assert(st.segs[st.chains[c2][j] as int].geom == st.segs[st.chains[c2][0] as int].geom);
                if ys.contains(m) {
                    let k = choose|k: int| 0 <= k < ys.len() && ys[k] == m;
                    assert(st.segs[st.chains[y][k] as int].chain == y);
                }
            }
        }
        assert forall|i: int| 0 <= i < t.segs.len() implies t.chains[(
        #[trigger] t.segs[i]).chain as int].contains(i as usize) by {
            let c0 = st.segs[i].chain as int;
            assert(st.chains[c0].contains(i as usize));
            let k = choose|k: int| 0 <= k < st.chains[c0].len() && st.chains[c0][k] == i as usize;
            if ys.contains(i as usize) {
                let k2 = choose|k2: int| 0 <= k2 < ys.len() && ys[k2] == i as usize;
                assert(t.chains[x][xs.len() + k2] == i as usize);
            } else if c0 == x {
                assert(t.chains[x][k] == i as usize);
            } else {
                assert(c0 != y);
                assert(t.chains[c0][k] == i as usize);
            }
        }
        assert forall|c2: int, j: int|
            0 <= c2 < t.chains.len() && 0 <= j < t.chains[c2].len() implies t.segs[(
        #[trigger] t.chains[c2][j]) as int].geom == t.segs[t.chains[c2][0] as int].geom by {
            let m = t.chains[c2][j];
            let m0 = t.chains[c2][0];
            assert(t.segs[m as int].chain == c2);
            assert(t.segs[m0 as int].chain == c2);
        }
        assert forall|c2: int| 0 <= c2 < t.chains.len() implies (
        #[trigger] t.chains[c2]).no_duplicates() by {
            assert(st.chains[c2].no_duplicates());
            if c2 == x {
                assert(xs.no_duplicates());
                assert(ys.no_duplicates());
                assert forall|i: int, j: int|
                    0 <= i < (xs + ys).len() && 0 <= j < (xs + ys).len() && i != j implies (xs
                    + ys)[i] != (xs + ys)[j] by {
                    if i < xs.len() && j >= xs.len() {
                        assert(st.segs[st.chains[x][i] as int].chain == x);
                        assert(st.segs[st.chains[y][j - xs.len()] as int].chain == y);
                    } else if j < xs.len() && i >= xs.len() {
                        assert(st.segs[st.chains[x][j] as int].chain == x);
                        assert(st.segs[st.chains[y][i - xs.len()] as int].chain == y);
                    }
                }
            }
        }
    }
}

/// Marking pieces as reported keeps a state well formed.
pub proof fn lemma_entered_wf(st: State, ms: Seq<usize>)
    requires
        st.wf(),
    ensures
        st.entered(ms).wf(),
        st.entered(ms).segs.len() == st.segs.len(),
{
    let t = st.entered(ms);
    assert forall|i: int| 0 <= i < t.segs.len() implies (#[trigger] t.segs[i]).chain
        < t.chains.len() && t.segs[i].geom.wf() by {
        assert(st.segs[i].chain < st.chains.len());
    }
    assert forall|c2: int, j: int|
        0 <= c2 < t.chains.len() && 0 <= j < t.chains[c2].len() implies (#[trigger] t.chains[c2][j])
        < t.segs.len() by {
        assert(t.chains[c2][j] == st.chains[c2][j]);
    }
    assert forall|c2: int, j: int|
        0 <= c2 < t.chains.len() && 0 <= j < t.chains[c2].len() implies t.segs[(
    #[trigger] t.chains[c2][j]) as int].chain == c2 by {
        assert(st.segs[st.chains[c2][j] as int].chain == c2);
        assert(st.chains[c2][j] < st.segs.len());
    }
    assert forall|i: int| 0 <= i < t.segs.len() implies t.chains[(
    #[trigger] t.segs[i]).chain as int].contains(i as usize) by {
        assert(st.chains[st.segs[i].chain as int].contains(i as usize));
    }
    assert forall|c2: int, j: int|
        0 <= c2 < t.chains.len() && 0 <= j < t.chains[c2].len() implies t.segs[(
    #[trigger] t.chains[c2][j]) as int].geom == t.segs[t.chains[c2][0] as int].geom by {
        assert(st.chains[c2][j] < st.segs.len());
        assert(st.chains[c2][0] < st.segs.len());
        assert(st.segs[st.chains[c2][j] as int].geom == st.segs[st.chains[c2][0] as int].geom);
    }
    assert forall|c2: int| 0 <= c2 < t.chains.len() implies (#[trigger] t.chains[c2]).no_duplicates() by {
        assert(st.chains[c2].no_duplicates());
    }
}

/// Taking the next event out keeps a state well formed.
pub proof fn lemma_popped_wf(st: State)
    requires
        st.wf(),
        st.queue.len() > 0,
    ensures
        st.popped().wf(),
        st.queue.last().payload < st.segs.len(),
{
    let t = st.popped();
    assert forall|i: int, j: int| 0 <= i < j < t.queue.len() implies !(#[trigger] t.queue[i].before(
        t.queue[j],
    )) by {
        assert(!st.queue[i].before(st.queue[j]));
    }
    assert forall|i: int| 0 <= i < t.queue.len() implies (#[trigger] t.queue[i]).payload
        < t.segs.len() by {
        assert(t.queue[i] == st.queue[i]);
    }
    assert(st.queue[st.queue.len() - 1].payload < st.segs.len());
    lemma_same_chains_agree(st, t);
}

/// A change of the active set to entries that exist keeps a state well
/// formed.
pub proof fn lemma_active_wf(st: State, active: Seq<usize>)
    requires
        st.wf(),
        forall|i: int| 0 <= i < active.len() ==> (#[trigger] active[i]) < st.segs.len(),
    ensures
        (State { active, ..st }).wf(),
{
    let t = State { active, ..st };
    assert forall|i: int| 0 <= i < t.queue.len() implies (#[trigger] t.queue[i]).payload
        < t.segs.len() by {
        assert(t.queue[i] == st.queue[i]);
    }
    assert forall|c2: int, j: int|
        0 <= c2 < t.chains.len() && 0 <= j < t.chains[c2].len() implies (#[trigger] t.chains[c2][j])
        < t.segs.len() by {
        assert(t.chains[c2][j] == st.chains[c2][j]);
    }
    lemma_same_chains_agree(st, t);
}

/// What was reported before a touch comes first in what is reported
/// after it; the state does not depend on it.
pub proof fn lemma_finished_reports(t: Touch, seg: usize, before: Seq<Report>)
    ensures
        match (
            State::finished(t, seg, before),
            State::finished(
                Touch { state: t.state, reports: Seq::empty(), outcome: t.outcome },
                seg,
                Seq::empty(),
            ),
        ) {
            (Some(a), Some(b)) => a.state == b.state && a.reports == before + t.reports
                + b.reports,
            (None, None) => true,
            _ => false,
        },
{
    reveal(State::finished);
    let bare = Touch { state: t.state, reports: Seq::empty(), outcome: t.outcome };
    match (State::finished(t, seg, before), State::finished(bare, seg, Seq::empty())) {
        (Some(a), Some(b)) => {
            assert(a.reports =~= before + t.reports + b.reports);
        },
        _ => {},
    }
}

} // verus!
