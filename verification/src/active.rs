//! A value that is known to compare with itself, so that a container may
//! order it among others of its kind.
use std::cmp::Ordering;
use vstd::prelude::*;
use vstd::std_specs::cmp::PartialOrdSpec;
use vstd::std_specs::cmp::PartialOrdSpecImpl;
use crate::error::Error;
use crate::geom::LineOrPoint;
use crate::point::Rel;
use crate::segment::Segment;

verus! {

/// A segment as the active set orders it: by where it lies, and among
/// segments that lie on each other by its name.
#[derive(Clone, Copy, Debug, PartialEq, Eq, Structural)]
pub struct Key {
    pub geom: LineOrPoint,
    pub id: usize,
}

impl Key {
    /// The order of two keys: that of their geometry, and where that is
    /// equal, that of their names.
    pub open spec fn compare(self, other: Key) -> Option<Rel> {
        match self.geom.compare(other.geom) {
            Some(Rel::Equal) => Some(
                if self.id < other.id {
                    Rel::Less
                } else if self.id == other.id {
                    Rel::Equal
                } else {
                    Rel::Greater
                },
            ),
            o => o,
        }
    }

    /// The order of two keys.
    pub fn partial_compare(&self, other: &Key) -> (r: Option<Rel>)
        ensures
            r == self.compare(*other),
    {
        match self.geom.partial_compare(&other.geom) {
            Some(Rel::Equal) => Some(
                if self.id < other.id {
                    Rel::Less
                } else if self.id == other.id {
                    Rel::Equal
                } else {
                    Rel::Greater
                },
            ),
            o => o,
        }
    }
}

impl PartialOrd for Key {
    fn partial_cmp(&self, other: &Key) -> (r: Option<Ordering>) {
        match self.partial_compare(other) {
            Some(Rel::Less) => Some(Ordering::Less),
            Some(Rel::Equal) => Some(Ordering::Equal),
            Some(Rel::Greater) => Some(Ordering::Greater),
            None => None,
        }
    }
}

impl PartialOrdSpecImpl for Key {
    open spec fn obeys_partial_cmp_spec() -> bool {
        true
    }

    open spec fn partial_cmp_spec(&self, other: &Key) -> Option<Ordering> {
        match self.compare(*other) {
            Some(Rel::Less) => Some(Ordering::Less),
            Some(Rel::Equal) => Some(Ordering::Equal),
            Some(Rel::Greater) => Some(Ordering::Greater),
            None => None,
        }
    }
}

/// The answer of a partial comparison as a relation.
pub open spec fn relation(o: Option<Ordering>) -> Option<Rel> {
    match o {
        Some(Ordering::Less) => Some(Rel::Less),
        Some(Ordering::Equal) => Some(Rel::Equal),
        Some(Ordering::Greater) => Some(Rel::Greater),
        None => None,
    }
}

/// A value of a partially ordered type that compares with itself.
#[derive(Debug)]
pub struct Active<T>(T);

impl<T> Active<T> {
    /// The wrapped value.
    pub closed spec fn inner(self) -> T {
        self.0
    }

    /// Read access to the wrapped value.
    pub fn get(&self) -> (t: &T)
        ensures
            *t == self.inner(),
    {
        &self.0
    }
}

impl<T: PartialOrd> Active<T> {
    /// Hands `t` back where it compares with itself, and fails where it
    /// does not.
    pub fn active_ref(t: &T) -> (r: Result<&T, Error>)
        ensures
            T::obeys_partial_cmp_spec() ==> (r is Ok <==> t.partial_cmp_spec(t) is Some),
            r matches Ok(a) ==> a == t,
            r matches Err(e) ==> e.text() == "Not a number"@,
    {
        match t.partial_cmp(t) {
            Some(_) => Ok(t),
            None => Err(Error::Unhandled("Not a number")),
        }
    }

    /// Wraps `t` where it compares with itself, and fails where it does not.
    pub fn new(t: T) -> (r: Result<Active<T>, Error>)
        ensures
            T::obeys_partial_cmp_spec() ==> (r is Ok <==> t.partial_cmp_spec(&t) is Some),
            r matches Ok(a) ==> a.inner() == t,
            r matches Err(e) ==> e.text() == "Not a number"@,
    {
        match t.partial_cmp(&t) {
            Some(_) => Ok(Active(t)),
            None => Err(Error::Unhandled("Not a number")),
        }
    }

    /// The order of two wrapped values, which fails where the underlying
    /// comparison gives none.
    pub fn total_order(&self, other: &Active<T>) -> (r: Result<Rel, Error>)
        ensures
            T::obeys_partial_cmp_spec() ==> match relation(
                self.inner().partial_cmp_spec(&other.inner()),
            ) {
                Some(rel) => r == Ok::<Rel, Error>(rel),
                None => r is Err,
            },
            r matches Err(e) ==> e.text() == "Not comparable"@,
    {
        match self.0.partial_cmp(&other.0) {
            Some(Ordering::Less) => Ok(Rel::Less),
            Some(Ordering::Equal) => Ok(Rel::Equal),
            Some(Ordering::Greater) => Ok(Rel::Greater),
            None => Err(Error::Unhandled("Not comparable")),
        }
    }
}

/// A place in the active set: at the entry that equals the query, or in
/// the gap in front of an entry (behind the last one, at the length).
#[derive(Clone, Copy, Debug, PartialEq, Eq, Structural)]
pub enum Spot {
    At(usize),
    Gap(usize),
}

/// The key of the segment `id`.
pub open spec fn key_of(segs: Seq<Segment>, id: usize) -> Key {
    Key { geom: segs[id as int].geom, id }
}

/// How the query `q` stands to an entry `g`, where both are well formed
/// and compare.
pub open spec fn probe(q: Key, g: Key) -> Option<Rel> {
    if q.geom.wf() && g.geom.wf() {
        q.compare(g)
    } else {
        None
    }
}

/// Where bisection between `lo` and `hi` finds `q` among the entries:
/// it probes the middle entry, goes on below it where `q` is less, above
/// it where `q` is greater, and stops at it where `q` is equal. `None`
/// where a probe gives no order.
pub open spec fn search(
    entries: Seq<usize>,
    segs: Seq<Segment>,
    q: Key,
    lo: int,
    hi: int,
) -> Option<Spot>
    decreases hi - lo,
{
    if lo >= hi {
        Some(Spot::Gap(lo as usize))
    } else {
        let mid = lo + (hi - lo) / 2;
        match probe(q, key_of(segs, entries[mid])) {
            None => None,
            Some(Rel::Less) => search(entries, segs, q, lo, mid),
            Some(Rel::Greater) => search(entries, segs, q, mid + 1, hi),
            Some(Rel::Equal) => Some(Spot::At(mid as usize)),
        }
    }
}

/// Where the segment `id` is found among all the entries: nowhere where
/// it is not well formed.
pub open spec fn locate(entries: Seq<usize>, segs: Seq<Segment>, id: usize) -> Option<Spot> {
    if segs[id as int].geom.wf() {
        search(entries, segs, key_of(segs, id), 0, entries.len() as int)
    } else {
        None
    }
}

/// The entry just below a spot.
pub open spec fn below(entries: Seq<usize>, spot: Spot) -> Option<usize> {
    let i = match spot {
        Spot::At(i) => i,
        Spot::Gap(i) => i,
    };
    if 0 < i <= entries.len() {
        Some(entries[i - 1])
    } else {
        None
    }
}

/// The entry just above a spot.
pub open spec fn above(entries: Seq<usize>, spot: Spot) -> Option<usize> {
    let i = match spot {
        Spot::At(i) => i + 1,
        Spot::Gap(i) => i as int,
    };
    if 0 <= i < entries.len() {
        Some(entries[i])
    } else {
        None
    }
}

/// The entries from `lo` to `hi` are in order about `q`: those before `k`
/// are below `q`, those from `k` on are above it.
pub open spec fn parted(
    entries: Seq<usize>,
    segs: Seq<Segment>,
    q: Key,
    lo: int,
    k: int,
    hi: int,
) -> bool {
    &&& 0 <= lo <= k <= hi <= entries.len()
    &&& forall|i: int|
        lo <= i < k ==> probe(q, key_of(segs, #[trigger] entries[i])) == Some(Rel::Greater)
    &&& forall|i: int|
        k <= i < hi ==> probe(q, key_of(segs, #[trigger] entries[i])) == Some(Rel::Less)
}

/// Among entries that are in order about `q`, bisection finds the gap
/// between those below `q` and those above it.
pub proof fn lemma_search_finds_gap(
    entries: Seq<usize>,
    segs: Seq<Segment>,
    q: Key,
    lo: int,
    k: int,
    hi: int,
)
    requires
        parted(entries, segs, q, lo, k, hi),
    ensures
        search(entries, segs, q, lo, hi) == Some(Spot::Gap(k as usize)),
    decreases hi - lo,
{
    if lo < hi {
        let mid = lo + (hi - lo) / 2;
        if mid < k {
            assert(probe(q, key_of(segs, entries[mid])) == Some(Rel::Greater));
            lemma_search_finds_gap(entries, segs, q, mid + 1, k, hi);
        } else {
            assert(probe(q, key_of(segs, entries[mid])) == Some(Rel::Less));
            lemma_search_finds_gap(entries, segs, q, lo, k, mid);
        }
    }
}

/// Among entries that are in order about `q` but for one at `k` that
/// equals it, bisection finds that entry.
pub proof fn lemma_search_finds_entry(
    entries: Seq<usize>,
    segs: Seq<Segment>,
    q: Key,
    lo: int,
    k: int,
    hi: int,
)
    requires
        k < hi,
        parted(entries, segs, q, lo, k, k),
        parted(entries, segs, q, k + 1, k + 1, hi),
        probe(q, key_of(segs, entries[k])) == Some(Rel::Equal),
    ensures
        search(entries, segs, q, lo, hi) == Some(Spot::At(k as usize)),
    decreases hi - lo,
{
    let mid = lo + (hi - lo) / 2;
    if mid < k {
        assert(probe(q, key_of(segs, entries[mid])) == Some(Rel::Greater));
        lemma_search_finds_entry(entries, segs, q, mid + 1, k, hi);
    } else if mid > k {
        assert(probe(q, key_of(segs, entries[mid])) == Some(Rel::Less));
        lemma_search_finds_entry(entries, segs, q, lo, k, mid);
    }
}

/// The segments that the sweep line crosses, from the lowest to the
/// highest, each named by its place among the segments of the sweep.
pub struct ActiveSet {
    entries: Vec<usize>,
}

impl View for ActiveSet {
    type V = Seq<usize>;

    closed spec fn view(&self) -> Seq<usize> {
        self.entries@
    }
}

impl ActiveSet {
    /// Every entry names one of `n` segments.
    pub open spec fn wf(&self, n: nat) -> bool {
        forall|i: int| 0 <= i < self@.len() ==> (#[trigger] self@[i]) < n
    }

    /// The empty set.
    pub fn new() -> (s: ActiveSet)
        ensures
            s@ == Seq::<usize>::empty(),
    {
        ActiveSet { entries: Vec::new() }
    }

    /// The number of entries.
    pub fn len(&self) -> (n: usize)
        ensures
            n == self@.len(),
    {
        self.entries.len()
    }

    /// The entries, from the lowest to the highest.
    pub fn entries(&self) -> (v: &Vec<usize>)
        ensures
            v@ == self@,
    {
        &self.entries
    }

    /// Finds the segment `id` among the entries by bisection. Fails where
    /// its ends are not in sweep order, or a probe gives no order.
    pub fn find(&self, segs: &Vec<Segment>, id: usize) -> (r: Result<Spot, Error>)
        requires
            self.wf(segs@.len()),
            id < segs@.len(),
        ensures
            r matches Ok(spot) ==> locate(self@, segs@, id) == Some(spot) && match spot {
                Spot::At(i) => i < self@.len(),
                Spot::Gap(i) => i <= self@.len(),
            },
            r is Err ==> locate(self@, segs@, id) is None,
            r matches Err(e) ==> e.text() == (if segs@[id as int].geom.wf() {
                "Not comparable"@
            } else {
                "Not a number"@
            }),
    {
        let query = Key { geom: segs[id].geom, id };
        proof {
            crate::geom::lemma_compare_self(query.geom);
        }
        let q = match Active::new(query) {
            Ok(q) => q,
            Err(e) => {
                return Err(e);
            },
        };
        let mut lo: usize = 0;
        let mut hi: usize = self.entries.len();
        while lo < hi
            invariant
                0 <= lo <= hi <= self.entries.len(),
                self.wf(segs@.len()),
                id < segs@.len(),
                query == key_of(segs@, id),
                query.geom.wf(),
                q.inner() == query,
                locate(self@, segs@, id) == search(self@, segs@, query, lo as int, hi as int),
            decreases hi - lo,
        {
            let mid: usize = lo + (hi - lo) / 2;
            let other: usize = self.entries[mid];
            assert(other == self@[mid as int]);
            let entry = Key { geom: segs[other].geom, id: other };
            proof {
                crate::geom::lemma_compare_self(entry.geom);
            }
            let e = match Active::new(entry) {
                Ok(e) => e,
                Err(_) => {
                    return Err(Error::Unhandled("Not comparable"));
                },
            };
            match q.total_order(&e) {
                Err(e) => {
                    return Err(e);
                },
                Ok(Rel::Less) => {
                    hi = mid;
                },
                Ok(Rel::Greater) => {
                    lo = mid + 1;
                },
                Ok(Rel::Equal) => {
                    return Ok(Spot::At(mid));
                },
            }
        }
        Ok(Spot::Gap(lo))
    }

    /// The entry just below the segment `id`, which need not be in the
    /// set.
    pub fn previous(&self, segs: &Vec<Segment>, id: usize) -> (r: Result<Option<usize>, Error>)
        requires
            self.wf(segs@.len()),
            id < segs@.len(),
        ensures
            r is Ok <==> locate(self@, segs@, id) is Some,
            r matches Ok(o) ==> o == below(self@, locate(self@, segs@, id).unwrap()),
            r matches Ok(Some(k)) ==> k < segs@.len(),
    {
        match self.find(segs, id) {
            Err(e) => Err(e),
            Ok(Spot::At(i)) | Ok(Spot::Gap(i)) => {
                if i > 0 {
                    Ok(Some(self.entries[i - 1]))
                } else {
                    Ok(None)
                }
            },
        }
    }

    /// The entry just above the segment `id`, which need not be in the
    /// set.
    pub fn next(&self, segs: &Vec<Segment>, id: usize) -> (r: Result<Option<usize>, Error>)
        requires
            self.wf(segs@.len()),
            id < segs@.len(),
        ensures
            r is Ok <==> locate(self@, segs@, id) is Some,
            r matches Ok(o) ==> o == above(self@, locate(self@, segs@, id).unwrap()),
            r matches Ok(Some(k)) ==> k < segs@.len(),
    {
        match self.find(segs, id) {
            Err(e) => Err(e),
            Ok(Spot::At(i)) => {
                if i < self.entries.len() - 1 {
                    Ok(Some(self.entries[i + 1]))
                } else {
                    Ok(None)
                }
            },
            Ok(Spot::Gap(i)) => {
                if i < self.entries.len() {
                    Ok(Some(self.entries[i]))
                } else {
                    Ok(None)
                }
            },
        }
    }

    /// Adds the segment `id` at its place. Fails, and changes nothing,
    /// where it is an entry already or a probe gives no order.
    pub fn insert_active(&mut self, segs: &Vec<Segment>, id: usize) -> (r: Result<(), Error>)
        requires
            old(self).wf(segs@.len()),
            id < segs@.len(),
        ensures
            final(self).wf(segs@.len()),
            match locate(old(self)@, segs@, id) {
                Some(Spot::Gap(i)) => r is Ok && final(self)@ == old(self)@.insert(i as int, id),
                _ => r is Err && final(self)@ == old(self)@,
            },
            r matches Err(e) ==> (locate(old(self)@, segs@, id) is Some ==> e.text()
                == "error from insert"@),
    {
        match self.find(segs, id) {
            Err(e) => Err(e),
            Ok(Spot::At(_)) => Err(Error::Unhandled("error from insert")),
            Ok(Spot::Gap(i)) => {
                self.entries.insert(i, id);
                Ok(())
            },
        }
    }

    /// Takes out the segment `id`. Fails, and changes nothing, where it is
    /// not found or a probe gives no order.
    pub fn remove_active(&mut self, segs: &Vec<Segment>, id: usize) -> (r: Result<(), Error>)
        requires
            old(self).wf(segs@.len()),
            id < segs@.len(),
        ensures
            final(self).wf(segs@.len()),
            match locate(old(self)@, segs@, id) {
                Some(Spot::At(i)) => r is Ok && final(self)@ == old(self)@.remove(i as int),
                _ => r is Err && final(self)@ == old(self)@,
            },
            r matches Err(e) ==> (locate(old(self)@, segs@, id) is Some ==> e.text()
                == "error from remove"@),
    {
        match self.find(segs, id) {
            Err(e) => Err(e),
            Ok(Spot::Gap(_)) => Err(Error::Unhandled("error from remove")),
            Ok(Spot::At(i)) => {
                self.entries.remove(i);
                Ok(())
            },
        }
    }
}

/// An entry that bisection stops at is the segment itself: no other
/// segment equals it.
pub proof fn lemma_found_is_self(entries: Seq<usize>, segs: Seq<Segment>, id: usize, lo: int, hi: int)
    requires
        0 <= lo <= hi <= entries.len() <= usize::MAX,
        search(entries, segs, key_of(segs, id), lo, hi) matches Some(Spot::At(i)),
    ensures
        search(entries, segs, key_of(segs, id), lo, hi) matches Some(Spot::At(i)) && lo <= i < hi
            && entries[i as int] == id,
    decreases hi - lo,
{
    if lo < hi {
        let mid = lo + (hi - lo) / 2;
        match probe(key_of(segs, id), key_of(segs, entries[mid])) {
            Some(Rel::Less) => lemma_found_is_self(entries, segs, id, lo, mid),
            Some(Rel::Greater) => lemma_found_is_self(entries, segs, id, mid + 1, hi),
            _ => {},
        }
    }
}

} // verus!
