use core::ops::Range;
use vstd::prelude::*;

verus! {

/// A granted claim, as the map sees it: its id, its range and whether it
/// writes.
pub type ClaimView = (u64, u64, u64, bool);

/// Two claims conflict when one of them writes and their ranges overlap.
pub open spec fn conflicts(a: ClaimView, b: ClaimView) -> bool {
    (a.3 || b.3) && !(a.2 <= b.1 || a.1 >= b.2)
}

/// A claim conflicts with none of `held`.
pub open spec fn compatible(c: ClaimView, held: Seq<ClaimView>) -> bool {
    forall|i: int| 0 <= i < held.len() ==> !conflicts(c, #[trigger] held[i])
}

/// `held` without the claim whose id is `id`.
pub open spec fn without(held: Seq<ClaimView>, id: u64) -> Seq<ClaimView>
    decreases held.len(),
{
    if held.len() == 0 {
        Seq::empty()
    } else if held.last().0 == id {
        without(held.drop_last(), id)
    } else {
        without(held.drop_last(), id).push(held.last())
    }
}

/// Claims with distinct ids do not conflict, a claim's id names it, and
/// every id is below `next`.
pub open spec fn claims_wf(held: Seq<ClaimView>, next: u64) -> bool {
    &&& forall|x: ClaimView, y: ClaimView|
        held.contains(x) && held.contains(y) && x.0 != y.0 ==> !conflicts(x, y)
    &&& forall|x: ClaimView, y: ClaimView|
        held.contains(x) && held.contains(y) && x.0 == y.0 ==> x == y
    &&& forall|x: ClaimView| held.contains(x) ==> x.0 < next
}

/// What is left without a claim was there before.
proof fn lemma_without_contains(held: Seq<ClaimView>, id: u64, x: ClaimView)
    ensures
        without(held, id).contains(x) ==> held.contains(x) && x.0 != id,
    decreases held.len(),
{
    if held.len() > 0 {
        lemma_without_contains(held.drop_last(), id, x);
        if without(held, id).contains(x) && held.last().0 != id {
            let w = without(held.drop_last(), id);
            if w.contains(x) {
                let k = choose|k: int| 0 <= k < w.len() && w[k] == x;
                assert(w.push(held.last())[k] == x);
            }
            if x == held.last() {
                assert(held[held.len() - 1] == x);
            } else {
                let k = choose|k: int| 0 <= k < w.len() + 1 && w.push(held.last())[k] == x;
                assert(w[k] == x);
                let j = choose|j: int| 0 <= j < held.drop_last().len() && held.drop_last()[j] == x;
                assert(held[j] == x);
            }
        } else if without(held, id).contains(x) {
            let j = choose|j: int| 0 <= j < held.drop_last().len() && held.drop_last()[j] == x;
            assert(held[j] == x);
        }
    }
}

/// Locks over ranges of `u64`: readers of overlapping ranges share, a
/// writer excludes every overlapping claim.
pub struct RwMap {
    next_claim_id: u64,
    hold_claims: Vec<RwMapLock>,
}

/// A granted claim on a range.
#[derive(Debug)]
pub struct RwMapLock {
    claim_id: u64,
    range: Range<u64>,
    writer: bool,
}

impl RwMapLock {
    /// The claim.
    pub closed spec fn view(&self) -> ClaimView {
        (self.claim_id, self.range.start, self.range.end, self.writer)
    }

    /// Gives the claim back to `map`.
    pub fn release(self, map: &mut RwMap)
        requires
            old(map).wf(),
        ensures
            final(map).wf(),
            final(map).held() == without(old(map).held(), self.view().0),
    {
        map.release_lock(self.claim_id);
    }

    /// The range claimed.
    pub fn range(&self) -> (r: &Range<u64>)
        ensures
            r.start == self.view().1,
            r.end == self.view().2,
    {
        &self.range
    }

    /// Whether the claim writes.
    pub fn is_writer(&self) -> (r: bool)
        ensures
            r == self.view().3,
    {
        self.writer
    }
}

impl RwMap {
    /// The granted claims, in the order they were granted.
    pub closed spec fn held(&self) -> Seq<ClaimView> {
        self.hold_claims@.map_values(|l: RwMapLock| l.view())
    }

    /// The id the next claim gets.
    pub closed spec fn next_id(&self) -> u64 {
        self.next_claim_id
    }

    /// No two granted claims conflict, and every id is below the next one.
    pub closed spec fn wf(&self) -> bool {
        claims_wf(self.held(), self.next_claim_id)
    }

    /// A map with no claims.
    pub fn new() -> (r: Self)
        ensures
            r.wf(),
            r.held() == Seq::<ClaimView>::empty(),
            r.next_id() == 0,
    {
        RwMap { next_claim_id: 0, hold_claims: Vec::new() }
    }

    /// Whether a claim of `range` conflicts with no granted claim.
    fn check_lock(&self, range: &Range<u64>, writer: bool) -> (r: bool)
        ensures
            r == compatible((0, range.start, range.end, writer), self.held()),
    {
        let mut i: usize = 0;
        while i < self.hold_claims.len()
            invariant
                i <= self.hold_claims@.len(),
                forall|j: int|
                    0 <= j < i ==> !conflicts((0, range.start, range.end, writer), #[trigger] self.held()[j]),
            decreases self.hold_claims@.len() - i,
        {
            let held = &self.hold_claims[i];
            let overlap = !(range.end <= held.range.start || range.start >= held.range.end);
            if (writer || held.writer) && overlap {
                assert(self.held()[i as int] == held.view());
                return false;
            }
            assert(self.held()[i as int] == held.view());
            i = i + 1;
        }
        true
    }

    /// Grants a claim of `range` that conflicts with no granted claim.
    fn claim(&mut self, range: Range<u64>, writer: bool) -> (r: RwMapLock)
        requires
            old(self).wf(),
            old(self).next_id() < u64::MAX,
            compatible((0, range.start, range.end, writer), old(self).held()),
        ensures
            final(self).wf(),
            r.view() == (old(self).next_id(), range.start, range.end, writer),
            final(self).held() == old(self).held().push(r.view()),
            final(self).next_id() == old(self).next_id() + 1,
    {
        let claim_id = self.next_claim_id;
        self.next_claim_id = self.next_claim_id + 1;
        let lock = RwMapLock { claim_id, range: Range { start: range.start, end: range.end }, writer };
        let ghost before = self.held();
        self.hold_claims.push(RwMapLock { claim_id, range, writer });
        assert(self.held() =~= before.push(lock.view()));
        proof {
            let c = lock.view();
            let after = self.held();
            assert forall|x: ClaimView| after.contains(x) implies before.contains(x) || x == c by {
                let k = choose|k: int| 0 <= k < after.len() && after[k] == x;
                if k < before.len() {
                    assert(before[k] == x);
                }
            }
            assert forall|x: ClaimView| before.contains(x) implies !conflicts(x, c) && !conflicts(c, x) by {
                let k = choose|k: int| 0 <= k < before.len() && before[k] == x;
                assert(!conflicts((0, c.1, c.2, writer), before[k]));
            }
            assert(after[after.len() - 1] == c);
        }
        lock
    }

    /// Claims `range`, for writing or reading, and returns the lock. The
    /// claim must conflict with no granted claim: there is no one else to
    /// release one, so waiting for it would never end.
    pub fn lock(&mut self, range: Range<u64>, writer: bool) -> (r: RwMapLock)
        requires
            old(self).wf(),
            range.start < range.end,
            old(self).next_id() < u64::MAX,
            compatible((0, range.start, range.end, writer), old(self).held()),
        ensures
            final(self).wf(),
            r.view() == (old(self).next_id(), range.start, range.end, writer),
            final(self).held() == old(self).held().push(r.view()),
    {
        self.claim(range, writer)
    }

    /// Claims `range` if that conflicts with no granted claim; otherwise
    /// returns `None` and changes nothing.
    pub fn try_lock(&mut self, range: Range<u64>, writer: bool) -> (r: Option<RwMapLock>)
        requires
            old(self).wf(),
            range.start < range.end,
            old(self).next_id() < u64::MAX,
        ensures
            final(self).wf(),
            compatible((0, range.start, range.end, writer), old(self).held()) ==> (r matches Some(l)
                && l.view() == (old(self).next_id(), range.start, range.end, writer) && final(self).held() == old(self).held().push(l.view())),
            !compatible((0, range.start, range.end, writer), old(self).held()) ==> r is None
                && final(self).held() == old(self).held(),
    {
        if self.check_lock(&range, writer) {
            Some(self.claim(range, writer))
        } else {
            None
        }
    }

    /// Removes the granted claim with id `claim_id`.
    fn release_lock(&mut self, claim_id: u64)
        requires
            old(self).wf(),
        ensures
            final(self).wf(),
            final(self).held() == without(old(self).held(), claim_id),
    {
        let ghost before = self.held();
        let mut kept: Vec<RwMapLock> = Vec::new();
        let mut i: usize = 0;
        while i < self.hold_claims.len()
            invariant
                i <= self.hold_claims@.len(),
                before == self.held(),
                kept@.map_values(|l: RwMapLock| l.view()) == without(before.subrange(0, i as int), claim_id),
            decreases self.hold_claims@.len() - i,
        {
            let held = &self.hold_claims[i];
            let l = RwMapLock {
                claim_id: held.claim_id,
                range: Range { start: held.range.start, end: held.range.end },
                writer: held.writer,
            };
            let ghost prev = kept@;
            proof {
                assert(before.subrange(0, i + 1).drop_last() =~= before.subrange(0, i as int));
                assert(before[i as int] == self.hold_claims@[i as int].view());
            }
            if l.claim_id != claim_id {
                kept.push(l);
                assert(kept@.map_values(|l: RwMapLock| l.view()) =~= prev.map_values(
                    |l: RwMapLock| l.view(),
                ).push(before[i as int]));
            }
            i = i + 1;
        }
        assert(before.subrange(0, i as int) =~= before);
        self.hold_claims = kept;
        proof {
            let after = self.held();
            assert forall|x: ClaimView| after.contains(x) implies before.contains(x) by {
                lemma_without_contains(before, claim_id, x);
            }
        }
    }
}

} // verus!
