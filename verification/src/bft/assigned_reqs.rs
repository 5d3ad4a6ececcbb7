//! Requests already assigned a sequence number, found by their payload, and
//! the proposals of a window of sequence numbers, so that the assignments of
//! a window that a checkpoint leaves behind can be forgotten.
use vstd::prelude::*;
use crate::blockchain::proto::{bytes_list, clone_bytes_list};
use crate::text::bytes_eq;

verus! {

/// The requests of a proposal, each by its payload: one, or a batch.
pub enum Proposal {
    Single(Vec<u8>),
    Batch(Vec<Vec<u8>>),
}

impl Proposal {
    /// The payloads of the proposal's requests, in order.
    pub open spec fn payloads(&self) -> Seq<Seq<u8>> {
        match self {
            Proposal::Single(p) => seq![p@],
            Proposal::Batch(b) => bytes_list(b@),
        }
    }

    /// An equal proposal.
    pub fn copy(&self) -> (r: Proposal)
        ensures
            r.payloads() == self.payloads(),
    {
        match self {
            Proposal::Single(p) => Proposal::Single(p.clone()),
            Proposal::Batch(b) => Proposal::Batch(clone_bytes_list(b)),
        }
    }
}

/// The payloads of an optional proposal.
pub open spec fn slot_view(p: Option<Proposal>) -> Option<Seq<Seq<u8>>> {
    match p {
        Some(p) => Some(p.payloads()),
        None => None,
    }
}

/// A payload and the sequence number it was assigned.
struct Assignment {
    payload: Vec<u8>,
    sequence: u64,
}

/// The map that a list of assignments gives: a later one for a payload
/// replaces an earlier.
pub open spec fn assignment_map(s: Seq<(Seq<u8>, u64)>) -> Map<Seq<u8>, u64>
    decreases s.len(),
{
    if s.len() == 0 {
        Map::empty()
    } else {
        assignment_map(s.drop_last()).insert(s.last().0, s.last().1)
    }
}

/// No payload occurs twice in `s`.
pub open spec fn unique_payloads(s: Seq<(Seq<u8>, u64)>) -> bool {
    forall|i: int, j: int| 0 <= i < j < s.len() ==> #[trigger] s[i].0 != #[trigger] s[j].0
}

/// The map holds exactly the payloads of `s`, each with its number.
proof fn lemma_assignment_map(s: Seq<(Seq<u8>, u64)>)
    requires
        unique_payloads(s),
    ensures
        forall|i: int| 0 <= i < s.len() ==> #[trigger] assignment_map(s).contains_key(s[i].0)
            && assignment_map(s)[s[i].0] == s[i].1,
        forall|k: Seq<u8>| #[trigger] assignment_map(s).contains_key(k) ==> exists|i: int|
            0 <= i < s.len() && s[i].0 == k,
        assignment_map(s).dom().finite(),
        assignment_map(s).len() == s.len(),
    decreases s.len(),
{
    if s.len() > 0 {
        let t = s.drop_last();
        lemma_assignment_map(t);
        assert forall|k: Seq<u8>| #[trigger] assignment_map(s).contains_key(k) implies exists|i: int|
            0 <= i < s.len() && s[i].0 == k by {
            if k != s.last().0 {
                let i = choose|i: int| 0 <= i < t.len() && t[i].0 == k;
                assert(s[i] == t[i]);
            }
        }
        assert(!assignment_map(t).contains_key(s.last().0)) by {
            if assignment_map(t).contains_key(s.last().0) {
                let i = choose|i: int| 0 <= i < t.len() && t[i].0 == s.last().0;
                assert(s[i] == t[i]);
            }
        }
        assert forall|i: int| 0 <= i < s.len() implies #[trigger] assignment_map(s).contains_key(s[i].0)
            && assignment_map(s)[s[i].0] == s[i].1 by {
            if i < s.len() - 1 {
                assert(s[i] == t[i]);
            }
        }
        assert(assignment_map(s).dom() == assignment_map(t).dom().insert(s.last().0));
    }
}

/// Setting the number of a payload that occurs in `s` sets it in the map.
proof fn lemma_assignment_map_update(s: Seq<(Seq<u8>, u64)>, i: int, v: u64)
    requires
        unique_payloads(s),
        0 <= i < s.len(),
    ensures
        assignment_map(s.update(i, (s[i].0, v))) == assignment_map(s).insert(s[i].0, v),
    decreases s.len(),
{
    let u = s.update(i, (s[i].0, v));
    if i == s.len() - 1 {
        assert(u.drop_last() =~= s.drop_last());
        assert(assignment_map(u) =~= assignment_map(s).insert(s[i].0, v));
    } else {
        let t = s.drop_last();
        assert(u.drop_last() =~= t.update(i, (t[i].0, v)));
        lemma_assignment_map_update(t, i, v);
        assert(s[i].0 != s.last().0);
        assert(assignment_map(u) =~= assignment_map(s).insert(s[i].0, v));
    }
}

/// Dropping the entry of a payload drops it from the map.
proof fn lemma_assignment_map_remove(s: Seq<(Seq<u8>, u64)>, i: int)
    requires
        unique_payloads(s),
        0 <= i < s.len(),
    ensures
        assignment_map(s.remove(i)) == assignment_map(s).remove(s[i].0),
    decreases s.len(),
{
    let r = s.remove(i);
    let t = s.drop_last();
    lemma_assignment_map(t);
    if i == s.len() - 1 {
        assert(r =~= t);
        assert(!assignment_map(t).contains_key(s[i].0)) by {
            if assignment_map(t).contains_key(s[i].0) {
                let j = choose|j: int| 0 <= j < t.len() && t[j].0 == s[i].0;
                assert(s[j] == t[j]);
            }
        }
        assert(assignment_map(r) =~= assignment_map(s).remove(s[i].0));
    } else {
        assert(r.drop_last() =~= t.remove(i));
        assert(r.last() == s.last());
        lemma_assignment_map_remove(t, i);
        assert(s[i].0 != s.last().0);
        assert(assignment_map(r) =~= assignment_map(s).remove(s[i].0));
    }
}

/// `after` is `before` with `sequence` assigned to each of `ps`.
pub open spec fn assigned_all(before: Map<Seq<u8>, u64>, ps: Seq<Seq<u8>>, sequence: u64, after: Map<Seq<u8>, u64>) -> bool {
    &&& forall|k: Seq<u8>| #[trigger] after.contains_key(k) <==> before.contains_key(k) || ps.contains(k)
    &&& forall|k: Seq<u8>| #[trigger] after.contains_key(k) ==> after[k] == (if ps.contains(k) {
        sequence
    } else {
        before[k]
    })
}

/// Assigning the next payload of a proposal extends what was assigned of it
/// by that payload.
proof fn lemma_assign_one_more(
    m0: Map<Seq<u8>, u64>,
    ps: Seq<Seq<u8>>,
    i: int,
    sequence: u64,
    before: Map<Seq<u8>, u64>,
    after: Map<Seq<u8>, u64>,
)
    requires
        0 <= i < ps.len(),
        assigned_all(m0, ps.take(i), sequence, before),
        after == before.insert(ps[i], sequence),
    ensures
        assigned_all(m0, ps.take(i + 1), sequence, after),
{
    assert forall|k: Seq<u8>| #[trigger] ps.take(i + 1).contains(k) <==> ps.take(i).contains(k) || k == ps[i] by {
        if ps.take(i + 1).contains(k) {
            let j = choose|j: int| 0 <= j < i + 1 && #[trigger] ps.take(i + 1)[j] == k;
            if j < i {
                assert(ps.take(i)[j] == k);
            }
        }
        if ps.take(i).contains(k) {
            let j = choose|j: int| 0 <= j < i && #[trigger] ps.take(i)[j] == k;
            assert(ps.take(i + 1)[j] == k);
        }
        if k == ps[i] {
            assert(ps.take(i + 1)[i] == k);
        }
    }
    assert forall|k: Seq<u8>| #[trigger] after.contains_key(k) implies after[k] == (if ps.take(i + 1).contains(k) {
        sequence
    } else {
        m0[k]
    }) by {
        assert(ps.take(i + 1).contains(k) == (ps.take(i).contains(k) || k == ps[i]));
        if k != ps[i] {
            assert(after[k] == before[k]);
            assert(before.contains_key(k));
        }
    }
    assert forall|k: Seq<u8>| #[trigger] after.contains_key(k) <==> m0.contains_key(k) || ps.take(i + 1).contains(k) by {
        assert(ps.take(i + 1).contains(k) == (ps.take(i).contains(k) || k == ps[i]));
        assert(after.contains_key(k) == (before.contains_key(k) || k == ps[i]));
    }
}

/// The lowest sequence number that a checkpoint at `low_mark` keeps, less
/// one: `backlog` numbers below the mark, or 0.
pub open spec fn kept_from(low_mark: u64, backlog: nat) -> int {
    if low_mark >= backlog {
        low_mark - backlog
    } else {
        0
    }
}

/// The window after its first `n` slots are dropped and as many empty ones
/// are added at its end; all empty where `n` reaches past it.
pub open spec fn shifted(s: Seq<Option<Seq<Seq<u8>>>>, n: int) -> Seq<Option<Seq<Seq<u8>>>> {
    if n >= s.len() {
        Seq::new(s.len(), |i: int| None)
    } else {
        s.skip(n) + Seq::new(n as nat, |i: int| None)
    }
}

/// Whether a slot holds a proposal with payload `k`.
pub open spec fn slot_holds(slot: Option<Seq<Seq<u8>>>, k: Seq<u8>) -> bool {
    match slot {
        Some(ps) => ps.contains(k),
        None => false,
    }
}

/// The payloads proposed in the first `n` slots of the window.
pub open spec fn dropped_payloads(s: Seq<Option<Seq<Seq<u8>>>>, n: int) -> Set<Seq<u8>> {
    Set::new(|k: Seq<u8>| exists|i: int| 0 <= i < n && i < s.len() && slot_holds(#[trigger] s[i], k))
}

/// The payloads assigned a sequence number, and the proposals of a window of
/// sequence numbers, whose first slot is numbered `first`.
pub struct AssignedRequests {
    by_payload: Vec<Assignment>,
    by_sequence: Vec<Option<Proposal>>,
    first: u64,
    backlog_capacity: usize,
}

impl AssignedRequests {
    closed spec fn entries(&self) -> Seq<(Seq<u8>, u64)> {
        self.by_payload@.map_values(|a: Assignment| (a.payload@, a.sequence))
    }

    /// The sequence number assigned to each payload.
    pub closed spec fn assigned(&self) -> Map<Seq<u8>, u64> {
        assignment_map(self.entries())
    }

    /// The proposal of each slot of the window, by its payloads.
    pub closed spec fn slots(&self) -> Seq<Option<Seq<Seq<u8>>>> {
        self.by_sequence@.map_values(|p: Option<Proposal>| slot_view(p))
    }

    /// The sequence number of the window's first slot.
    pub closed spec fn first(&self) -> u64 {
        self.first
    }

    /// How many sequence numbers below a checkpoint's mark are kept.
    pub closed spec fn backlog(&self) -> nat {
        self.backlog_capacity as nat
    }

    /// No payload is listed twice.
    pub closed spec fn wf(&self) -> bool {
        unique_payloads(self.entries())
    }

    /// Nothing assigned, and a window of `high_mark + backlog` empty slots
    /// from sequence number 1.
    pub fn new(high_mark: usize, backlog: usize) -> (r: Self)
        requires
            high_mark + backlog <= usize::MAX,
        ensures
            r.wf(),
            r.assigned() == Map::<Seq<u8>, u64>::empty(),
            r.slots() == Seq::new((high_mark + backlog) as nat, |i: int| None::<Seq<Seq<u8>>>),
            r.first() == 1,
            r.backlog() == backlog,
    {
        let n = high_mark + backlog;
        let mut by_sequence: Vec<Option<Proposal>> = Vec::new();
        let mut i: usize = 0;
        while i < n
            invariant
                i <= n,
                by_sequence@.len() == i,
                forall|j: int| 0 <= j < i ==> #[trigger] by_sequence@[j] is None,
            decreases n - i,
        {
            by_sequence.push(None);
            i = i + 1;
        }
        let r = AssignedRequests { by_payload: Vec::new(), by_sequence, first: 1, backlog_capacity: backlog };
        assert(r.entries() =~= Seq::<(Seq<u8>, u64)>::empty());
        assert(r.assigned() =~= Map::<Seq<u8>, u64>::empty());
        assert(r.slots() =~= Seq::new((high_mark + backlog) as nat, |i: int| None::<Seq<Seq<u8>>>));
        r
    }

    /// Where `payload` is in the list, if it is.
    fn find(&self, payload: &[u8]) -> (r: Option<usize>)
        ensures
            r matches Some(i) ==> i < self.entries().len() && self.entries()[i as int].0 == payload@,
            r is None ==> forall|i: int| 0 <= i < self.entries().len() ==> #[trigger] self.entries()[i].0 != payload@,
    {
        let mut i: usize = 0;
        while i < self.by_payload.len()
            invariant
                i <= self.by_payload@.len(),
                forall|j: int| 0 <= j < i ==> #[trigger] self.entries()[j].0 != payload@,
            decreases self.by_payload@.len() - i,
        {
            assert(self.entries()[i as int].0 == self.by_payload@[i as int].payload@);
            if bytes_eq(self.by_payload[i].payload.as_slice(), payload) {
                return Some(i);
            }
            i = i + 1;
        }
        None
    }

    /// Assigns `sequence` to `payload`.
    fn insert(&mut self, payload: Vec<u8>, sequence: u64)
        requires
            old(self).wf(),
        ensures
            final(self).wf(),
            final(self).assigned() == old(self).assigned().insert(payload@, sequence),
            final(self).slots() == old(self).slots(),
            final(self).first() == old(self).first(),
            final(self).backlog() == old(self).backlog(),
    {
        let ghost e = self.entries();
        match self.find(payload.as_slice()) {
            Some(i) => {
                self.by_payload.set(i, Assignment { payload, sequence });
                proof {
                    assert(self.entries() =~= e.update(i as int, (e[i as int].0, sequence)));
                    lemma_assignment_map_update(e, i as int, sequence);
                }
            },
            None => {
                let ghost k = payload@;
                self.by_payload.push(Assignment { payload, sequence });
                proof {
                    assert(self.entries() =~= e.push((k, sequence)));
                    assert(self.entries().drop_last() =~= e);
                }
            },
        }
    }

    /// Forgets the number assigned to `payload`, if any.
    fn remove_payload(&mut self, payload: &[u8])
        requires
            old(self).wf(),
        ensures
            final(self).wf(),
            final(self).assigned() == old(self).assigned().remove(payload@),
            final(self).slots() == old(self).slots(),
            final(self).first() == old(self).first(),
            final(self).backlog() == old(self).backlog(),
    {
        let ghost e = self.entries();
        match self.find(payload) {
            Some(i) => {
                self.by_payload.remove(i);
                proof {
                    assert(self.entries() =~= e.remove(i as int));
                    lemma_assignment_map_remove(e, i as int);
                }
            },
            None => {
                proof {
                    lemma_assignment_map(e);
                    assert(!self.assigned().contains_key(payload@));
                    assert(self.assigned().remove(payload@) =~= self.assigned());
                }
            },
        }
    }

    /// Assigns `sequence`, a number of the window, to each request of
    /// `proposal`, and puts the proposal in that number's slot.
    pub fn assign(&mut self, proposal: &Proposal, sequence: u64)
        requires
            old(self).wf(),
            old(self).first() <= sequence < old(self).first() + old(self).slots().len(),
        ensures
            final(self).wf(),
            assigned_all(old(self).assigned(), proposal.payloads(), sequence, final(self).assigned()),
            final(self).slots() == old(self).slots().update(sequence - old(self).first(), Some(proposal.payloads())),
            final(self).first() == old(self).first(),
            final(self).backlog() == old(self).backlog(),
    {
        let ghost m0 = self.assigned();
        let ghost ps = proposal.payloads();
        match proposal {
            Proposal::Single(p) => {
                self.insert(p.clone(), sequence);
                assert forall|k: Seq<u8>| ps.contains(k) <==> k == p@ by {
                    if k == p@ {
                        assert(ps[0] == k);
                    }
                }
                assert(assigned_all(m0, ps, sequence, self.assigned()));
            },
            Proposal::Batch(b) => {
                let mut i: usize = 0;
                while i < b.len()
                    invariant
                        i <= b@.len(),
                        self.wf(),
                        ps == bytes_list(b@),
                        self.slots() == old(self).slots(),
                        self.first() == old(self).first(),
                        self.backlog() == old(self).backlog(),
                        assigned_all(m0, ps.take(i as int), sequence, self.assigned()),
                    decreases b@.len() - i,
                {
                    let ghost before = self.assigned();
                    let item = b[i].clone();
                    assert(ps[i as int] == b@[i as int]@);
                    self.insert(item, sequence);
                    proof {
                        lemma_assign_one_more(m0, ps, i as int, sequence, before, self.assigned());
                    }
                    i = i + 1;
                }
                assert(ps.take(i as int) =~= ps);
                assert(assigned_all(m0, ps, sequence, self.assigned()));
            },
        }
        let offset: u64 = sequence - self.first;
        let len: usize = self.by_sequence.len();
        assert(offset < len);
        let index = offset as usize;
        assert(index as int == sequence - old(self).first());
        assert(self.slots() == old(self).slots());
        let stored = proposal.copy();
        let ghost before = self.by_sequence@;
        self.by_sequence.set(index, Some(stored));
        assert(self.by_sequence@ == before.update(index as int, Some(stored)));
        assert(slot_view(Some(stored)) == Some(ps));
        assert(self.slots() =~= old(self).slots().update(sequence - old(self).first(), Some(ps)));
    }

    /// Forgets the numbers assigned to the payloads of `proposal`.
    fn forget(&mut self, proposal: &Proposal)
        requires
            old(self).wf(),
        ensures
            final(self).wf(),
            final(self).assigned() == old(self).assigned().remove_keys(
                Set::new(|k: Seq<u8>| proposal.payloads().contains(k)),
            ),
            final(self).slots() == old(self).slots(),
            final(self).first() == old(self).first(),
            final(self).backlog() == old(self).backlog(),
    {
        let ghost m0 = self.assigned();
        let ghost ps = proposal.payloads();
        match proposal {
            Proposal::Single(p) => {
                self.remove_payload(p.as_slice());
                assert forall|k: Seq<u8>| ps.contains(k) <==> k == p@ by {
                    if k == p@ {
                        assert(ps[0] == k);
                    }
                }
                assert(self.assigned() =~= m0.remove_keys(Set::new(|k: Seq<u8>| ps.contains(k))));
            },
            Proposal::Batch(b) => {
                let mut i: usize = 0;
                while i < b.len()
                    invariant
                        i <= b@.len(),
                        self.wf(),
                        ps == bytes_list(b@),
                        self.slots() == old(self).slots(),
                        self.first() == old(self).first(),
                        self.backlog() == old(self).backlog(),
                        self.assigned() == m0.remove_keys(Set::new(|k: Seq<u8>| ps.take(i as int).contains(k))),
                    decreases b@.len() - i,
                {
                    assert(ps[i as int] == b@[i as int]@);
                    self.remove_payload(b[i].as_slice());
                    assert forall|k: Seq<u8>| #[trigger] ps.take(i + 1).contains(k) <==> ps.take(i as int).contains(k)
                        || k == ps[i as int] by {
                        if ps.take(i + 1).contains(k) {
                            let j = choose|j: int| 0 <= j < i + 1 && #[trigger] ps.take(i + 1)[j] == k;
                            if j < i {
                                assert(ps.take(i as int)[j] == k);
                            }
                        }
                        if ps.take(i as int).contains(k) {
                            let j = choose|j: int| 0 <= j < i && #[trigger] ps.take(i as int)[j] == k;
                            assert(ps.take(i + 1)[j] == k);
                        }
                        if k == ps[i as int] {
                            assert(ps.take(i + 1)[i as int] == k);
                        }
                    }
                    assert(self.assigned() =~= m0.remove_keys(Set::new(|k: Seq<u8>| ps.take(i + 1).contains(k))));
                    i = i + 1;
                }
                assert(ps.take(i as int) =~= ps);
            },
        }
    }

    /// Forgets the slots below `backlog` numbers under `low_mark`, and the
    /// assignments of the payloads proposed in them: the window then starts
    /// just above that number, with as many empty slots added at its end.
    pub fn checkpoint(&mut self, low_mark: u64)
        requires
            old(self).wf(),
            kept_from(low_mark, old(self).backlog()) < u64::MAX,
            old(self).first() <= kept_from(low_mark, old(self).backlog()) + 1,
        ensures
            final(self).wf(),
            final(self).first() == kept_from(low_mark, old(self).backlog()) + 1,
            final(self).slots() == shifted(old(self).slots(), final(self).first() - old(self).first()),
            final(self).assigned() == old(self).assigned().remove_keys(
                dropped_payloads(old(self).slots(), final(self).first() - old(self).first()),
            ),
            final(self).backlog() == old(self).backlog(),
    {
        let backlog = self.backlog_capacity as u64;
        let new_low = if low_mark >= backlog { low_mark - backlog } else { 0 };
        let advance = new_low + 1 - self.first;
        let cap = self.by_sequence.len();
        let n: usize = if advance >= cap as u64 { cap } else { advance as usize };
        let ghost s0 = self.slots();
        let ghost m0 = self.assigned();
        let mut i: usize = 0;
        while i < n
            invariant
                i <= n <= cap,
                cap == s0.len(),
                n == (if advance >= cap { cap as int } else { advance as int }),
                self.wf(),
                self.slots() == s0,
                self.first() == old(self).first(),
                self.backlog() == old(self).backlog(),
                self.assigned() == m0.remove_keys(dropped_payloads(s0, i as int)),
            decreases n - i,
        {
            let slot = match &self.by_sequence[i] {
                Some(p) => Some(p.copy()),
                None => None,
            };
            assert(s0[i as int] == slot_view(self.by_sequence@[i as int]));
            match slot {
                Some(p) => {
                    self.forget(&p);
                },
                None => {},
            }
            assert forall|k: Seq<u8>| #[trigger] dropped_payloads(s0, i + 1).contains(k) <==> dropped_payloads(s0, i as int).contains(k)
                || slot_holds(s0[i as int], k) by {
                if dropped_payloads(s0, i + 1).contains(k) {
                    let j = choose|j: int| 0 <= j < i + 1 && j < s0.len() && slot_holds(#[trigger] s0[j], k);
                    if j < i {
                        assert(dropped_payloads(s0, i as int).contains(k));
                    }
                }
                if dropped_payloads(s0, i as int).contains(k) {
                    let j = choose|j: int| 0 <= j < i && j < s0.len() && slot_holds(#[trigger] s0[j], k);
                    assert(dropped_payloads(s0, i + 1).contains(k));
                }
                if slot_holds(s0[i as int], k) {
                    assert(dropped_payloads(s0, i + 1).contains(k));
                }
            }
            assert(self.assigned() =~= m0.remove_keys(dropped_payloads(s0, i + 1)));
            i = i + 1;
        }
        let mut k: usize = 0;
        while k < n
            invariant
                k <= n <= cap,
                cap == s0.len(),
                self.by_sequence@.len() == cap,
                self.wf(),
                self.slots() == s0.skip(k as int) + Seq::new(k as nat, |j: int| None::<Seq<Seq<u8>>>),
                self.first() == old(self).first(),
                self.backlog() == old(self).backlog(),
                self.assigned() == m0.remove_keys(dropped_payloads(s0, n as int)),
            decreases n - k,
        {
            let ghost before = self.slots();
            self.by_sequence.remove(0);
            self.by_sequence.push(None);
            assert(self.slots() =~= before.skip(1).push(None));
            assert(s0.skip(k + 1) + Seq::new((k + 1) as nat, |j: int| None::<Seq<Seq<u8>>>) =~= before.skip(1).push(
                None,
            ));
            k = k + 1;
        }
        self.first = new_low + 1;
        assert(self.slots() =~= shifted(s0, self.first - old(self).first));
    }

    /// The sequence number of the window's first slot.
    pub fn first_idx(&self) -> (r: u64)
        ensures
            r == self.first(),
    {
        self.first
    }

    /// How many sequence numbers the window holds.
    pub fn window(&self) -> (r: usize)
        ensures
            r == self.slots().len(),
    {
        self.by_sequence.len()
    }

    /// How many sequence numbers below a checkpoint's mark are kept.
    pub fn backlog_capacity(&self) -> (r: usize)
        ensures
            r == self.backlog(),
    {
        self.backlog_capacity
    }

    /// Whether `payload` has been assigned a sequence number.
    pub fn is_assigned(&self, payload: &[u8]) -> (r: bool)
        requires
            self.wf(),
        ensures
            r == self.assigned().contains_key(payload@),
    {
        proof {
            lemma_assignment_map(self.entries());
        }
        match self.find(payload) {
            Some(i) => true,
            None => false,
        }
    }

    /// How many payloads have been assigned a sequence number.
    pub fn len(&self) -> (r: usize)
        requires
            self.wf(),
        ensures
            r == self.assigned().len(),
    {
        proof {
            lemma_assignment_map(self.entries());
        }
        self.by_payload.len()
    }

    /// Whether no payload has been assigned a sequence number.
    pub fn is_empty(&self) -> (r: bool)
        requires
            self.wf(),
        ensures
            r == (self.assigned().len() == 0),
    {
        self.len() == 0
    }
}

} // verus!
