//! The test client's bookkeeping of replies: replies are gathered by
//! sequence number, and the sequence numbers are settled in order, each once
//! four replicas answered it.
use vstd::prelude::*;

verus! {

/// The number of replies that settle a sequence number.
pub const QUORUM: usize = 4;

/// What to do after a reply.
pub enum ReplyStep {
    /// Wait for more replies.
    Wait,
    /// The replies to the next unsettled sequence number are in: check that
    /// they agree, and report it with `settle`.
    Check(usize),
}

/// How a check ended.
pub enum Settled {
    /// More sequence numbers are open.
    Continue,
    /// Every sequence number is settled.
    Done,
    /// The replies to this sequence number disagree.
    Bad(usize),
}

/// Replies by sequence number, and how many sequence numbers are settled.
pub struct ReplyTracker<R> {
    replies: Vec<Vec<R>>,
    completed: usize,
}

impl<R> ReplyTracker<R> {
    /// How many replies each sequence number has.
    pub closed spec fn counts(&self) -> Seq<nat> {
        self.replies@.map_values(|v: Vec<R>| v@.len())
    }

    /// How many sequence numbers are settled, from 0 on.
    pub closed spec fn completed(&self) -> nat {
        self.completed as nat
    }

    pub closed spec fn wf(&self) -> bool {
        self.completed <= self.replies@.len()
    }

    /// A tracker for `expected` sequence numbers.
    pub fn new(expected: usize) -> (r: Self)
        ensures
            r.wf(),
            r.counts() == Seq::new(expected as nat, |i: int| 0nat),
            r.completed() == 0,
    {
        let mut replies: Vec<Vec<R>> = Vec::new();
        let mut i: usize = 0;
        while i < expected
            invariant
                i <= expected,
                replies@.len() == i,
                forall|k: int| 0 <= k < i ==> (#[trigger] replies@[k])@.len() == 0,
            decreases expected - i,
        {
            replies.push(Vec::new());
            i = i + 1;
        }
        let r = ReplyTracker { replies, completed: 0 };
        assert(r.counts() =~= Seq::new(expected as nat, |k: int| 0nat));
        r
    }

    /// Files a reply under its sequence number; asks for a check once the
    /// next unsettled sequence number has a quorum of replies.
    pub fn record(&mut self, sequence: u64, reply: R) -> (r: ReplyStep)
        requires
            old(self).wf(),
            (sequence as int) < old(self).counts().len(),
            old(self).completed() < old(self).counts().len(),
        ensures
            final(self).wf(),
            final(self).completed() == old(self).completed(),
            final(self).counts() == old(self).counts().update(sequence as int, old(self).counts()[sequence as int] + 1),
            final(self).counts()[old(self).completed() as int] >= QUORUM ==> r == ReplyStep::Check(
                old(self).completed() as usize,
            ),
            final(self).counts()[old(self).completed() as int] < QUORUM ==> r == ReplyStep::Wait,
    {
        let _n = self.replies.len();
        let s = sequence as usize;
        assert(s as int == sequence as int);
        let ghost before = self.replies@;
        self.replies[s].push(reply);
        assert(self.counts() =~= before.map_values(|v: Vec<R>| v@.len()).update(
            sequence as int,
            before[sequence as int]@.len() + 1,
        ));
        if self.replies[self.completed].len() < QUORUM {
            ReplyStep::Wait
        } else {
            ReplyStep::Check(self.completed)
        }
    }

    /// The replies to sequence number `index`.
    pub fn replies(&self, index: usize) -> (r: &[R])
        requires
            (index as int) < self.counts().len(),
        ensures
            r@.len() == self.counts()[index as int],
    {
        self.replies[index].as_slice()
    }

    /// Settles the next sequence number when its replies agree.
    pub fn settle(&mut self, agree: bool) -> (r: Settled)
        requires
            old(self).wf(),
            old(self).completed() < old(self).counts().len(),
        ensures
            final(self).wf(),
            final(self).counts() == old(self).counts(),
            !agree ==> r == Settled::Bad(old(self).completed() as usize) && final(self).completed() == old(self).completed(),
            agree ==> final(self).completed() == old(self).completed() + 1,
            agree && final(self).completed() == final(self).counts().len() ==> r == Settled::Done,
            agree && final(self).completed() < final(self).counts().len() ==> r == Settled::Continue,
    {
        if !agree {
            return Settled::Bad(self.completed);
        }
        let n = self.replies.len();
        self.completed = self.completed + 1;
        if self.completed == n {
            Settled::Done
        } else {
            Settled::Continue
        }
    }
}

} // verus!
