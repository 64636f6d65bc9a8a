//! An in-process gossip router.
//!
//! The gossip transport is an opaque pub/sub on byte payloads keyed by a
//! topic. This router is the in-memory realisation the voter runtime and the
//! tests drive: per-topic queues of payloads, with the five operations of
//! the network capability — per-round message streams, best-effort sends,
//! per-round teardown, and the per-set commit channel. A stream here is the
//! full history under a topic so far, restartable on every call.

use vstd::prelude::*;
use crate::topics::{commit_topic_spec, make_commit_topic, make_topic, topic_spec};

verus! {

/// One topic's stored payloads.
#[derive(Debug)]
pub struct TopicQueue {
    pub topic: Vec<u8>,
    pub messages: Vec<Vec<u8>>,
}

/// The router: a queue per topic seen so far.
#[derive(Debug)]
pub struct GossipRouter {
    pub queues: Vec<TopicQueue>,
}

/// Whether two byte vectors hold the same bytes.
fn bytes_eq(a: &Vec<u8>, b: &Vec<u8>) -> (r: bool)
    ensures
        r == (a@ == b@),
{
    let n = a.len();
    if n != b.len() {
        return false;
    }
    let mut i: usize = 0;
    while i < n
        invariant
            n == a@.len() == b@.len(),
            0 <= i <= n,
            forall|k: int| 0 <= k < i ==> a@[k] == b@[k],
        decreases n - i,
    {
        if a[i] != b[i] {
            return false;
        }
        i = i + 1;
    }
    proof {
        assert(a@ =~= b@);
    }
    true
}

/// A byte-for-byte copy of a payload.
fn copy_payload(v: &Vec<u8>) -> (r: Vec<u8>)
    ensures
        r@ == v@,
{
    let mut out: Vec<u8> = Vec::new();
    let n = v.len();
    let mut i: usize = 0;
    while i < n
        invariant
            n == v@.len(),
            0 <= i <= n,
            out@ == v@.take(i as int),
        decreases n - i,
    {
        out.push(v[i]);
        proof {
            assert(out@ =~= v@.take(i + 1));
        }
        i = i + 1;
    }
    proof {
        assert(v@.take(n as int) =~= v@);
    }
    out
}

impl GossipRouter {
    /// Whether a queue exists for this topic.
    pub open spec fn has_topic(self, t: Seq<u8>) -> bool {
        exists|i: int| 0 <= i < self.queues@.len() && (#[trigger] self.queues@[i]).topic@ == t
    }

    /// The index of this topic's queue (meaningful when `has_topic`).
    pub open spec fn qidx(self, t: Seq<u8>) -> int {
        choose|i: int| 0 <= i < self.queues@.len() && (#[trigger] self.queues@[i]).topic@ == t
    }

    /// The payloads stored under this topic, oldest first.
    pub open spec fn messages_spec(self, t: Seq<u8>) -> Seq<Vec<u8>> {
        if self.has_topic(t) {
            self.queues@[self.qidx(t)].messages@
        } else {
            Seq::empty()
        }
    }

    /// Well-formedness: one queue per topic.
    pub open spec fn wf(self) -> bool {
        forall|i: int, j: int|
            #![trigger self.queues@[i].topic, self.queues@[j].topic]
            0 <= i < j < self.queues@.len() ==> self.queues@[i].topic@ != self.queues@[j].topic@
    }

    /// On a well-formed router, a present topic names exactly one queue.
    pub proof fn lemma_queue_lookup(self, t: Seq<u8>)
        requires
            self.wf(),
            self.has_topic(t),
        ensures
            0 <= self.qidx(t) < self.queues@.len(),
            self.queues@[self.qidx(t)].topic@ == t,
            forall|i: int|
                0 <= i < self.queues@.len() && (#[trigger] self.queues@[i]).topic@ == t ==> i
                    == self.qidx(t),
    {
        let k = self.qidx(t);
        assert(0 <= k < self.queues@.len() && self.queues@[k].topic@ == t);
        assert forall|i: int|
            0 <= i < self.queues@.len() && (#[trigger] self.queues@[i]).topic@ == t implies i
            == k by {
            if i < k {
                assert(self.queues@[i].topic@ != self.queues@[k].topic@);
            } else if k < i {
                assert(self.queues@[k].topic@ != self.queues@[i].topic@);
            }
        }
    }

    /// An empty router.
    pub fn new() -> (r: GossipRouter)
        ensures
            r.wf(),
            r.queues@.len() == 0,
    {
        GossipRouter { queues: Vec::new() }
    }

    /// The index of this topic's queue, if any.
    fn find_queue(&self, topic: &Vec<u8>) -> (r: Option<usize>)
        ensures
            match r {
                Some(i) => self.has_topic(topic@) && 0 <= i < self.queues@.len()
                    && self.queues@[i as int].topic@ == topic@,
                None => !self.has_topic(topic@),
            },
    {
        let n = self.queues.len();
        let mut i: usize = 0;
        while i < n
            invariant
                n == self.queues@.len(),
                0 <= i <= n,
                forall|k: int| 0 <= k < i ==> (#[trigger] self.queues@[k]).topic@ != topic@,
            decreases n - i,
        {
            if bytes_eq(&self.queues[i].topic, topic) {
                return Some(i);
            }
            i = i + 1;
        }
        None
    }

    /// A copy of every payload gossiped under this topic so far.
    fn stream_for(&self, topic: &Vec<u8>) -> (r: Vec<Vec<u8>>)
        requires
            self.wf(),
        ensures
            r@.len() == self.messages_spec(topic@).len(),
            forall|k: int|
                0 <= k < r@.len() ==> (#[trigger] r@[k])@ == self.messages_spec(topic@)[k]@,
    {
        let i = match self.find_queue(topic) {
            Some(i) => i,
            None => {
                let out: Vec<Vec<u8>> = Vec::new();
                return out;
            },
        };
        proof {
            self.lemma_queue_lookup(topic@);
        }
        let q = &self.queues[i];
        let n = q.messages.len();
        let mut out: Vec<Vec<u8>> = Vec::new();
        let mut k: usize = 0;
        while k < n
            invariant
                n == q.messages@.len(),
                0 <= k <= n,
                out@.len() == k,
                forall|p: int| 0 <= p < k ==> (#[trigger] out@[p])@ == q.messages@[p]@,
            decreases n - k,
        {
            out.push(copy_payload(&q.messages[k]));
            k = k + 1;
        }
        out
    }

    /// Stores a payload under a topic, opening the queue on first use.
    fn gossip(&mut self, topic: Vec<u8>, payload: Vec<u8>)
        requires
            old(self).wf(),
        ensures
            final(self).wf(),
            final(self).messages_spec(topic@) == old(self).messages_spec(topic@).push(payload),
            forall|t2: Seq<u8>|
                t2 != topic@ ==> #[trigger] final(self).messages_spec(t2) == old(
                    self,
                ).messages_spec(t2) && (final(self).has_topic(t2) == old(self).has_topic(t2)),
    {
        let i = match self.find_queue(&topic) {
            Some(i) => i,
            None => {
                let ghost pre = *self;
                let q = TopicQueue { topic, messages: vec![payload] };
                self.queues.push(q);
                proof {
                    let n = self.queues@.len() - 1;
                    assert forall|i: int, j: int|
                        #![trigger self.queues@[i].topic, self.queues@[j].topic]
                        0 <= i < j < self.queues@.len() implies self.queues@[i].topic@
                        != self.queues@[j].topic@ by {
                        if j < n {
                            assert(self.queues@[i] == pre.queues@[i]);
                            assert(self.queues@[j] == pre.queues@[j]);
                        } else {
                            assert(self.queues@[i] == pre.queues@[i]);
                        }
                    }
                    assert(self.has_topic(self.queues@[n].topic@));
                    self.lemma_queue_lookup(self.queues@[n].topic@);
                    assert(self.qidx(self.queues@[n].topic@) == n);
                    assert(self.messages_spec(self.queues@[n].topic@) =~= pre.messages_spec(
                        self.queues@[n].topic@,
                    ).push(self.queues@[n].messages@[0]));
                    assert forall|t2: Seq<u8>| t2 != self.queues@[n].topic@ implies #[trigger] self
                        .messages_spec(t2) == pre.messages_spec(t2) && (self.has_topic(t2)
                        == pre.has_topic(t2)) by {
                        if pre.has_topic(t2) {
                            pre.lemma_queue_lookup(t2);
                            let k = pre.qidx(t2);
                            assert(self.queues@[k] == pre.queues@[k]);
                            assert(self.has_topic(t2));
                            self.lemma_queue_lookup(t2);
                            assert(self.qidx(t2) == k);
                        } else {
                            if self.has_topic(t2) {
                                let k = self.qidx(t2);
                                assert(0 <= k < self.queues@.len() && self.queues@[k].topic@ == t2);
                                assert(k == n);
                            }
                        }
                    }
                }
                return ;
            },
        };
        proof {
            self.lemma_queue_lookup(topic@);
        }
        let ghost pre = *self;
        let ghost k = self.qidx(topic@);
        let q = &mut self.queues[i];
        q.messages.push(payload);
        proof {
            assert(self.queues@[k].topic@ == topic@);
            assert forall|i2: int, j2: int|
                #![trigger self.queues@[i2].topic, self.queues@[j2].topic]
                0 <= i2 < j2 < self.queues@.len() implies self.queues@[i2].topic@
                != self.queues@[j2].topic@ by {
                assert(self.queues@[i2].topic == pre.queues@[i2].topic);
                assert(self.queues@[j2].topic == pre.queues@[j2].topic);
            }
            assert(self.has_topic(topic@));
            self.lemma_queue_lookup(topic@);
            assert(self.qidx(topic@) == k);
            assert(self.messages_spec(topic@) =~= pre.messages_spec(topic@).push(payload));
            assert forall|t2: Seq<u8>| t2 != topic@ implies #[trigger] self.messages_spec(t2)
                == pre.messages_spec(t2) && (self.has_topic(t2) == pre.has_topic(t2)) by {
                if pre.has_topic(t2) {
                    pre.lemma_queue_lookup(t2);
                    let p = pre.qidx(t2);
                    assert(p != k);
                    assert(self.queues@[p] == pre.queues@[p]);
                    assert(self.has_topic(t2));
                    self.lemma_queue_lookup(t2);
                    assert(self.qidx(t2) == p);
                } else {
                    if self.has_topic(t2) {
                        let p = self.qidx(t2);
                        assert(0 <= p < self.queues@.len() && self.queues@[p].topic@ == t2);
                        if p != k {
                            assert(pre.queues@[p] == self.queues@[p]);
                        }
                    }
                }
            }
        }
    }

    /// Empties the queue of a topic, if it holds anything. Safe to call any
    /// number of times: once the topic is clear, the router does not move.
    fn collect_garbage(&mut self, topic: &Vec<u8>)
        requires
            old(self).wf(),
        ensures
            final(self).wf(),
            final(self).messages_spec(topic@).len() == 0,
            old(self).messages_spec(topic@).len() == 0 ==> *final(self) == *old(self),
            forall|t2: Seq<u8>|
                t2 != topic@ ==> #[trigger] final(self).messages_spec(t2) == old(
                    self,
                ).messages_spec(t2) && (final(self).has_topic(t2) == old(self).has_topic(t2)),
    {
        let i = match self.find_queue(topic) {
            Some(i) => i,
            None => {
                return ;
            },
        };
        proof {
            self.lemma_queue_lookup(topic@);
        }
        if self.queues[i].messages.len() == 0 {
            return ;
        }
        let ghost pre = *self;
        let ghost k = self.qidx(topic@);
        let q = &mut self.queues[i];
        q.messages = Vec::new();
        proof {
            assert forall|i2: int, j2: int|
                #![trigger self.queues@[i2].topic, self.queues@[j2].topic]
                0 <= i2 < j2 < self.queues@.len() implies self.queues@[i2].topic@
                != self.queues@[j2].topic@ by {
                assert(self.queues@[i2].topic == pre.queues@[i2].topic);
                assert(self.queues@[j2].topic == pre.queues@[j2].topic);
            }
            assert(self.queues@[k].topic@ == topic@);
            assert(self.has_topic(topic@));
            self.lemma_queue_lookup(topic@);
            assert(self.qidx(topic@) == k);
            assert forall|t2: Seq<u8>| t2 != topic@ implies #[trigger] self.messages_spec(t2)
                == pre.messages_spec(t2) && (self.has_topic(t2) == pre.has_topic(t2)) by {
                if pre.has_topic(t2) {
                    pre.lemma_queue_lookup(t2);
                    let p = pre.qidx(t2);
                    assert(p != k);
                    assert(self.queues@[p] == pre.queues@[p]);
                    assert(self.has_topic(t2));
                    self.lemma_queue_lookup(t2);
                    assert(self.qidx(t2) == p);
                } else {
                    if self.has_topic(t2) {
                        let p = self.qidx(t2);
                        assert(0 <= p < self.queues@.len() && self.queues@[p].topic@ == t2);
                        if p != k {
                            assert(pre.queues@[p] == self.queues@[p]);
                        }
                    }
                }
            }
        }
    }

    /// The vote messages gossiped so far for a round under a set.
    pub fn messages_for(&self, round: u64, set_id: u64) -> (r: Vec<Vec<u8>>)
        requires
            self.wf(),
        ensures
            r@.len() == self.messages_spec(topic_spec(round, set_id)).len(),
            forall|k: int|
                0 <= k < r@.len() ==> (#[trigger] r@[k])@ == self.messages_spec(
                    topic_spec(round, set_id),
                )[k]@,
    {
        let t = make_topic(round, set_id);
        self.stream_for(&t)
    }

    /// Broadcasts a vote message for a round under a set: best effort, no
    /// ordering promised to receivers.
    pub fn send_message(&mut self, round: u64, set_id: u64, payload: Vec<u8>)
        requires
            old(self).wf(),
        ensures
            final(self).wf(),
            final(self).messages_spec(topic_spec(round, set_id)) == old(self).messages_spec(
                topic_spec(round, set_id),
            ).push(payload),
            forall|t2: Seq<u8>|
                t2 != topic_spec(round, set_id) ==> #[trigger] final(self).messages_spec(t2)
                    == old(self).messages_spec(t2),
    {
        let t = make_topic(round, set_id);
        self.gossip(t, payload)
    }

    /// Releases what a superseded round's topic holds. Calling it again on
    /// an already clear topic leaves the router exactly as it was.
    pub fn drop_messages(&mut self, round: u64, set_id: u64)
        requires
            old(self).wf(),
        ensures
            final(self).wf(),
            final(self).messages_spec(topic_spec(round, set_id)).len() == 0,
            old(self).messages_spec(topic_spec(round, set_id)).len() == 0 ==> *final(self) == *old(
                self,
            ),
            forall|t2: Seq<u8>|
                t2 != topic_spec(round, set_id) ==> #[trigger] final(self).messages_spec(t2)
                    == old(self).messages_spec(t2),
    {
        let t = make_topic(round, set_id);
        self.collect_garbage(&t)
    }

    /// The finality commits gossiped so far for an authority set.
    pub fn commit_messages(&self, set_id: u64) -> (r: Vec<Vec<u8>>)
        requires
            self.wf(),
        ensures
            r@.len() == self.messages_spec(commit_topic_spec(set_id)).len(),
            forall|k: int|
                0 <= k < r@.len() ==> (#[trigger] r@[k])@ == self.messages_spec(
                    commit_topic_spec(set_id),
                )[k]@,
    {
        let t = make_commit_topic(set_id);
        self.stream_for(&t)
    }

    /// Broadcasts a finality commit for an authority set.
    pub fn send_commit(&mut self, set_id: u64, payload: Vec<u8>)
        requires
            old(self).wf(),
        ensures
            final(self).wf(),
            final(self).messages_spec(commit_topic_spec(set_id)) == old(self).messages_spec(
                commit_topic_spec(set_id),
            ).push(payload),
            forall|t2: Seq<u8>|
                t2 != commit_topic_spec(set_id) ==> #[trigger] final(self).messages_spec(t2) == old(
                    self,
                ).messages_spec(t2),
    {
        let t = make_commit_topic(set_id);
        self.gossip(t, payload)
    }
}

} // verus!
