//! Message-delivery correlation: suspend a command until the platform has
//! confirmed the message it just sent.
//!
//! A [`MessageQueue`] is the shared correlation table. The sending path calls
//! [`MessageQueue::register_sent`] right after dispatching a message. A
//! command that needs the message's durable identity calls
//! [`MessageQueue::wait_for_message`]: if the id is already settled the call
//! completes at once (so a late waiter never hangs); otherwise it registers a
//! fresh one-shot waiter token and reports [`WaitPoll::Pending`]. The event
//! layer that runs the table turns a pending token into a suspension (for
//! instance a one-shot channel), completes every token returned by
//! [`MessageQueue::notify_delivered`] or [`MessageQueue::notify_failed`], and
//! on a timeout calls [`MessageQueue::abandon_wait`] so the abandoned waiter
//! neither leaks nor fires late.
//!
//! The model of a queue is a [`QueueModel`]: for every message id the
//! sequence of pending waiter tokens, the settled outcome if any, the set of
//! registered ids, and the next fresh token. Each operation's contract says
//! exactly which transition of that model it performs.

use vstd::prelude::*;

verus! {

use crate::CommandError;

/// What polling a wait produced: an immediately known outcome, or a fresh
/// waiter token that a later notification (or abandonment) will resolve.
#[derive(Debug, PartialEq, Eq)]
pub enum WaitPoll {
    /// The id is already settled: delivery succeeded or failed.
    Complete(Result<(), CommandError>),
    /// The id is not settled yet; the waiter waits under this token.
    Pending(u64),
}

/// The mathematical state of a [`MessageQueue`].
#[verifier::ext_equal]
pub struct QueueModel {
    /// For each message id, the tokens of the waiters still pending for it,
    /// in registration order.
    pub waiters: Map<i64, Seq<u64>>,
    /// For each message id, `Some(true)` once delivery was confirmed,
    /// `Some(false)` once delivery was reported failed, `None` otherwise.
    pub settled: Map<i64, Option<bool>>,
    /// The ids the sending path has registered.
    pub sent: Set<i64>,
    /// The next waiter token to hand out.
    pub next_token: u64,
}

/// Well-formedness of the model: every pending token is pending exactly
/// once, for exactly one id, and no handed-out token reaches `next_token`.
pub open spec fn model_wf(m: QueueModel) -> bool {
    &&& forall|id: i64, p: int, q: int|
        0 <= p < q < m.waiters[id].len() ==> m.waiters[id][p] != m.waiters[id][q]
    &&& forall|a: i64, b: i64, t: u64|
        a != b && #[trigger] m.waiters[a].contains(t) ==> !(#[trigger] m.waiters[b].contains(t))
    &&& forall|id: i64, t: u64| #[trigger] m.waiters[id].contains(t) ==> t < m.next_token
}

/// The model transition of [`MessageQueue::register_sent`].
pub open spec fn register_step(m: QueueModel, id: i64) -> QueueModel {
    QueueModel { sent: m.sent.insert(id), ..m }
}

/// The model transition of [`MessageQueue::wait_for_message`]: an already
/// settled id completes at once with its recorded outcome; otherwise a fresh
/// token is appended to the id's waiters.
pub open spec fn wait_step(m: QueueModel, id: i64) -> (QueueModel, WaitPoll) {
    match m.settled[id] {
        Some(true) => (m, WaitPoll::Complete(Ok(()))),
        Some(false) => (m, WaitPoll::Complete(Err(CommandError::DeliveryFailed))),
        None => (
            QueueModel {
                waiters: m.waiters.insert(id, m.waiters[id].push(m.next_token)),
                next_token: (m.next_token + 1) as u64,
                ..m
            },
            WaitPoll::Pending(m.next_token),
        ),
    }
}

/// The model transition of [`MessageQueue::notify_delivered`] and
/// [`MessageQueue::notify_failed`]: the id settles with the given outcome,
/// its waiters are all discharged at once, and no other id is touched.
pub open spec fn notify_step(m: QueueModel, id: i64, delivered: bool) -> (QueueModel, Seq<u64>) {
    (
        QueueModel {
            waiters: m.waiters.insert(id, Seq::empty()),
            settled: m.settled.insert(id, Some(delivered)),
            ..m
        },
        m.waiters[id],
    )
}

/// `tokens` with every occurrence of `token` removed.
pub open spec fn remove_token(tokens: Seq<u64>, token: u64) -> Seq<u64>
    decreases tokens.len(),
{
    if tokens.len() == 0 {
        Seq::empty()
    } else {
        let rest = remove_token(tokens.drop_last(), token);
        if tokens.last() == token {
            rest
        } else {
            rest.push(tokens.last())
        }
    }
}

/// The model transition of [`MessageQueue::abandon_wait`]: the abandoned
/// token no longer waits for `id`; everything else is untouched.
pub open spec fn abandon_step(m: QueueModel, id: i64, token: u64) -> QueueModel {
    QueueModel { waiters: m.waiters.insert(id, remove_token(m.waiters[id], token)), ..m }
}

/// One pending waiter: the one-shot token registered for a message id.
struct WaiterEntry {
    message_id: i64,
    token: u64,
}

/// The settled outcome recorded for a message id.
struct SettledEntry {
    message_id: i64,
    delivered: bool,
}

/// The tokens pending for `id` in `entries`, in registration order.
spec fn tokens_for(entries: Seq<WaiterEntry>, id: i64) -> Seq<u64>
    decreases entries.len(),
{
    if entries.len() == 0 {
        Seq::empty()
    } else {
        let rest = tokens_for(entries.drop_last(), id);
        if entries.last().message_id == id {
            rest.push(entries.last().token)
        } else {
            rest
        }
    }
}

/// `entries` with every waiter for `id` dropped.
spec fn entries_except(entries: Seq<WaiterEntry>, id: i64) -> Seq<WaiterEntry>
    decreases entries.len(),
{
    if entries.len() == 0 {
        Seq::empty()
    } else {
        let rest = entries_except(entries.drop_last(), id);
        if entries.last().message_id == id {
            rest
        } else {
            rest.push(entries.last())
        }
    }
}

/// `entries` with the waiter for `id` under `token` dropped.
spec fn entries_without(entries: Seq<WaiterEntry>, id: i64, token: u64) -> Seq<WaiterEntry>
    decreases entries.len(),
{
    if entries.len() == 0 {
        Seq::empty()
    } else {
        let rest = entries_without(entries.drop_last(), id, token);
        if entries.last().message_id == id && entries.last().token == token {
            rest
        } else {
            rest.push(entries.last())
        }
    }
}

/// Whether some entry carries `token`.
spec fn has_token(entries: Seq<WaiterEntry>, token: u64) -> bool {
    exists|p: int| 0 <= p < entries.len() && entries[p].token == token
}

/// Pairwise distinct tokens.
spec fn entries_distinct(entries: Seq<WaiterEntry>) -> bool {
    forall|p: int, q: int| 0 <= p < q < entries.len() ==> entries[p].token != entries[q].token
}

/// All tokens below `bound`.
spec fn entries_bounded(entries: Seq<WaiterEntry>, bound: u64) -> bool {
    forall|p: int| 0 <= p < entries.len() ==> entries[p].token < bound
}

/// The outcome recorded for `id` in `entries`, if any.
spec fn settled_lookup(entries: Seq<SettledEntry>, id: i64) -> Option<bool>
    decreases entries.len(),
{
    if entries.len() == 0 {
        None
    } else if entries.last().message_id == id {
        Some(entries.last().delivered)
    } else {
        settled_lookup(entries.drop_last(), id)
    }
}

proof fn lemma_except_tokens(entries: Seq<WaiterEntry>, id: i64, k: i64)
    ensures
        tokens_for(entries_except(entries, id), k) == if k == id {
            Seq::<u64>::empty()
        } else {
            tokens_for(entries, k)
        },
    decreases entries.len(),
{
    if entries.len() > 0 {
        lemma_except_tokens(entries.drop_last(), id, k);
        if entries.last().message_id != id {
            let rest = entries_except(entries.drop_last(), id);
            assert(rest.push(entries.last()).drop_last() =~= rest);
        }
    }
}

proof fn lemma_without_tokens(entries: Seq<WaiterEntry>, id: i64, token: u64, k: i64)
    ensures
        tokens_for(entries_without(entries, id, token), k) == if k == id {
            remove_token(tokens_for(entries, id), token)
        } else {
            tokens_for(entries, k)
        },
    decreases entries.len(),
{
    if entries.len() > 0 {
        lemma_without_tokens(entries.drop_last(), id, token, k);
        let last = entries.last();
        let rest = entries_without(entries.drop_last(), id, token);
        if last.message_id == id && last.token == token {
            assert(tokens_for(entries.drop_last(), id).push(token).drop_last()
                =~= tokens_for(entries.drop_last(), id));
        } else {
            assert(rest.push(last).drop_last() =~= rest);
            if last.message_id == id {
                assert(tokens_for(entries.drop_last(), id).push(last.token).drop_last()
                    =~= tokens_for(entries.drop_last(), id));
            }
        }
    }
}

proof fn lemma_except_sub(entries: Seq<WaiterEntry>, id: i64, token: u64)
    ensures
        has_token(entries_except(entries, id), token) ==> has_token(entries, token),
    decreases entries.len(),
{
    if entries.len() > 0 {
        lemma_except_sub(entries.drop_last(), id, token);
        let kept = entries_except(entries, id);
        if has_token(kept, token) {
            let p = choose|p: int| 0 <= p < kept.len() && kept[p].token == token;
            if entries.last().message_id != id && p == kept.len() - 1 {
                assert(entries[entries.len() - 1].token == token);
            } else {
                let rest = entries_except(entries.drop_last(), id);
                assert(rest[p].token == token);
                assert(has_token(rest, token));
                let q = choose|q: int| 0 <= q < entries.drop_last().len()
                    && entries.drop_last()[q].token == token;
                assert(entries[q].token == token);
            }
        }
    }
}

proof fn lemma_without_sub(entries: Seq<WaiterEntry>, id: i64, token: u64, probe: u64)
    ensures
        has_token(entries_without(entries, id, token), probe) ==> has_token(entries, probe),
    decreases entries.len(),
{
    if entries.len() > 0 {
        lemma_without_sub(entries.drop_last(), id, token, probe);
        let kept = entries_without(entries, id, token);
        let last = entries.last();
        if has_token(kept, probe) {
            let p = choose|p: int| 0 <= p < kept.len() && kept[p].token == probe;
            if !(last.message_id == id && last.token == token) && p == kept.len() - 1 {
                assert(entries[entries.len() - 1].token == probe);
            } else {
                let rest = entries_without(entries.drop_last(), id, token);
                assert(rest[p].token == probe);
                assert(has_token(rest, probe));
                let q = choose|q: int| 0 <= q < entries.drop_last().len()
                    && entries.drop_last()[q].token == probe;
                assert(entries[q].token == probe);
            }
        }
    }
}

proof fn lemma_except_distinct(entries: Seq<WaiterEntry>, id: i64)
    requires
        entries_distinct(entries),
    ensures
        entries_distinct(entries_except(entries, id)),
    decreases entries.len(),
{
    if entries.len() > 0 {
        assert(entries_distinct(entries.drop_last()));
        lemma_except_distinct(entries.drop_last(), id);
        let last = entries.last();
        if last.message_id != id {
            let rest = entries_except(entries.drop_last(), id);
            lemma_except_sub(entries.drop_last(), id, last.token);
            if has_token(rest, last.token) {
                let q = choose|q: int| 0 <= q < entries.drop_last().len()
                    && entries.drop_last()[q].token == last.token;
                assert(entries[q].token == entries[entries.len() - 1].token);
                assert(false);
            }
            let kept = rest.push(last);
            assert forall|p: int, q: int|
                0 <= p < q < kept.len() implies kept[p].token != kept[q].token by {
                if q == kept.len() - 1 {
                    assert(rest[p].token == kept[p].token);
                    assert(has_token(rest, rest[p].token));
                }
            }
        }
    }
}

proof fn lemma_without_distinct(entries: Seq<WaiterEntry>, id: i64, token: u64)
    requires
        entries_distinct(entries),
    ensures
        entries_distinct(entries_without(entries, id, token)),
    decreases entries.len(),
{
    if entries.len() > 0 {
        assert(entries_distinct(entries.drop_last()));
        lemma_without_distinct(entries.drop_last(), id, token);
        let last = entries.last();
        if !(last.message_id == id && last.token == token) {
            let rest = entries_without(entries.drop_last(), id, token);
            lemma_without_sub(entries.drop_last(), id, token, last.token);
            if has_token(rest, last.token) {
                let q = choose|q: int| 0 <= q < entries.drop_last().len()
                    && entries.drop_last()[q].token == last.token;
                assert(entries[q].token == entries[entries.len() - 1].token);
                assert(false);
            }
            let kept = rest.push(last);
            assert forall|p: int, q: int|
                0 <= p < q < kept.len() implies kept[p].token != kept[q].token by {
                if q == kept.len() - 1 {
                    assert(has_token(rest, rest[p].token));
                }
            }
        }
    }
}

proof fn lemma_tokens_membership(entries: Seq<WaiterEntry>, id: i64, t: u64)
    ensures
        tokens_for(entries, id).contains(t) <==> exists|p: int|
            0 <= p < entries.len() && entries[p].message_id == id && entries[p].token == t,
    decreases entries.len(),
{
    if entries.len() > 0 {
        lemma_tokens_membership(entries.drop_last(), id, t);
        let rest = tokens_for(entries.drop_last(), id);
        let last = entries.last();
        if last.message_id == id {
            vstd::seq_lib::lemma_seq_contains_after_push(rest, last.token, t);
        }
        if tokens_for(entries, id).contains(t) {
            if rest.contains(t) {
                let p = choose|p: int| 0 <= p < entries.drop_last().len()
                    && entries.drop_last()[p].message_id == id
                    && entries.drop_last()[p].token == t;
                assert(entries[p].message_id == id && entries[p].token == t);
            } else {
                assert(entries[entries.len() - 1].message_id == id
                    && entries[entries.len() - 1].token == t);
            }
        }
        if exists|p: int| 0 <= p < entries.len() && entries[p].message_id == id
            && entries[p].token == t {
            let p = choose|p: int| 0 <= p < entries.len() && entries[p].message_id == id
                && entries[p].token == t;
            if p < entries.len() - 1 {
                assert(entries.drop_last()[p].message_id == id
                    && entries.drop_last()[p].token == t);
                assert(rest.contains(t));
                if last.message_id == id {
                } else {
                }
            }
        }
    }
}

proof fn lemma_tokens_distinct(entries: Seq<WaiterEntry>, id: i64)
    requires
        entries_distinct(entries),
    ensures
        forall|p: int, q: int|
            0 <= p < q < tokens_for(entries, id).len()
                ==> tokens_for(entries, id)[p] != tokens_for(entries, id)[q],
    decreases entries.len(),
{
    if entries.len() > 0 {
        assert(entries_distinct(entries.drop_last()));
        lemma_tokens_distinct(entries.drop_last(), id);
        let rest = tokens_for(entries.drop_last(), id);
        let last = entries.last();
        if last.message_id == id {
            lemma_tokens_membership(entries.drop_last(), id, last.token);
            if rest.contains(last.token) {
                let q = choose|q: int| 0 <= q < entries.drop_last().len()
                    && entries.drop_last()[q].message_id == id
                    && entries.drop_last()[q].token == last.token;
                assert(entries[q].token == entries[entries.len() - 1].token);
                assert(false);
            }
            let whole = rest.push(last.token);
            assert forall|p: int, q: int|
                0 <= p < q < whole.len() implies whole[p] != whole[q] by {
                if q == whole.len() - 1 {
                    assert(rest[p] == whole[p]);
                    assert(rest.contains(rest[p]));
                }
            }
        }
    }
}

/// The shared message-delivery correlation table.
pub struct MessageQueue {
    waiters: Vec<WaiterEntry>,
    settled: Vec<SettledEntry>,
    sent: Vec<i64>,
    next_token: u64,
}

impl View for MessageQueue {
    type V = QueueModel;

    closed spec fn view(&self) -> QueueModel {
        QueueModel {
            waiters: Map::new(|id: i64| true, |id: i64| tokens_for(self.waiters@, id)),
            settled: Map::new(|id: i64| true, |id: i64| settled_lookup(self.settled@, id)),
            sent: self.sent@.to_set(),
            next_token: self.next_token,
        }
    }
}

impl MessageQueue {
    /// Well-formedness: waiter tokens are pairwise distinct and below
    /// `next_token`, and at most one settled outcome is recorded per id.
    pub closed spec fn wf(&self) -> bool {
        &&& entries_distinct(self.waiters@)
        &&& entries_bounded(self.waiters@, self.next_token)
        &&& forall|p: int, q: int|
            0 <= p < q < self.settled@.len()
                ==> self.settled@[p].message_id != self.settled@[q].message_id
    }

    /// A well-formed queue is well-formed as a model too.
    pub proof fn lemma_model_wf(&self)
        requires
            self.wf(),
        ensures
            model_wf(self@),
    {
        let m = self@;
        assert forall|id: i64, p: int, q: int|
            0 <= p < q < m.waiters[id].len() implies m.waiters[id][p] != m.waiters[id][q] by {
            lemma_tokens_distinct(self.waiters@, id);
        }
        assert forall|a: i64, b: i64, t: u64|
            a != b && #[trigger] m.waiters[a].contains(t)
                implies !(#[trigger] m.waiters[b].contains(t)) by {
            lemma_tokens_membership(self.waiters@, a, t);
            lemma_tokens_membership(self.waiters@, b, t);
            if m.waiters[b].contains(t) {
                let p = choose|p: int| 0 <= p < self.waiters@.len()
                    && self.waiters@[p].message_id == a && self.waiters@[p].token == t;
                let q = choose|q: int| 0 <= q < self.waiters@.len()
                    && self.waiters@[q].message_id == b && self.waiters@[q].token == t;
                assert(p != q);
                if p < q {
                    assert(self.waiters@[p].token != self.waiters@[q].token);
                } else {
                    assert(self.waiters@[q].token != self.waiters@[p].token);
                }
            }
        }
        assert forall|id: i64, t: u64| #[trigger] m.waiters[id].contains(t)
            implies t < m.next_token by {
            lemma_tokens_membership(self.waiters@, id, t);
            let p = choose|p: int| 0 <= p < self.waiters@.len()
                && self.waiters@[p].message_id == id && self.waiters@[p].token == t;
            assert(self.waiters@[p].token < self.next_token);
        }
    }

    /// An empty correlation table: nothing pending, nothing settled,
    /// nothing registered.
    pub fn new() -> (queue: MessageQueue)
        ensures
            queue.wf(),
            forall|id: i64| queue@.waiters[id] == Seq::<u64>::empty(),
            forall|id: i64| queue@.settled[id] is None,
            queue@.sent == Set::<i64>::empty(),
            queue@.next_token == 0,
    {
        let queue = MessageQueue {
            waiters: Vec::new(),
            settled: Vec::new(),
            sent: Vec::new(),
            next_token: 0,
        };
        proof {
            assert(queue.sent@.to_set() =~= Set::<i64>::empty());
        }
        queue
    }

    /// Records that a message with this id was dispatched, so that it may
    /// later be awaited. Nothing else changes.
    pub fn register_sent(&mut self, message_id: i64)
        requires
            old(self).wf(),
        ensures
            final(self).wf(),
            final(self)@ == register_step(old(self)@, message_id),
    {
        let ghost m0 = self@;
        let mut i: usize = 0;
        let mut present: bool = false;
        while !present && i < self.sent.len()
            invariant
                *self == *old(self),
                i <= self.sent@.len(),
                present ==> self.sent@.to_set().contains(message_id),
                !present ==> forall|j: int| 0 <= j < i ==> self.sent@[j] != message_id,
            decreases self.sent@.len() - i + (if present { 0int } else { 1int }),
        {
            if self.sent[i] == message_id {
                present = true;
                proof {
                    assert(self.sent@.contains(message_id));
                }
            } else {
                i += 1;
            }
        }
        if present {
            proof {
                assert(m0.sent.contains(message_id));
                assert(m0.sent.insert(message_id) =~= m0.sent);
                assert(self@ =~= register_step(m0, message_id));
            }
        } else {
            let ghost sent0 = self.sent@;
            self.sent.push(message_id);
            proof {
                sent0.lemma_push_to_set_commute(message_id);
                assert(self@ =~= register_step(m0, message_id));
            }
        }
    }

    /// The next waiter token that would be handed out.
    pub fn next_token(&self) -> (token: u64)
        ensures
            token == self@.next_token,
    {
        self.next_token
    }

    /// Whether the sending path has registered this id.
    pub fn is_registered(&self, message_id: i64) -> (registered: bool)
        ensures
            registered == self@.sent.contains(message_id),
    {
        let mut i: usize = 0;
        let total = self.sent.len();
        let mut present: bool = false;
        while !present && i < total
            invariant
                total == self.sent@.len(),
                i <= total,
                present ==> self.sent@.to_set().contains(message_id),
                !present ==> forall|j: int| 0 <= j < i ==> self.sent@[j] != message_id,
            decreases total - i + (if present { 0int } else { 1int }),
        {
            if self.sent[i] == message_id {
                present = true;
                proof {
                    assert(self.sent@.contains(message_id));
                }
            } else {
                i += 1;
            }
        }
        present
    }

    /// Polls a wait for `message_id`. An id that is already settled
    /// completes immediately with the recorded outcome, successful or
    /// failed, so a waiter that arrives after the notification never hangs;
    /// otherwise a fresh token is registered for the id and returned as
    /// pending.
    pub fn wait_for_message(&mut self, message_id: i64) -> (poll: WaitPoll)
        requires
            old(self).wf(),
            old(self)@.next_token < u64::MAX,
        ensures
            final(self).wf(),
            final(self)@ == wait_step(old(self)@, message_id).0,
            poll == wait_step(old(self)@, message_id).1,
    {
        let ghost m0 = self@;
        let settled = self.settled_outcome(message_id);
        match settled {
            Some(true) => WaitPoll::Complete(Ok(())),
            Some(false) => WaitPoll::Complete(Err(CommandError::DeliveryFailed)),
            None => {
                let token = self.next_token;
                let ghost entries0 = self.waiters@;
                self.waiters.push(WaiterEntry { message_id, token });
                self.next_token = self.next_token + 1;
                proof {
                    assert(self.waiters@.drop_last() =~= entries0);
                    assert forall|p: int| 0 <= p < self.waiters@.len()
                        implies self.waiters@[p].token < self.next_token by {}
                    assert forall|p: int, q: int| 0 <= p < q < self.waiters@.len()
                        implies self.waiters@[p].token != self.waiters@[q].token by {
                        if q == self.waiters@.len() - 1 {
                            assert(entries0[p].token < m0.next_token);
                        }
                    }
                    assert forall|k: i64| #[trigger] self@.waiters[k]
                        == wait_step(m0, message_id).0.waiters[k] by {
                        assert(tokens_for(self.waiters@, k) == if k == message_id {
                            tokens_for(entries0, k).push(token)
                        } else {
                            tokens_for(entries0, k)
                        });
                    }
                    assert(self@.waiters =~= wait_step(m0, message_id).0.waiters);
                    assert(self@ =~= wait_step(m0, message_id).0);
                }
                WaitPoll::Pending(token)
            },
        }
    }

    /// The platform confirmed delivery of `message_id`: the id settles as
    /// delivered and the returned tokens are exactly the waiters that were
    /// pending for it, each to be completed successfully, exactly once.
    pub fn notify_delivered(&mut self, message_id: i64) -> (woken: Vec<u64>)
        requires
            old(self).wf(),
        ensures
            final(self).wf(),
            final(self)@ == notify_step(old(self)@, message_id, true).0,
            woken@ == notify_step(old(self)@, message_id, true).1,
    {
        self.settle(message_id, true)
    }

    /// The platform reported that `message_id` could not be delivered: the
    /// id settles as failed, and the returned tokens are exactly the waiters
    /// that were pending for it, each to receive the failure exactly once.
    pub fn notify_failed(&mut self, message_id: i64) -> (woken: Vec<u64>)
        requires
            old(self).wf(),
        ensures
            final(self).wf(),
            final(self)@ == notify_step(old(self)@, message_id, false).0,
            woken@ == notify_step(old(self)@, message_id, false).1,
    {
        self.settle(message_id, false)
    }

    /// A waiter timed out or was cancelled: its token stops waiting for
    /// `message_id` and will never be returned by a later notification.
    /// Nothing else is touched.
    pub fn abandon_wait(&mut self, message_id: i64, token: u64)
        requires
            old(self).wf(),
        ensures
            final(self).wf(),
            final(self)@ == abandon_step(old(self)@, message_id, token),
    {
        let ghost m0 = self@;
        let ghost entries0 = self.waiters@;
        let mut remaining: Vec<WaiterEntry> = Vec::new();
        let total = self.waiters.len();
        let mut i: usize = 0;
        while i < total
            invariant
                *self == *old(self),
                total == entries0.len(),
                entries0 == self.waiters@,
                i <= total,
                remaining@ == entries_without(entries0.take(i as int), message_id, token),
            decreases total - i,
        {
            let entry_id = self.waiters[i].message_id;
            let entry_token = self.waiters[i].token;
            proof {
                assert(entries0.take(i + 1).drop_last() =~= entries0.take(i as int));
                assert(entries0.take(i + 1).last() == entries0[i as int]);
            }
            if !(entry_id == message_id && entry_token == token) {
                remaining.push(WaiterEntry { message_id: entry_id, token: entry_token });
            }
            i += 1;
        }
        proof {
            assert(entries0.take(total as int) =~= entries0);
        }
        self.waiters = remaining;
        proof {
            lemma_without_distinct(entries0, message_id, token);
            assert forall|p: int| 0 <= p < self.waiters@.len()
                implies self.waiters@[p].token < self.next_token by {
                assert(has_token(self.waiters@, self.waiters@[p].token));
                lemma_without_sub(entries0, message_id, token, self.waiters@[p].token);
                let q = choose|q: int| 0 <= q < entries0.len()
                    && entries0[q].token == self.waiters@[p].token;
                assert(entries0[q].token < self.next_token);
            }
            assert forall|k: i64| #[trigger] self@.waiters[k]
                == abandon_step(m0, message_id, token).waiters[k] by {
                lemma_without_tokens(entries0, message_id, token, k);
            }
            assert(self@.waiters =~= abandon_step(m0, message_id, token).waiters);
            assert(self@ =~= abandon_step(m0, message_id, token));
        }
    }

    /// The settled outcome recorded for `message_id`, if any.
    fn settled_outcome(&self, message_id: i64) -> (outcome: Option<bool>)
        requires
            self.wf(),
        ensures
            outcome == self@.settled[message_id],
    {
        let mut i: usize = 0;
        let total = self.settled.len();
        let mut hit: Option<bool> = None;
        while hit.is_none() && i < total
            invariant
                total == self.settled@.len(),
                i <= total,
                hit is None ==> forall|j: int|
                    0 <= j < i ==> self.settled@[j].message_id != message_id,
                hit is Some ==> i < total && self.settled@[i as int].message_id == message_id
                    && hit == Some(self.settled@[i as int].delivered),
            decreases total - i + (if hit is Some { 0int } else { 1int }),
        {
            if self.settled[i].message_id == message_id {
                hit = Some(self.settled[i].delivered);
            } else {
                i += 1;
            }
        }
        proof {
            match hit {
                Some(_) => {
                    lemma_settled_found(self.settled@, message_id, i as int);
                },
                None => {
                    lemma_settled_absent(self.settled@, message_id);
                },
            }
        }
        hit
    }

    /// Discharges every waiter for `message_id` and records the outcome.
    fn settle(&mut self, message_id: i64, delivered: bool) -> (woken: Vec<u64>)
        requires
            old(self).wf(),
        ensures
            final(self).wf(),
            final(self)@ == notify_step(old(self)@, message_id, delivered).0,
            woken@ == notify_step(old(self)@, message_id, delivered).1,
    {
        let ghost m0 = self@;
        let ghost entries0 = self.waiters@;
        let ghost settled0 = self.settled@;

        // Discharge the waiters for the id, keep everyone else.
        let mut woken: Vec<u64> = Vec::new();
        let mut remaining: Vec<WaiterEntry> = Vec::new();
        let total = self.waiters.len();
        let mut i: usize = 0;
        while i < total
            invariant
                *self == *old(self),
                total == entries0.len(),
                entries0 == self.waiters@,
                i <= total,
                woken@ == tokens_for(entries0.take(i as int), message_id),
                remaining@ == entries_except(entries0.take(i as int), message_id),
            decreases total - i,
        {
            let entry_id = self.waiters[i].message_id;
            let entry_token = self.waiters[i].token;
            proof {
                assert(entries0.take(i + 1).drop_last() =~= entries0.take(i as int));
                assert(entries0.take(i + 1).last() == entries0[i as int]);
            }
            if entry_id == message_id {
                woken.push(entry_token);
            } else {
                remaining.push(WaiterEntry { message_id: entry_id, token: entry_token });
            }
            i += 1;
        }
        proof {
            assert(entries0.take(total as int) =~= entries0);
        }
        self.waiters = remaining;

        // Record the settled outcome, replacing an earlier one if present.
        let mut s: usize = 0;
        let stotal = self.settled.len();
        let mut recorded: bool = false;
        while !recorded && s < stotal
            invariant
                stotal == self.settled@.len(),
                self.waiters@ == entries_except(entries0, message_id),
                self.next_token == m0.next_token,
                self.sent@.to_set() == m0.sent,
                forall|p: int, q: int|
                    0 <= p < q < self.settled@.len()
                        ==> self.settled@[p].message_id != self.settled@[q].message_id,
                forall|j: int| 0 <= j < self.settled@.len()
                    ==> self.settled@[j].message_id == settled0[j].message_id,
                s <= stotal,
                !recorded ==> self.settled@ == settled0,
                !recorded ==> forall|j: int|
                    0 <= j < s ==> self.settled@[j].message_id != message_id,
                recorded ==> forall|k: i64| settled_lookup(self.settled@, k) == if k
                    == message_id {
                    Some(delivered)
                } else {
                    settled_lookup(settled0, k)
                },
            decreases stotal - s + (if recorded { 0int } else { 1int }),
        {
            if self.settled[s].message_id == message_id {
                let ghost before = self.settled@;
                self.settled[s] = SettledEntry { message_id, delivered };
                recorded = true;
                proof {
                    assert forall|k: i64| settled_lookup(self.settled@, k) == if k
                        == message_id {
                        Some(delivered)
                    } else {
                        settled_lookup(settled0, k)
                    } by {
                        lemma_settled_update(before, s as int, self.settled@[s as int], k);
                    }
                }
            } else {
                s += 1;
            }
        }
        if !recorded {
            let ghost before = self.settled@;
            self.settled.push(SettledEntry { message_id, delivered });
            proof {
                assert(self.settled@.drop_last() =~= before);
                assert forall|k: i64| settled_lookup(self.settled@, k) == if k == message_id {
                    Some(delivered)
                } else {
                    settled_lookup(settled0, k)
                } by {}
            }
        }

        proof {
            lemma_except_distinct(entries0, message_id);
            assert forall|p: int| 0 <= p < self.waiters@.len()
                implies self.waiters@[p].token < self.next_token by {
                assert(has_token(self.waiters@, self.waiters@[p].token));
                lemma_except_sub(entries0, message_id, self.waiters@[p].token);
                let q = choose|q: int| 0 <= q < entries0.len()
                    && entries0[q].token == self.waiters@[p].token;
                assert(entries0[q].token < self.next_token);
            }
            assert forall|k: i64| #[trigger] self@.waiters[k]
                == notify_step(m0, message_id, delivered).0.waiters[k] by {
                lemma_except_tokens(entries0, message_id, k);
            }
            assert(self@.waiters =~= notify_step(m0, message_id, delivered).0.waiters);
            assert(self@.settled =~= notify_step(m0, message_id, delivered).0.settled);
            assert(self@ =~= notify_step(m0, message_id, delivered).0);
        }
        woken
    }
}

proof fn lemma_remove_token_gone(tokens: Seq<u64>, token: u64)
    ensures
        !remove_token(tokens, token).contains(token),
    decreases tokens.len(),
{
    if tokens.len() > 0 {
        lemma_remove_token_gone(tokens.drop_last(), token);
        if tokens.last() != token {
            vstd::seq_lib::lemma_seq_contains_after_push(
                remove_token(tokens.drop_last(), token),
                tokens.last(),
                token,
            );
        }
    }
}

/// Law: no missed wakeup. A waiter registered for an unsettled id before
/// the delivery notification is among the tokens that notification wakes;
/// and a wait issued after the notification completes immediately with the
/// same successful outcome, touching nothing.
pub proof fn lemma_no_missed_wakeup(m: QueueModel, id: i64)
    requires
        m.settled[id] is None,
    ensures
        wait_step(m, id).1 == WaitPoll::Pending(m.next_token),
        notify_step(wait_step(m, id).0, id, true).1.contains(m.next_token),
        wait_step(notify_step(wait_step(m, id).0, id, true).0, id).0
            == notify_step(wait_step(m, id).0, id, true).0,
        wait_step(notify_step(wait_step(m, id).0, id, true).0, id).1
            == WaitPoll::Complete(Ok::<(), CommandError>(())),
{
    vstd::seq_lib::lemma_seq_contains_after_push(m.waiters[id], m.next_token, m.next_token);
}

/// Law: two waiters registered for the same unsettled id get distinct
/// tokens, and one delivery notification wakes them both at once, leaving
/// no waiter pending for the id.
pub proof fn lemma_concurrent_waiters_both_woken(m: QueueModel, id: i64)
    requires
        m.settled[id] is None,
        m.next_token < u64::MAX,
    ensures
        wait_step(m, id).1 == WaitPoll::Pending(m.next_token),
        wait_step(wait_step(m, id).0, id).1 == WaitPoll::Pending((m.next_token + 1) as u64),
        m.next_token != (m.next_token + 1) as u64,
        notify_step(wait_step(wait_step(m, id).0, id).0, id, true).1.contains(m.next_token),
        notify_step(wait_step(wait_step(m, id).0, id).0, id, true).1.contains(
            (m.next_token + 1) as u64,
        ),
        notify_step(wait_step(wait_step(m, id).0, id).0, id, true).0.waiters[id]
            == Seq::<u64>::empty(),
{
    let first = m.waiters[id].push(m.next_token);
    let both = first.push((m.next_token + 1) as u64);
    vstd::seq_lib::lemma_seq_contains_after_push(first, (m.next_token + 1) as u64, m.next_token);
    vstd::seq_lib::lemma_seq_contains_after_push(m.waiters[id], m.next_token, m.next_token);
    vstd::seq_lib::lemma_seq_contains_after_push(
        first,
        (m.next_token + 1) as u64,
        (m.next_token + 1) as u64,
    );
}

/// Law: waiters are fulfilled exactly once: a notification empties the
/// id's waiter list, so repeating a notification for the same id wakes no
/// one, whatever outcomes the two notifications carry.
pub proof fn lemma_fulfilled_exactly_once(m: QueueModel, id: i64, first: bool, second: bool)
    ensures
        notify_step(notify_step(m, id, first).0, id, second).1 == Seq::<u64>::empty(),
{
}

/// Law: an abandoned (for instance timed-out) waiter is gone for good: its
/// token is no longer pending for its id, was never pending for any other
/// id, and a later notification for an unrelated id cannot return it.
pub proof fn lemma_abandoned_waiter_gone(m: QueueModel, id: i64, token: u64, other: i64)
    requires
        model_wf(m),
        m.waiters[id].contains(token),
        other != id,
    ensures
        !abandon_step(m, id, token).waiters[id].contains(token),
        abandon_step(m, id, token).waiters[other] == m.waiters[other],
        !abandon_step(m, id, token).waiters[other].contains(token),
        !notify_step(abandon_step(m, id, token), other, true).1.contains(token),
{
    lemma_remove_token_gone(m.waiters[id], token);
}

proof fn lemma_settled_absent(entries: Seq<SettledEntry>, id: i64)
    requires
        forall|j: int| 0 <= j < entries.len() ==> entries[j].message_id != id,
    ensures
        settled_lookup(entries, id) is None,
    decreases entries.len(),
{
    if entries.len() > 0 {
        lemma_settled_absent(entries.drop_last(), id);
    }
}

proof fn lemma_settled_found(entries: Seq<SettledEntry>, id: i64, i: int)
    requires
        0 <= i < entries.len(),
        entries[i].message_id == id,
        forall|p: int, q: int|
            0 <= p < q < entries.len() ==> entries[p].message_id != entries[q].message_id,
    ensures
        settled_lookup(entries, id) == Some(entries[i].delivered),
    decreases entries.len(),
{
    if i < entries.len() - 1 {
        assert(entries[i].message_id != entries[entries.len() - 1].message_id);
        lemma_settled_found(entries.drop_last(), id, i);
    }
}

proof fn lemma_settled_update(entries: Seq<SettledEntry>, i: int, entry: SettledEntry, k: i64)
    requires
        0 <= i < entries.len(),
        entries[i].message_id == entry.message_id,
        forall|p: int, q: int|
            0 <= p < q < entries.len() ==> entries[p].message_id != entries[q].message_id,
    ensures
        settled_lookup(entries.update(i, entry), k) == if k == entry.message_id {
            Some(entry.delivered)
        } else {
            settled_lookup(entries, k)
        },
    decreases entries.len(),
{
    let updated = entries.update(i, entry);
    if i == entries.len() - 1 {
        assert(updated.drop_last() =~= entries.drop_last());
    } else {
        assert(updated.drop_last() =~= entries.drop_last().update(i, entry));
        assert(updated.last() == entries.last());
        assert(entries[i].message_id != entries[entries.len() - 1].message_id);
        lemma_settled_update(entries.drop_last(), i, entry, k);
    }
}

} // verus!
