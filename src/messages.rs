//! Per-sender message sequencing: which offered messages to submit, in which
//! order, and when a submission counts as lost and may be retried.
use std::collections::HashMap;
use crate::text::{contains_text, text_contains};
use vstd::prelude::*;

verus! {

broadcast use vstd::std_specs::hash::group_hash_axioms;

/// Blocks after a submission during which it still counts as in flight.
pub const TX_TIMEOUT_IN_BLOCKS: u32 = 6;

#[derive(Clone, Copy, PartialEq, Eq, Structural, Debug)]
pub enum MessageState {
    Pending,
    Successful,
    Failure,
    Timeout,
}

/// The bookkeeping of one submitted sequence of one sender.
#[derive(Clone, Copy, PartialEq, Eq, Structural, Debug)]
pub struct MessageContext {
    pub sequence: u64,
    pub state: MessageState,
    /// Block height at the last submission.
    pub submitted_at: u32,
    /// How many times the message was submitted again after a loss.
    pub prev_try_count: usize,
}

/// Still in flight at height `h`: pending or timed out, and submitted no more
/// than `TX_TIMEOUT_IN_BLOCKS` blocks ago (or not yet reached by the chain).
pub open spec fn pending_at(c: MessageContext, h: u32) -> bool {
    match c.state {
        MessageState::Pending | MessageState::Timeout => h <= c.submitted_at || h - c.submitted_at
            <= TX_TIMEOUT_IN_BLOCKS,
        _ => false,
    }
}

pub open spec fn pending_or_success_at(c: MessageContext, h: u32) -> bool {
    pending_at(c, h) || c.state == MessageState::Successful
}

impl MessageContext {
    pub fn is_pending(&self, current_height: u32) -> (r: bool)
        ensures
            r == pending_at(*self, current_height),
    {
        match self.state {
            MessageState::Pending | MessageState::Timeout => {
                current_height <= self.submitted_at || current_height - self.submitted_at
                    <= TX_TIMEOUT_IN_BLOCKS
            },
            _ => false,
        }
    }

    pub fn is_pending_or_success(&self, current_height: u32) -> (r: bool)
        ensures
            r == pending_or_success_at(*self, current_height),
    {
        self.is_pending(current_height) || self.state == MessageState::Successful
    }

    pub fn is_timeout_or_failure(&self, current_height: u32) -> (r: bool)
        ensures
            r == !pending_or_success_at(*self, current_height),
    {
        !self.is_pending_or_success(current_height)
    }
}

/// A message offered for submission: its sequence number and the encoded
/// signed payload, which this library does not read.
pub struct SignedMessage {
    pub sequence: u64,
    pub payload: Vec<u8>,
}

/// Whether sequence `s` is known and in flight or done at height `h`.
pub open spec fn occupied(m: Map<u64, MessageContext>, s: u64, h: u32) -> bool {
    m.contains_key(s) && pending_or_success_at(m[s], h)
}

/// The first sequence from `s` on that is not in flight or done at height `h`
/// (`u64::MAX` if every one up to it is).
pub open spec fn next_free(m: Map<u64, MessageContext>, s: u64, h: u32) -> u64
    decreases u64::MAX - s,
{
    if s < u64::MAX && occupied(m, s, h) {
        next_free(m, (s + 1) as u64, h)
    } else {
        s
    }
}

/// One more retry, counted without overflow.
pub open spec fn one_more(n: usize) -> usize {
    if n < usize::MAX { (n + 1) as usize } else { n }
}

/// The submission of one offered sequence at height `h`: the new bookkeeping
/// where it is submitted, `None` where it is skipped. Only the expected
/// sequence is submitted: new, or again after a loss with one retry more.
pub open spec fn submit_step(m: Map<u64, MessageContext>, node_next: u64, seq: u64, h: u32) -> Option<
    Map<u64, MessageContext>,
> {
    if seq != next_free(m, node_next, h) {
        None
    } else if m.contains_key(seq) {
        if pending_or_success_at(m[seq], h) {
            None
        } else {
            Some(
                m.insert(
                    seq,
                    MessageContext {
                        sequence: m[seq].sequence,
                        state: MessageState::Pending,
                        submitted_at: h,
                        prev_try_count: one_more(m[seq].prev_try_count),
                    },
                ),
            )
        }
    } else {
        Some(
            m.insert(
                seq,
                MessageContext {
                    sequence: seq,
                    state: MessageState::Pending,
                    submitted_at: h,
                    prev_try_count: 0,
                },
            ),
        )
    }
}

/// A batch offered in order: the bookkeeping after it, and the positions in
/// the batch of the messages that were submitted.
pub open spec fn submit_batch(m: Map<u64, MessageContext>, node_next: u64, seqs: Seq<u64>, h: u32) -> (
    Map<u64, MessageContext>,
    Seq<int>,
)
    decreases seqs.len(),
{
    if seqs.len() == 0 {
        (m, Seq::empty())
    } else {
        let prev = submit_batch(m, node_next, seqs.drop_last(), h);
        match submit_step(prev.0, node_next, seqs.last(), h) {
            Some(m2) => (m2, prev.1.push(seqs.len() - 1)),
            None => prev,
        }
    }
}

pub open spec fn sequences_of(msgs: Seq<SignedMessage>) -> Seq<u64> {
    Seq::new(msgs.len(), |i: int| msgs[i].sequence)
}

pub open spec fn picked(msgs: Seq<SignedMessage>, idx: Seq<int>) -> Seq<SignedMessage> {
    Seq::new(idx.len(), |i: int| msgs[idx[i]])
}

/// What the sequencer knows of one sender.
pub struct SenderContext {
    pub sender: Vec<u8>,
    /// The next sequence that the node expects, as last reported.
    pub node_next_sequence: u64,
    pub pending_messages: HashMap<u64, MessageContext>,
}

impl SenderContext {
    /// The next sequence to submit at height `h`.
    pub open spec fn expected(&self, h: u32) -> u64 {
        next_free(self.pending_messages@, self.node_next_sequence, h)
    }

    fn occupied_at(&self, s: u64, current_height: u32) -> (r: bool)
        ensures
            r == occupied(self.pending_messages@, s, current_height),
    {
        match self.pending_messages.get(&s) {
            Some(c) => c.is_pending_or_success(current_height),
            None => false,
        }
    }

    /// Starting at the node's next sequence, skips every sequence that is in
    /// flight or done; the first other one is the next to submit.
    pub fn calculate_next_sequence(&self, current_height: u32) -> (r: u64)
        ensures
            r == self.expected(current_height),
    {
        let mut next_sequence = self.node_next_sequence;
        while next_sequence < u64::MAX && self.occupied_at(next_sequence, current_height)
            invariant
                next_free(self.pending_messages@, next_sequence, current_height) == self.expected(
                    current_height,
                ),
            decreases u64::MAX - next_sequence,
        {
            next_sequence += 1;
        }
        next_sequence
    }
    /// Submits, in order, each message of the batch that is the expected
    /// next one when its turn comes, and returns those messages.
    pub fn submit_messages(&mut self, messages: Vec<SignedMessage>, current_height: u32) -> (r: Vec<
        SignedMessage,
    >)
        ensures
            final(self).sender == old(self).sender,
            final(self).node_next_sequence == old(self).node_next_sequence,
            final(self).pending_messages@ == submit_batch(
                old(self).pending_messages@,
                old(self).node_next_sequence,
                sequences_of(messages@),
                current_height,
            ).0,
            r@ == picked(
                messages@,
                submit_batch(
                    old(self).pending_messages@,
                    old(self).node_next_sequence,
                    sequences_of(messages@),
                    current_height,
                ).1,
            ),
    {
        let ghost orig = messages@;
        let ghost m0 = self.pending_messages@;
        let n: usize = messages.len();
        let mut messages = messages;
        let mut r: Vec<SignedMessage> = Vec::new();
        let mut i: usize = 0;
        while messages.len() > 0
            invariant
                i + messages@.len() == orig.len(),
                orig.len() == n,
                messages@ == orig.subrange(i as int, orig.len() as int),
                self.sender == old(self).sender,
                self.node_next_sequence == old(self).node_next_sequence,
                ({
                    let b = submit_batch(m0, self.node_next_sequence, sequences_of(orig).take(i as int), current_height);
                    &&& self.pending_messages@ == b.0
                    &&& r@ == picked(orig, b.1)
                    &&& forall|k: int| 0 <= k < b.1.len() ==> 0 <= #[trigger] b.1[k] < i
                }),
            decreases messages@.len(),
        {
            let message = messages.remove(0);
            let ghost seqs = sequences_of(orig).take(i + 1);
            assert(seqs.drop_last() =~= sequences_of(orig).take(i as int));
            assert(seqs.last() == message.sequence);
            let ghost prev = submit_batch(m0, self.node_next_sequence, seqs.drop_last(), current_height);
            let next_sequence = self.calculate_next_sequence(current_height);
            if message.sequence == next_sequence {
                let seq = message.sequence;
                let submit = match self.pending_messages.get(&seq) {
                    Some(c) => {
                        if c.is_pending_or_success(current_height) {
                            None
                        } else {
                            Some(
                                MessageContext {
                                    sequence: c.sequence,
                                    state: MessageState::Pending,
                                    submitted_at: current_height,
                                    prev_try_count: c.prev_try_count.saturating_add(1),
                                },
                            )
                        }
                    },
                    None => Some(
                        MessageContext {
                            sequence: seq,
                            state: MessageState::Pending,
                            submitted_at: current_height,
                            prev_try_count: 0,
                        },
                    ),
                };
                match submit {
                    Some(c) => {
                        self.pending_messages.insert(seq, c);
                        proof {
                            assert(picked(orig, prev.1.push(i as int)) =~= picked(orig, prev.1).push(message));
                        }
                        r.push(message);
                    },
                    None => {},
                }
            }
            i += 1;
        }
        assert(sequences_of(orig).take(i as int) =~= sequences_of(orig));
        r
    }
}

proof fn lemma_next_free_agree(m1: Map<u64, MessageContext>, m2: Map<u64, MessageContext>, a: u64, h: u32)
    requires
        forall|k: u64| k >= a ==> #[trigger] m1.contains_key(k) == m2.contains_key(k),
        forall|k: u64| k >= a && m1.contains_key(k) ==> #[trigger] m1[k] == m2[k],
    ensures
        next_free(m1, a, h) == next_free(m2, a, h),
    decreases u64::MAX - a,
{
    assert(m1.contains_key(a) == m2.contains_key(a));
    if a < u64::MAX {
        lemma_next_free_agree(m1, m2, (a + 1) as u64, h);
    }
}

proof fn lemma_next_free_stops(m: Map<u64, MessageContext>, a: u64, h: u32)
    ensures
        next_free(m, a, h) >= a,
        next_free(m, a, h) == u64::MAX || !occupied(m, next_free(m, a, h), h),
    decreases u64::MAX - a,
{
    if a < u64::MAX && occupied(m, a, h) {
        lemma_next_free_stops(m, (a + 1) as u64, h);
    }
}

proof fn lemma_next_free_past(m: Map<u64, MessageContext>, a: u64, c: MessageContext, h: u32)
    requires
        next_free(m, a, h) < u64::MAX,
        pending_or_success_at(c, h),
    ensures
        next_free(m.insert(next_free(m, a, h), c), a, h) == next_free(m, (next_free(m, a, h) + 1) as u64, h),
    decreases u64::MAX - a,
{
    let e = next_free(m, a, h);
    let m2 = m.insert(e, c);
    if a == e {
        assert(occupied(m2, e, h));
        lemma_next_free_agree(m2, m, (e + 1) as u64, h);
    } else {
        assert(a < u64::MAX && occupied(m, a, h));
        assert(m2[a] == m[a]);
        lemma_next_free_past(m, (a + 1) as u64, c, h);
    }
}

proof fn lemma_submit_fresh(m: Map<u64, MessageContext>, nn: u64, s: u64, h: u32)
    requires
        next_free(m, nn, h) == s,
        s < u64::MAX,
        !occupied(m, (s + 1) as u64, h),
    ensures
        submit_step(m, nn, s, h) is Some,
        next_free(submit_step(m, nn, s, h).unwrap(), nn, h) == s + 1,
        forall|k: u64| k != s ==> #[trigger] submit_step(m, nn, s, h).unwrap().contains_key(k) == m.contains_key(k),
        forall|k: u64| k != s && m.contains_key(k) ==> #[trigger] submit_step(m, nn, s, h).unwrap()[k] == m[k],
{
    lemma_next_free_stops(m, nn, h);
    let m2 = submit_step(m, nn, s, h).unwrap();
    assert(pending_or_success_at(m2[s], h));
    assert(m2 =~= m.insert(s, m2[s]));
    lemma_next_free_past(m, nn, m2[s], h);
}

/// Submitting the expected sequence `s` and then `s + 1` and `s + 2`, where
/// none of these nor `s + 3` was in flight or done, submits all three, and the
/// expected next sequence becomes `s + 3`: one past the highest in flight.
pub proof fn lemma_consecutive_batch_advances(m: Map<u64, MessageContext>, nn: u64, s: u64, h: u32)
    requires
        next_free(m, nn, h) == s,
        s + 3 <= u64::MAX,
        !occupied(m, (s + 1) as u64, h),
        !occupied(m, (s + 2) as u64, h),
        !occupied(m, (s + 3) as u64, h),
    ensures
        submit_batch(m, nn, seq![s, (s + 1) as u64, (s + 2) as u64], h).1 == seq![0int, 1int, 2int],
        next_free(submit_batch(m, nn, seq![s, (s + 1) as u64, (s + 2) as u64], h).0, nn, h) == s + 3,
{
    let s1 = (s + 1) as u64;
    let s2 = (s + 2) as u64;
    let seqs = seq![s, s1, s2];
    assert(seqs.drop_last() =~= seq![s, s1]);
    assert(seq![s, s1].drop_last() =~= seq![s]);
    assert(seq![s].drop_last() =~= Seq::<u64>::empty());
    lemma_submit_fresh(m, nn, s, h);
    let m1 = submit_step(m, nn, s, h).unwrap();
    assert(submit_batch(m, nn, seq![s], h) == (m1, seq![0int])) by {
        assert(seq![s].last() == s);
        assert(submit_batch(m, nn, Seq::<u64>::empty(), h) == (m, Seq::<int>::empty()));
        assert(Seq::<int>::empty().push(0) =~= seq![0int]);
    }
    assert(!occupied(m1, s2, h) && !occupied(m1, (s + 3) as u64, h));
    lemma_submit_fresh(m1, nn, s1, h);
    let m2 = submit_step(m1, nn, s1, h).unwrap();
    assert(submit_batch(m, nn, seq![s, s1], h) == (m2, seq![0int, 1int])) by {
        assert(seq![s, s1].last() == s1);
        assert(seq![0int].push(1) =~= seq![0int, 1int]);
    }
    assert(seqs.last() == s2);
    assert(!occupied(m2, (s + 3) as u64, h));
    lemma_submit_fresh(m2, nn, s2, h);
    assert(seq![0int, 1int].push(2) =~= seq![0int, 1int, 2int]);
}

/// A message whose sequence is already Successful never passes admission.
pub proof fn lemma_successful_filtered(m: Map<u64, MessageContext>, msgs: Seq<SignedMessage>, seq: u64, h: u32)
    requires
        m.contains_key(seq),
        m[seq].state == MessageState::Successful,
    ensures
        forall|i: int|
            0 <= i < admitted(Some(m), msgs, h).len() ==> #[trigger] admitted(Some(m), msgs, h)[i].sequence != seq,
    decreases msgs.len(),
{
    if msgs.len() > 0 {
        lemma_successful_filtered(m, msgs.drop_last(), seq, h);
        let prev = admitted(Some(m), msgs.drop_last(), h);
        let x = msgs.last();
        if !occupied(m, x.sequence, h) {
            assert(x.sequence != seq);
            assert forall|i: int| 0 <= i < prev.push(x).len() implies #[trigger] prev.push(x)[i].sequence != seq by {
                if i < prev.len() {
                    assert(prev.push(x)[i] == prev[i]);
                }
            }
        }
    }
}

/// A message whose sequence failed passes admission, and where it is the
/// expected one it is submitted again with one retry more.
pub proof fn lemma_failure_retried(m: Map<u64, MessageContext>, nn: u64, seq: u64, msg: SignedMessage, h: u32)
    requires
        m.contains_key(seq),
        m[seq].state == MessageState::Failure,
        msg.sequence == seq,
        next_free(m, nn, h) == seq,
    ensures
        admitted(Some(m), seq![msg], h) == seq![msg],
        submit_step(m, nn, seq, h) is Some,
        submit_step(m, nn, seq, h).unwrap()[seq].state == MessageState::Pending,
        submit_step(m, nn, seq, h).unwrap()[seq].submitted_at == h,
        submit_step(m, nn, seq, h).unwrap()[seq].prev_try_count == one_more(m[seq].prev_try_count),
{
    assert(seq![msg].drop_last() =~= Seq::<SignedMessage>::empty());
    assert(seq![msg].last() == msg);
    assert(!occupied(m, seq, h));
    assert(admitted(Some(m), Seq::<SignedMessage>::empty(), h) == Seq::<SignedMessage>::empty());
    assert(Seq::<SignedMessage>::empty().push(msg) =~= seq![msg]);
}

/// A Timeout message submitted no more than `TX_TIMEOUT_IN_BLOCKS` blocks
/// ago still counts as in flight.
pub proof fn lemma_timeout_grace(c: MessageContext, h: u32)
    requires
        c.state == MessageState::Timeout,
        h >= c.submitted_at,
        h - c.submitted_at <= TX_TIMEOUT_IN_BLOCKS,
    ensures
        pending_at(c, h),
        pending_or_success_at(c, h),
{
}

/// A message ahead of the expected sequence is not submitted.
pub proof fn lemma_ahead_skipped(m: Map<u64, MessageContext>, nn: u64, seq: u64, h: u32)
    requires
        seq > next_free(m, nn, h),
    ensures
        submit_step(m, nn, seq, h) is None,
{
}

/// What the sequencer holds of one sender.: the node's next sequence and the
/// bookkeeping by sequence.
pub open spec fn sender_model(c: SenderContext) -> (u64, Map<u64, MessageContext>) {
    (c.node_next_sequence, c.pending_messages@)
}

pub open spec fn knows(ss: Seq<SenderContext>, k: Seq<u8>) -> bool {
    exists|i: int| 0 <= i < ss.len() && #[trigger] ss[i].sender@ == k
}

pub open spec fn position(ss: Seq<SenderContext>, k: Seq<u8>) -> int {
    choose|i: int| 0 <= i < ss.len() && #[trigger] ss[i].sender@ == k
}

pub open spec fn distinct_senders(ss: Seq<SenderContext>) -> bool {
    forall|i: int, j: int|
        0 <= i < ss.len() && 0 <= j < ss.len() && i != j ==> #[trigger] ss[i].sender@ != #[trigger] ss[j].sender@
}

pub open spec fn senders_view(ss: Seq<SenderContext>) -> Map<Seq<u8>, (u64, Map<u64, MessageContext>)> {
    Map::new(|k: Seq<u8>| knows(ss, k), |k: Seq<u8>| sender_model(ss[position(ss, k)]))
}

proof fn lemma_view_at(ss: Seq<SenderContext>, i: int)
    requires
        distinct_senders(ss),
        0 <= i < ss.len(),
    ensures
        senders_view(ss).contains_key(ss[i].sender@),
        senders_view(ss)[ss[i].sender@] == sender_model(ss[i]),
{
    let k = ss[i].sender@;
    assert(knows(ss, k));
    let j = position(ss, k);
    assert(ss[j].sender@ == k);
}

proof fn lemma_view_push(ss: Seq<SenderContext>, c: SenderContext)
    requires
        distinct_senders(ss),
        !knows(ss, c.sender@),
    ensures
        distinct_senders(ss.push(c)),
        senders_view(ss.push(c)) == senders_view(ss).insert(c.sender@, sender_model(c)),
{
    let t = ss.push(c);
    assert forall|i: int, j: int|
        0 <= i < t.len() && 0 <= j < t.len() && i != j implies #[trigger] t[i].sender@
        != #[trigger] t[j].sender@ by {
        if i < ss.len() && j < ss.len() {
            assert(t[i] == ss[i] && t[j] == ss[j]);
        } else if i < ss.len() {
            assert(t[i] == ss[i]);
        } else {
            assert(t[j] == ss[j]);
        }
    }
    let v1 = senders_view(t);
    let v2 = senders_view(ss).insert(c.sender@, sender_model(c));
    assert forall|k: Seq<u8>| v1.contains_key(k) <==> v2.contains_key(k) by {
        if knows(ss, k) {
            let i = choose|i: int| 0 <= i < ss.len() && #[trigger] ss[i].sender@ == k;
            assert(t[i] == ss[i]);
        }
        if knows(t, k) && k != c.sender@ {
            let i = choose|i: int| 0 <= i < t.len() && #[trigger] t[i].sender@ == k;
            assert(i < ss.len());
            assert(ss[i] == t[i]);
        }
        if k == c.sender@ {
            assert(t[ss.len() as int] == c);
        }
    }
    assert forall|k: Seq<u8>| v1.contains_key(k) implies v1[k] == v2[k] by {
        if k == c.sender@ {
            assert(t[ss.len() as int] == c);
            lemma_view_at(t, ss.len() as int);
        } else {
            let i = choose|i: int| 0 <= i < t.len() && #[trigger] t[i].sender@ == k;
            assert(i < ss.len());
            assert(ss[i] == t[i]);
            lemma_view_at(t, i);
            lemma_view_at(ss, i);
        }
    }
    assert(v1 =~= v2);
}

proof fn lemma_view_remove(ss: Seq<SenderContext>, i: int)
    requires
        distinct_senders(ss),
        0 <= i < ss.len(),
    ensures
        distinct_senders(ss.remove(i)),
        !knows(ss.remove(i), ss[i].sender@),
        senders_view(ss.remove(i)) == senders_view(ss).remove(ss[i].sender@),
{
    let t = ss.remove(i);
    let key = ss[i].sender@;
    assert forall|a: int| 0 <= a < t.len() implies #[trigger] t[a] == ss[if a < i { a } else { a + 1 }] by {}
    assert forall|a: int, b: int|
        0 <= a < t.len() && 0 <= b < t.len() && a != b implies #[trigger] t[a].sender@
        != #[trigger] t[b].sender@ by {
        assert(t[a] == ss[if a < i { a } else { a + 1 }]);
        assert(t[b] == ss[if b < i { b } else { b + 1 }]);
    }
    if knows(t, key) {
        let a = choose|a: int| 0 <= a < t.len() && #[trigger] t[a].sender@ == key;
        assert(t[a] == ss[if a < i { a } else { a + 1 }]);
    }
    let v1 = senders_view(t);
    let v2 = senders_view(ss).remove(key);
    assert forall|k: Seq<u8>| v1.contains_key(k) <==> v2.contains_key(k) by {
        if knows(t, k) {
            let a = choose|a: int| 0 <= a < t.len() && #[trigger] t[a].sender@ == k;
            assert(t[a] == ss[if a < i { a } else { a + 1 }]);
        }
        if knows(ss, k) && k != key {
            let b = choose|b: int| 0 <= b < ss.len() && #[trigger] ss[b].sender@ == k;
            assert(b != i);
            let a = if b < i { b } else { b - 1 };
            assert(t[a] == ss[b]);
        }
    }
    assert forall|k: Seq<u8>| v1.contains_key(k) implies v1[k] == v2[k] by {
        let a = choose|a: int| 0 <= a < t.len() && #[trigger] t[a].sender@ == k;
        let b = if a < i { a } else { a + 1 };
        assert(t[a] == ss[b]);
        lemma_view_at(t, a);
        lemma_view_at(ss, b);
    }
    assert(v1 =~= v2);
}

fn same_bytes(a: &Vec<u8>, b: &Vec<u8>) -> (r: bool)
    ensures
        r == (a@ == b@),
{
    if a.len() != b.len() {
        return false;
    }
    let mut i: usize = 0;
    while i < a.len()
        invariant
            a@.len() == b@.len(),
            i <= a@.len(),
            forall|k: int| 0 <= k < i ==> a@[k] == b@[k],
        decreases a@.len() - i,
    {
        if a[i] != b[i] {
            return false;
        }
        i += 1;
    }
    assert(a@ =~= b@);
    true
}

/// The messages of a batch that admission keeps, in order: all of them for a
/// sender not yet known, else those whose sequence has no bookkeeping or is
/// neither in flight nor done.
pub open spec fn admitted(known: Option<Map<u64, MessageContext>>, msgs: Seq<SignedMessage>, h: u32) -> Seq<
    SignedMessage,
>
    decreases msgs.len(),
{
    if msgs.len() == 0 {
        Seq::empty()
    } else {
        let prev = admitted(known, msgs.drop_last(), h);
        match known {
            Some(m) => if occupied(m, msgs.last().sequence, h) {
                prev
            } else {
                prev.push(msgs.last())
            },
            None => prev.push(msgs.last()),
        }
    }
}

/// Where a DoSync batch starts from: the node's next sequence (the fresh one
/// if given) and the bookkeeping (empty for a new sender). `None` for a new
/// sender without a fresh sequence: the batch is then abandoned.
pub open spec fn sync_base(
    v: Map<Seq<u8>, (u64, Map<u64, MessageContext>)>,
    sender: Seq<u8>,
    next_sequence: Option<u64>,
) -> Option<(u64, Map<u64, MessageContext>)> {
    if v.contains_key(sender) {
        Some(
            (
                match next_sequence {
                    Some(n) => n,
                    None => v[sender].0,
                },
                v[sender].1,
            ),
        )
    } else {
        match next_sequence {
            Some(n) => Some((n, Map::empty())),
            None => None,
        }
    }
}

/// The state that a submission's outcome gives its message.
pub open spec fn state_after(result: Result<(), String>) -> MessageState {
    match result {
        Ok(_) => MessageState::Successful,
        Err(e) => if contains_text(e@, "Tx timed out!"@) {
            MessageState::Timeout
        } else {
            MessageState::Failure
        },
    }
}

pub open spec fn with_state(c: MessageContext, st: MessageState) -> MessageContext {
    MessageContext {
        sequence: c.sequence,
        state: st,
        submitted_at: c.submitted_at,
        prev_try_count: c.prev_try_count,
    }
}

/// An event for the dispatcher loop. A sender is named by its encoded
/// origin; a worker by its id.
pub enum MessagesEvent {
    /// A batch offered by a worker: (worker, pool, sender, messages).
    SyncMessages((String, u64, Vec<u8>, Vec<SignedMessage>)),
    /// A batch back from the refresh, with the node's next sequence where
    /// the query succeeded.
    DoSyncMessages((String, u64, Vec<u8>, Vec<SignedMessage>, Option<u64>)),
    /// A submission's outcome: (worker, sender, sequence, result).
    Completed((String, Vec<u8>, u64, Result<(), String>)),
    RemoveSender(Vec<u8>),
    CurrentHeight(u32),
}

/// Outside work that the loop asks for.
pub enum MessagesAction {
    /// Ask the node for the sender's next sequence, then post
    /// `DoSyncMessages` with the batch and the answer (`None` on failure).
    RefreshSequence((String, u64, Vec<u8>, Vec<SignedMessage>)),
    /// Submit the message to the pool; post `Completed` with the outcome.
    Submit((String, u64, Vec<u8>, SignedMessage)),
    /// Tell the worker that a submission failed and will be retried.
    ReportError((String, String)),
}

pub open spec fn is_refresh(a: MessagesAction, w: String, pool: u64, s: Seq<u8>, msgs: Seq<SignedMessage>) -> bool {
    match a {
        MessagesAction::RefreshSequence(t) => t.0 == w && t.1 == pool && t.2@ == s && t.3@ == msgs,
        _ => false,
    }
}

pub open spec fn is_submit(a: MessagesAction, w: String, pool: u64, s: Seq<u8>, m: SignedMessage) -> bool {
    match a {
        MessagesAction::Submit(t) => t.0 == w && t.1 == pool && t.2@ == s && t.3 == m,
        _ => false,
    }
}

pub open spec fn is_report(a: MessagesAction, w: String, e: String) -> bool {
    match a {
        MessagesAction::ReportError(t) => t.0 == w && t.1 == e,
        _ => false,
    }
}

/// The state of the dispatcher loop: every sender's bookkeeping and the
/// current chain height.
pub struct Sequencer {
    senders: Vec<SenderContext>,
    current_height: u32,
}

impl Sequencer {
    /// Sender to (node's next sequence, bookkeeping by sequence).
    pub closed spec fn view(&self) -> Map<Seq<u8>, (u64, Map<u64, MessageContext>)> {
        senders_view(self.senders@)
    }

    pub closed spec fn wf(&self) -> bool {
        distinct_senders(self.senders@)
    }

    pub closed spec fn height(&self) -> u32 {
        self.current_height
    }

    /// The bookkeeping of a sender, where it is known.
    pub open spec fn known(&self, sender: Seq<u8>) -> Option<Map<u64, MessageContext>> {
        if self@.contains_key(sender) {
            Some(self@[sender].1)
        } else {
            None
        }
    }

    pub fn new() -> (r: Sequencer)
        ensures
            r.wf(),
            r@ == Map::<Seq<u8>, (u64, Map<u64, MessageContext>)>::empty(),
            r.height() == 0,
    {
        let r = Sequencer { senders: Vec::new(), current_height: 0 };
        assert(r@ =~= Map::<Seq<u8>, (u64, Map<u64, MessageContext>)>::empty());
        r
    }

    pub fn current_height(&self) -> (r: u32)
        ensures
            r == self.height(),
    {
        self.current_height
    }

    fn find(&self, sender: &Vec<u8>) -> (r: Option<usize>)
        ensures
            match r {
                Some(i) => i < self.senders@.len() && self.senders@[i as int].sender@ == sender@,
                None => !knows(self.senders@, sender@),
            },
    {
        let mut i: usize = 0;
        while i < self.senders.len()
            invariant
                i <= self.senders@.len(),
                forall|j: int| 0 <= j < i ==> self.senders@[j].sender@ != sender@,
            decreases self.senders@.len() - i,
        {
            if same_bytes(&self.senders[i].sender, sender) {
                return Some(i);
            }
            i += 1;
        }
        None
    }

    /// The next sequence to submit for a sender at the current height, where
    /// the sender is known.
    pub fn next_sequence_of(&self, sender: &Vec<u8>) -> (r: Option<u64>)
        requires
            self.wf(),
        ensures
            r == (if self@.contains_key(sender@) {
                Some(next_free(self@[sender@].1, self@[sender@].0, self.height()))
            } else {
                None::<u64>
            }),
    {
        match self.find(sender) {
            Some(i) => {
                proof {
                    lemma_view_at(self.senders@, i as int);
                }
                Some(self.senders[i].calculate_next_sequence(self.current_height))
            },
            None => None,
        }
    }

    /// The bookkeeping of one sequence of a sender, where there is some.
    pub fn message_context(&self, sender: &Vec<u8>, sequence: u64) -> (r: Option<MessageContext>)
        requires
            self.wf(),
        ensures
            r == (if self@.contains_key(sender@) && self@[sender@].1.contains_key(sequence) {
                Some(self@[sender@].1[sequence])
            } else {
                None::<MessageContext>
            }),
    {
        match self.find(sender) {
            Some(i) => {
                proof {
                    lemma_view_at(self.senders@, i as int);
                }
                match self.senders[i].pending_messages.get(&sequence) {
                    Some(c) => Some(*c),
                    None => None,
                }
            },
            None => None,
        }
    }

    /// A new chain height.
    pub fn set_current_height(&mut self, height: u32)
        ensures
            final(self)@ == old(self)@,
            final(self).wf() == old(self).wf(),
            final(self).height() == height,
    {
        self.current_height = height;
    }

    /// Forgets a sender and all its bookkeeping; false where it was unknown.
    pub fn remove_sender(&mut self, sender: &Vec<u8>) -> (r: bool)
        requires
            old(self).wf(),
        ensures
            final(self).wf(),
            r == old(self)@.contains_key(sender@),
            final(self)@ == old(self)@.remove(sender@),
            final(self).height() == old(self).height(),
    {
        match self.find(sender) {
            Some(i) => {
                proof {
                    lemma_view_remove(self.senders@, i as int);
                    lemma_view_at(self.senders@, i as int);
                }
                self.senders.remove(i);
                true
            },
            None => {
                assert(self@ =~= self@.remove(sender@));
                false
            },
        }
    }

    /// Admission of an offered batch: keeps the messages that may need a
    /// submission, in order.
    pub fn filter_offered(&self, sender: &Vec<u8>, messages: Vec<SignedMessage>) -> (r: Vec<SignedMessage>)
        requires
            self.wf(),
        ensures
            r@ == admitted(self.known(sender@), messages@, self.height()),
    {
        let found = self.find(sender);
        proof {
            if let Some(i) = found {
                lemma_view_at(self.senders@, i as int);
            }
        }
        let ghost orig = messages@;
        let n: usize = messages.len();
        let mut messages = messages;
        let mut r: Vec<SignedMessage> = Vec::new();
        let mut i: usize = 0;
        while messages.len() > 0
            invariant
                i + messages@.len() == orig.len(),
                orig.len() == n,
                messages@ == orig.subrange(i as int, orig.len() as int),
                r@ == admitted(self.known(sender@), orig.take(i as int), self.height()),
                match found {
                    Some(j) => j < self.senders@.len() && self.known(sender@) == Some(
                        self.senders@[j as int].pending_messages@,
                    ),
                    None => self.known(sender@) == None::<Map<u64, MessageContext>>,
                },
            decreases messages@.len(),
        {
            let message = messages.remove(0);
            assert(orig.take(i + 1).drop_last() =~= orig.take(i as int));
            let keep = match found {
                Some(j) => !self.senders[j].occupied_at(message.sequence, self.current_height),
                None => true,
            };
            if keep {
                r.push(message);
            }
            i += 1;
        }
        assert(orig.take(i as int) =~= orig);
        r
    }
    /// The outcome of a submission: `Ok` makes the message Successful, an
    /// error that mentions "Tx timed out!" makes it Timeout, any other error
    /// Failure. False, and nothing changed, where the sender or the sequence
    /// is unknown.
    pub fn complete(&mut self, sender: &Vec<u8>, sequence: u64, result: &Result<(), String>) -> (r: bool)
        requires
            old(self).wf(),
        ensures
            final(self).wf(),
            final(self).height() == old(self).height(),
            r == (old(self)@.contains_key(sender@) && old(self)@[sender@].1.contains_key(sequence)),
            r ==> final(self)@ == old(self)@.insert(
                sender@,
                (
                    old(self)@[sender@].0,
                    old(self)@[sender@].1.insert(
                        sequence,
                        with_state(old(self)@[sender@].1[sequence], state_after(*result)),
                    ),
                ),
            ),
            !r ==> final(self)@ == old(self)@,
    {
        let state = match result {
            Ok(_) => MessageState::Successful,
            Err(e) => if text_contains(e.as_str(), "Tx timed out!") {
                MessageState::Timeout
            } else {
                MessageState::Failure
            },
        };
        let i = match self.find(sender) {
            Some(i) => i,
            None => {
                return false;
            },
        };
        proof {
            lemma_view_at(self.senders@, i as int);
        }
        let c = match self.senders[i].pending_messages.get(&sequence) {
            Some(c) => *c,
            None => {
                return false;
            },
        };
        proof {
            lemma_view_remove(self.senders@, i as int);
        }
        let mut ctx = self.senders.remove(i);
        ctx.pending_messages.insert(
            sequence,
            MessageContext {
                sequence: c.sequence,
                state,
                submitted_at: c.submitted_at,
                prev_try_count: c.prev_try_count,
            },
        );
        proof {
            lemma_view_push(self.senders@, ctx);
            assert(old(self)@.remove(sender@).insert(sender@, sender_model(ctx)) =~= old(self)@.insert(
                sender@,
                sender_model(ctx),
            ));
        }
        self.senders.push(ctx);
        true
    }

    /// The submission stage of a batch, at the current height: takes the
    /// fresh next sequence where there is one, then submits each message that
    /// is the expected one when its turn comes. Returns the submitted
    /// messages, or `None` for a new sender without a fresh sequence.
    pub fn do_sync(&mut self, sender: Vec<u8>, messages: Vec<SignedMessage>, next_sequence: Option<u64>) -> (r:
        Option<Vec<SignedMessage>>)
        requires
            old(self).wf(),
        ensures
            final(self).wf(),
            final(self).height() == old(self).height(),
            match sync_base(old(self)@, sender@, next_sequence) {
                None => r is None && final(self)@ == old(self)@,
                Some(b) => {
                    let res = submit_batch(b.1, b.0, sequences_of(messages@), old(self).height());
                    &&& r is Some
                    &&& r.unwrap()@ == picked(messages@, res.1)
                    &&& final(self)@ == old(self)@.insert(sender@, (b.0, res.0))
                },
            },
    {
        let ghost key = sender@;
        let mut ctx = match self.find(&sender) {
            Some(i) => {
                proof {
                    lemma_view_at(self.senders@, i as int);
                    lemma_view_remove(self.senders@, i as int);
                }
                self.senders.remove(i)
            },
            None => match next_sequence {
                Some(n) => SenderContext {
                    sender,
                    node_next_sequence: n,
                    pending_messages: HashMap::new(),
                },
                None => {
                    return None;
                },
            },
        };
        if let Some(n) = next_sequence {
            ctx.node_next_sequence = n;
        }
        let ghost mid = ctx;
        let r = ctx.submit_messages(messages, self.current_height);
        proof {
            lemma_view_push(self.senders@, ctx);
            assert(old(self)@.remove(key).insert(key, sender_model(ctx)) =~= old(self)@.insert(
                key,
                sender_model(ctx),
            ));
            assert(sender_model(mid) == sync_base(old(self)@, key, next_sequence).unwrap());
        }
        self.senders.push(ctx);
        Some(r)
    }
    /// One turn of the dispatcher loop: applies the event to the state and
    /// returns the outside work to start, in order.
    pub fn handle_event(&mut self, event: MessagesEvent) -> (r: Vec<MessagesAction>)
        requires
            old(self).wf(),
        ensures
            final(self).wf(),
            match event {
                MessagesEvent::SyncMessages(t) => {
                    let kept = admitted(old(self).known(t.2@), t.3@, old(self).height());
                    &&& final(self)@ == old(self)@
                    &&& final(self).height() == old(self).height()
                    &&& kept.len() == 0 ==> r@.len() == 0
                    &&& kept.len() > 0 ==> r@.len() == 1 && is_refresh(r@[0], t.0, t.1, t.2@, kept)
                },
                MessagesEvent::DoSyncMessages(t) => {
                    &&& final(self).height() == old(self).height()
                    &&& match sync_base(old(self)@, t.2@, t.4) {
                        None => r@.len() == 0 && final(self)@ == old(self)@,
                        Some(b) => {
                            let res = submit_batch(b.1, b.0, sequences_of(t.3@), old(self).height());
                            let sent = picked(t.3@, res.1);
                            &&& final(self)@ == old(self)@.insert(t.2@, (b.0, res.0))
                            &&& r@.len() == sent.len()
                            &&& forall|i: int|
                                0 <= i < r@.len() ==> is_submit(#[trigger] r@[i], t.0, t.1, t.2@, sent[i])
                        },
                    }
                },
                MessagesEvent::Completed(t) => {
                    let found = old(self)@.contains_key(t.1@) && old(self)@[t.1@].1.contains_key(t.2);
                    &&& final(self).height() == old(self).height()
                    &&& found ==> final(self)@ == old(self)@.insert(
                        t.1@,
                        (
                            old(self)@[t.1@].0,
                            old(self)@[t.1@].1.insert(
                                t.2,
                                with_state(old(self)@[t.1@].1[t.2], state_after(t.3)),
                            ),
                        ),
                    )
                    &&& !found ==> final(self)@ == old(self)@
                    &&& (found && t.3 is Err) ==> r@.len() == 1 && is_report(r@[0], t.0, t.3->Err_0)
                    &&& !(found && t.3 is Err) ==> r@.len() == 0
                },
                MessagesEvent::RemoveSender(s) => {
                    &&& final(self)@ == old(self)@.remove(s@)
                    &&& final(self).height() == old(self).height()
                    &&& r@.len() == 0
                },
                MessagesEvent::CurrentHeight(h) => {
                    &&& final(self)@ == old(self)@
                    &&& final(self).height() == h
                    &&& r@.len() == 0
                },
            },
    {
        let mut r: Vec<MessagesAction> = Vec::new();
        match event {
            MessagesEvent::SyncMessages(t) => {
                let (worker_id, pool_id, sender, messages) = t;
                let kept = self.filter_offered(&sender, messages);
                if kept.len() > 0 {
                    r.push(MessagesAction::RefreshSequence((worker_id, pool_id, sender, kept)));
                }
            },
            MessagesEvent::DoSyncMessages(t) => {
                let (worker_id, pool_id, sender, messages, next_sequence) = t;
                let ghost key = sender@;
                let sender_copy = sender.clone();
                match self.do_sync(sender, messages, next_sequence) {
                    Some(sent) => {
                        let ghost orig = sent@;
                        let n: usize = sent.len();
                        let mut sent = sent;
                        let mut i: usize = 0;
                        while sent.len() > 0
                            invariant
                                i + sent@.len() == orig.len(),
                                orig.len() == n,
                                sent@ == orig.subrange(i as int, orig.len() as int),
                                sender_copy@ == key,
                                r@.len() == i,
                                forall|k: int|
                                    0 <= k < i ==> is_submit(#[trigger] r@[k], worker_id, pool_id, key, orig[k]),
                            decreases sent@.len(),
                        {
                            let message = sent.remove(0);
                            r.push(
                                MessagesAction::Submit(
                                    (worker_id.clone(), pool_id, sender_copy.clone(), message),
                                ),
                            );
                            i += 1;
                        }
                    },
                    None => {},
                }
            },
            MessagesEvent::Completed(t) => {
                let (worker_id, sender, sequence, result) = t;
                let found = self.complete(&sender, sequence, &result);
                if found {
                    match result {
                        Err(e) => {
                            r.push(MessagesAction::ReportError((worker_id, e)));
                        },
                        Ok(_) => {},
                    }
                }
            },
            MessagesEvent::RemoveSender(sender) => {
                self.remove_sender(&sender);
            },
            MessagesEvent::CurrentHeight(height) => {
                self.set_current_height(height);
            },
        }
        r
    }
}

} // verus!
