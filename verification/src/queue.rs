//! The queues in which messages wait for a plugin or property inspector that is
//! not connected.
use vstd::prelude::*;
use vstd::utf8::*;
use crate::text;
use crate::text::{owned, same_text, texts_contain};

verus! {

pub const MAX_QUEUED_MESSAGES_PER_PLUGIN: usize = 256;

pub const MAX_QUEUED_BYTES_PER_PLUGIN: usize = 2097152;

pub const MAX_QUEUED_MESSAGES_PER_PROPERTY_INSPECTOR: usize = 256;

pub const MAX_QUEUED_BYTES_PER_PROPERTY_INSPECTOR: usize = 2097152;

/// A message that waits.
pub enum QueuedMessage {
    Text(String),
    Binary(Vec<u8>),
    /// A control frame, which counts as empty.
    Control,
}

/// The number of bytes that a message counts for.
pub open spec fn message_size(m: QueuedMessage) -> nat {
    match m {
        QueuedMessage::Text(s) => encode_utf8(s@).len(),
        QueuedMessage::Binary(b) => b@.len(),
        QueuedMessage::Control => 0,
    }
}

/// The number of bytes that a message counts for.
pub fn message_size_bytes(m: &QueuedMessage) -> (r: usize)
    ensures
        r == message_size(*m),
{
    match m {
        QueuedMessage::Text(s) => text::byte_len(s),
        QueuedMessage::Binary(b) => b.len(),
        QueuedMessage::Control => 0,
    }
}

/// The number of bytes that messages count for.
pub open spec fn total_size(q: Seq<QueuedMessage>) -> nat
    decreases q.len(),
{
    if q.len() == 0 {
        0
    } else {
        message_size(q[0]) + total_size(q.drop_first())
    }
}

/// The messages from position `s` on may stay: they are the newest alone, or
/// within both limits.
pub open spec fn may_stay(q: Seq<QueuedMessage>, s: int, max_msgs: int, max_bytes: int) -> bool {
    s == q.len() - 1 || (q.len() - s <= max_msgs && total_size(q.skip(s)) <= max_bytes)
}

proof fn lemma_total_size_skip(q: Seq<QueuedMessage>, s: int)
    requires
        0 <= s < q.len(),
    ensures
        total_size(q.skip(s)) == message_size(q[s]) + total_size(q.skip(s + 1)),
{
    assert(q.skip(s)[0] == q[s]);
    assert(q.skip(s).drop_first() =~= q.skip(s + 1));
}

proof fn lemma_total_size_grows(q: Seq<QueuedMessage>, s: int, t: int)
    requires
        0 <= s <= t <= q.len(),
    ensures
        total_size(q.skip(t)) <= total_size(q.skip(s)),
    decreases t - s,
{
    if s < t {
        lemma_total_size_skip(q, s);
        lemma_total_size_grows(q, s + 1, t);
    }
}

/// The first position from which messages stay, at most `s`: the oldest that can
/// be reached from `s` while the messages may stay.
pub open spec fn first_kept(q: Seq<QueuedMessage>, s: int, max_msgs: int, max_bytes: int) -> int
    decreases s,
{
    if s <= 0 {
        0
    } else if may_stay(q, s - 1, max_msgs, max_bytes) {
        first_kept(q, s - 1, max_msgs, max_bytes)
    } else {
        s
    }
}

/// A queue cut to its limits: a newest message that is too large by itself
/// leaves; else the oldest messages leave, as few as is needed for the rest to
/// be within both limits. The newest stays then in any case.
pub open spec fn cut(q: Seq<QueuedMessage>, max_msgs: int, max_bytes: int) -> Seq<QueuedMessage> {
    if q.len() == 0 {
        q
    } else if message_size(q.last()) > max_bytes {
        q.drop_last()
    } else {
        q.skip(first_kept(q, q.len() - 1, max_msgs, max_bytes))
    }
}

proof fn lemma_first_kept(q: Seq<QueuedMessage>, s: int, max_msgs: int, max_bytes: int)
    requires
        0 <= s < q.len(),
        may_stay(q, s, max_msgs, max_bytes),
    ensures
        0 <= first_kept(q, s, max_msgs, max_bytes) <= s,
        may_stay(q, first_kept(q, s, max_msgs, max_bytes), max_msgs, max_bytes),
    decreases s,
{
    if s > 0 && may_stay(q, s - 1, max_msgs, max_bytes) {
        lemma_first_kept(q, s - 1, max_msgs, max_bytes);
    }
}

proof fn lemma_all_kept(q: Seq<QueuedMessage>, s: int, max_msgs: int, max_bytes: int)
    requires
        0 <= s < q.len(),
        within_limits(q, max_msgs, max_bytes),
    ensures
        first_kept(q, s, max_msgs, max_bytes) == 0,
    decreases s,
{
    if s > 0 {
        lemma_total_size_grows(q, 0, s - 1);
        assert(q.skip(0) =~= q);
        lemma_all_kept(q, s - 1, max_msgs, max_bytes);
    }
}

/// Cuts a queue to its limits.
pub fn retain_newest_within_limits(queue: &mut Vec<QueuedMessage>, max_msgs: usize, max_bytes: usize)
    ensures
        final(queue)@ == cut(old(queue)@, max_msgs as int, max_bytes as int),
{
    let n: usize = queue.len();
    if n == 0 {
        return;
    }
    let ghost q = queue@;
    if message_size_bytes(&queue[n - 1]) > max_bytes {
        let _ = queue.pop();
        return;
    }
    let mut bytes: usize = message_size_bytes(&queue[n - 1]);
    let mut start: usize = n - 1;
    proof {
        lemma_total_size_skip(q, n - 1);
        assert(q.skip(n as int) =~= Seq::<QueuedMessage>::empty());
    }
    let mut more = true;
    while more && start > 0
        invariant
            q == queue@,
            n == q.len(),
            start < n,
            bytes == total_size(q.skip(start as int)),
            bytes <= max_bytes,
            first_kept(q, n - 1, max_msgs as int, max_bytes as int) == (if more {
                first_kept(q, start as int, max_msgs as int, max_bytes as int)
            } else {
                start as int
            }),
        decreases start + (if more { 1int } else { 0int }),
    {
        let size = message_size_bytes(&queue[start - 1]);
        proof {
            lemma_total_size_skip(q, start - 1);
        }
        if n - start + 1 > max_msgs || size > max_bytes - bytes {
            more = false;
        } else {
            bytes = bytes + size;
            start = start - 1;
        }
    }
    let mut kept: Vec<QueuedMessage> = queue.split_off(start);
    assert(kept@ =~= q.skip(start as int));
    core::mem::swap(queue, &mut kept);
}

/// The queue keeps to its limits.
pub open spec fn within_limits(q: Seq<QueuedMessage>, max_msgs: int, max_bytes: int) -> bool {
    q.len() <= max_msgs && total_size(q) <= max_bytes
}

/// A queue that is within its limits is so after one more message. That message
/// is the last then, unless it is too large by itself: then nothing changes. And
/// while there is room, nothing leaves.
pub proof fn law_queue_keeps_limits(
    q: Seq<QueuedMessage>,
    message: QueuedMessage,
    max_msgs: int,
    max_bytes: int,
)
    requires
        max_msgs > 0,
        within_limits(q, max_msgs, max_bytes),
    ensures
        ({
            let r = cut(q.push(message), max_msgs, max_bytes);
            &&& within_limits(r, max_msgs, max_bytes)
            &&& message_size(message) > max_bytes ==> r == q
            &&& message_size(message) <= max_bytes ==> r.len() > 0 && r.last() == message
            &&& within_limits(q.push(message), max_msgs, max_bytes) ==> r == q.push(message)
        }),
{
    let p = q.push(message);
    let r = cut(p, max_msgs, max_bytes);
    assert(p.last() == message);
    lemma_total_size_skip(p, p.len() - 1);
    assert(p.skip(p.len() as int) =~= Seq::<QueuedMessage>::empty());
    if message_size(message) > max_bytes {
        assert(p.drop_last() =~= q);
        lemma_total_size_grows(p, 0, p.len() - 1);
        assert(p.skip(0) =~= p);
    } else {
        lemma_first_kept(p, p.len() - 1, max_msgs, max_bytes);
        if within_limits(p, max_msgs, max_bytes) {
            lemma_all_kept(p, p.len() - 1, max_msgs, max_bytes);
            assert(p.skip(0) =~= p);
        }
    }
}

/// Adds a message to a queue and cuts it to its limits.
pub fn enqueue(
    queue: &mut Vec<QueuedMessage>,
    message: QueuedMessage,
    max_msgs: usize,
    max_bytes: usize,
)
    ensures
        final(queue)@ == cut(old(queue)@.push(message), max_msgs as int, max_bytes as int),
{
    queue.push(message);
    retain_newest_within_limits(queue, max_msgs, max_bytes);
}

// ---------------------------------------------------------------------------
// The queues of all receivers
// ---------------------------------------------------------------------------

/// The messages that wait for each receiver. No receiver has two queues.
pub struct MessageQueues {
    pub queues: Vec<(String, Vec<QueuedMessage>)>,
    pub max_msgs: usize,
    pub max_bytes: usize,
}

/// The receivers of queues.
pub open spec fn receivers(s: Seq<(String, Vec<QueuedMessage>)>) -> Seq<Seq<char>> {
    s.map_values(|q: (String, Vec<QueuedMessage>)| q.0@)
}

/// What waits in queues for a receiver.
pub open spec fn waiting(s: Seq<(String, Vec<QueuedMessage>)>, receiver: Seq<char>) -> Seq<
    QueuedMessage,
> {
    let names = receivers(s);
    if names.contains(receiver) {
        s[text::first_index(names, receiver)].1@
    } else {
        Seq::empty()
    }
}

proof fn lemma_waiting_at(s: Seq<(String, Vec<QueuedMessage>)>, k: int)
    requires
        0 <= k < s.len(),
        receivers(s).no_duplicates(),
    ensures
        waiting(s, s[k].0@) == s[k].1@,
{
    let names = receivers(s);
    assert(names[k] == s[k].0@);
    assert forall|j: int| 0 <= j < k implies names[j] != s[k].0@ by {
        assert(names[j] != names[k]);
    }
    text::lemma_first_index_is(names, s[k].0@, k);
}

impl MessageQueues {
    /// Every queue keeps to the limits, and no receiver has two.
    pub open spec fn wf(&self) -> bool {
        &&& self.max_msgs > 0
        &&& receivers(self.queues@).no_duplicates()
        &&& forall|k: int|
            0 <= k < self.queues@.len() ==> within_limits(
                (#[trigger] self.queues@[k]).1@,
                self.max_msgs as int,
                self.max_bytes as int,
            )
    }

    /// What waits for a receiver.
    pub open spec fn waiting_for(&self, receiver: Seq<char>) -> Seq<QueuedMessage> {
        waiting(self.queues@, receiver)
    }

    /// No queues.
    pub fn new(max_msgs: usize, max_bytes: usize) -> (r: MessageQueues)
        requires
            max_msgs > 0,
        ensures
            r.wf(),
            r.queues@.len() == 0,
            r.max_msgs == max_msgs,
            r.max_bytes == max_bytes,
    {
        let r = MessageQueues { queues: Vec::new(), max_msgs, max_bytes };
        assert(receivers(r.queues@).len() == 0);
        r
    }

    fn position(&self, receiver: &str) -> (r: Option<usize>)
        ensures
            ({
                let names = receivers(self.queues@);
                match r {
                    Some(k) => k < self.queues@.len() && names.contains(receiver@) && k
                        == text::first_index(names, receiver@) && names[k as int] == receiver@,
                    None => !names.contains(receiver@),
                }
            }),
    {
        let ghost names = receivers(self.queues@);
        let mut k: usize = 0;
        while k < self.queues.len()
            invariant
                k <= self.queues@.len(),
                names == receivers(self.queues@),
                forall|j: int| 0 <= j < k ==> #[trigger] names[j] != receiver@,
            decreases self.queues@.len() - k,
        {
            assert(names[k as int] == self.queues@[k as int].0@);
            if same_text(&self.queues[k].0, receiver) {
                proof {
                    text::lemma_first_index_is(names, receiver@, k as int);
                }
                return Some(k);
            }
            k = k + 1;
        }
        None
    }

    /// Sends a message: to a receiver that is connected it is handed over at
    /// once; for another it waits, within the limits.
    pub fn send(&mut self, receiver: &str, connected: bool, message: QueuedMessage) -> (r: Option<
        QueuedMessage,
    >)
        requires
            old(self).wf(),
        ensures
            final(self).wf(),
            final(self).max_msgs == old(self).max_msgs,
            final(self).max_bytes == old(self).max_bytes,
            connected ==> r == Some(message) && *final(self) == *old(self),
            !connected ==> r is None,
            !connected ==> final(self).waiting_for(receiver@) == cut(
                old(self).waiting_for(receiver@).push(message),
                old(self).max_msgs as int,
                old(self).max_bytes as int,
            ),
            forall|other: Seq<char>| other != receiver@ ==> #[trigger] final(self).waiting_for(other)
                == old(self).waiting_for(other),
    {
        if connected {
            return Some(message);
        }
        let ghost before = self.queues@;
        let ghost names = receivers(before);
        match self.position(receiver) {
            Some(k) => {
                let (name, mut queue) = self.queues.remove(k);
                let ghost own = queue@;
                assert(own == before[k as int].1@);
                enqueue(&mut queue, message, self.max_msgs, self.max_bytes);
                proof {
                    law_queue_keeps_limits(
                        own,
                        message,
                        self.max_msgs as int,
                        self.max_bytes as int,
                    );
                }
                self.queues.insert(k, (name, queue));
                proof {
                    let after = self.queues@;
                    assert(receivers(after) =~= names);
                    assert forall|j: int| 0 <= j < after.len() implies within_limits(
                        (#[trigger] after[j]).1@,
                        self.max_msgs as int,
                        self.max_bytes as int,
                    ) by {
                        if j != k {
                            assert(after[j] == before[j]);
                        }
                    }
                    lemma_waiting_at(before, k as int);
                    lemma_waiting_at(after, k as int);
                    assert forall|other: Seq<char>| other != receiver@ implies #[trigger] waiting(
                        after,
                        other,
                    ) == waiting(before, other) by {
                        text::lemma_first_index(names, other);
                        if names.contains(other) {
                            let j = text::first_index(names, other);
                            assert(names[j] == other);
                            assert(after[j] == before[j]);
                        }
                    }
                }
                None
            },
            None => {
                let mut queue: Vec<QueuedMessage> = Vec::new();
                assert(total_size(queue@) == 0);
                proof {
                    law_queue_keeps_limits(
                        queue@,
                        message,
                        self.max_msgs as int,
                        self.max_bytes as int,
                    );
                    assert(waiting(before, receiver@) =~= queue@);
                }
                enqueue(&mut queue, message, self.max_msgs, self.max_bytes);
                self.queues.push((owned(receiver), queue));
                proof {
                    let after = self.queues@;
                    let n = before.len() as int;
                    assert(receivers(after) =~= names.push(receiver@));
                    assert forall|a: int, b: int|
                        0 <= a < after.len() && 0 <= b < after.len() && a != b implies receivers(
                        after,
                    )[a] != receivers(after)[b] by {
                        if a == n {
                            assert(names[b] == receivers(after)[b]);
                        } else if b == n {
                            assert(names[a] == receivers(after)[a]);
                        } else {
                            assert(names[a] != names[b]);
                        }
                    }
                    assert forall|j: int| 0 <= j < n implies #[trigger] receivers(after)[j]
                        != receiver@ by {
                        assert(names[j] == receivers(after)[j]);
                    }
                    text::lemma_first_index_is(receivers(after), receiver@, n);
                    assert(receivers(after)[n] == receiver@);
                    assert forall|j: int| 0 <= j < after.len() implies within_limits(
                        (#[trigger] after[j]).1@,
                        self.max_msgs as int,
                        self.max_bytes as int,
                    ) by {
                        if j < n {
                            assert(after[j] == before[j]);
                        }
                    }
                    assert forall|other: Seq<char>| other != receiver@ implies #[trigger] waiting(
                        after,
                        other,
                    ) == waiting(before, other) by {
                        text::lemma_first_index(names, other);
                        let all = receivers(after);
                        if names.contains(other) {
                            let j = text::first_index(names, other);
                            assert forall|i: int| 0 <= i < j implies all[i] != other by {
                                assert(all[i] == names[i]);
                            }
                            assert(all[j] == names[j]);
                            text::lemma_first_index_is(all, other, j);
                            assert(after[j] == before[j]);
                        } else if all.contains(other) {
                            let j = choose|j: int| 0 <= j < all.len() && all[j] == other;
                            assert(j == n || names[j] == all[j]);
                        }
                    }
                }
                None
            },
        }
    }

    /// A receiver connects: what waited for it is handed over in its order, and
    /// waits no longer.
    pub fn take(&mut self, receiver: &str) -> (r: Vec<QueuedMessage>)
        requires
            old(self).wf(),
        ensures
            final(self).wf(),
            r@ == old(self).waiting_for(receiver@),
            final(self).waiting_for(receiver@).len() == 0,
            forall|other: Seq<char>| other != receiver@ ==> #[trigger] final(self).waiting_for(other)
                == old(self).waiting_for(other),
            final(self).max_msgs == old(self).max_msgs,
            final(self).max_bytes == old(self).max_bytes,
    {
        let ghost before = self.queues@;
        let ghost names = receivers(before);
        match self.position(receiver) {
            Some(k) => {
                let (_, queue) = self.queues.remove(k);
                proof {
                    let after = self.queues@;
                    assert(receivers(after) =~= names.remove(k as int));
                    let at = |i: int| if i < k { i } else { i + 1 };
                    assert forall|j: int| 0 <= j < after.len() implies receivers(after)[j]
                        == names[#[trigger] at(j)] by {}
                    assert forall|a: int, b: int|
                        0 <= a < after.len() && 0 <= b < after.len() && a != b implies receivers(
                        after,
                    )[a] != receivers(after)[b] by {
                        assert(receivers(after)[a] == names[at(a)]);
                        assert(receivers(after)[b] == names[at(b)]);
                    }
                    assert forall|j: int| 0 <= j < after.len() implies receivers(after)[j]
                        != receiver@ by {
                        assert(receivers(after)[j] == names[at(j)]);
                        assert(names[at(j)] != names[k as int]);
                    }
                    assert forall|j: int| 0 <= j < after.len() implies within_limits(
                        (#[trigger] after[j]).1@,
                        self.max_msgs as int,
                        self.max_bytes as int,
                    ) by {
                        assert(after[j] == before[at(j)]);
                    }
                    assert forall|other: Seq<char>| other != receiver@ implies #[trigger] waiting(
                        after,
                        other,
                    ) == waiting(before, other) by {
                        text::lemma_first_index(names, other);
                        let all = receivers(after);
                        if names.contains(other) {
                            let i = text::first_index(names, other);
                            assert(names[i] == other);
                            let j = if i < k { i } else { i - 1 };
                            assert(at(j) == i);
                            assert(all[j] == names[at(j)]);
                            lemma_waiting_at(before, i);
                            assert(after[j] == before[i]);
                            lemma_waiting_at(after, j);
                        } else if all.contains(other) {
                            let j = choose|j: int| 0 <= j < all.len() && all[j] == other;
                            assert(all[j] == names[at(j)]);
                        }
                    }
                }
                queue
            },
            None => Vec::new(),
        }
    }
}

// ---------------------------------------------------------------------------
// Property inspectors
// ---------------------------------------------------------------------------

/// A value of the environment that lets property inspectors in without a token.
pub open spec fn allows_unauthenticated(value: Option<Seq<char>>) -> bool {
    match value {
        Some(v) => v == "1"@ || text::ascii_lowered(v) == "true"@,
        None => false,
    }
}

/// Whether property inspectors are let in without a token, given the value of
/// `RIVERDECK_PI_ALLOW_UNAUTH`.
pub fn allow_unauthenticated_property_inspectors(value: &Option<String>) -> (r: bool)
    ensures
        r == allows_unauthenticated(text::opt_text(*value)),
{
    match value {
        Some(v) => {
            let l = crate::stores::to_ascii_lowercase(v);
            same_text(v, "1") || same_text(&l, "true")
        },
        None => false,
    }
}

/// The property inspectors that have shown the token.
pub fn set_property_inspector_authed(set: &mut Vec<String>, uuid: &str, authed: bool)
    ensures
        ({
            let ids = text::texts(old(set)@);
            text::texts(final(set)@) == if !authed {
                crate::local_plugins::ids_without(ids, uuid@, ids.len())
            } else if ids.contains(uuid@) {
                ids
            } else {
                ids.push(uuid@)
            }
        }),
        text::texts(final(set)@).contains(uuid@) == authed,
{
    crate::local_plugins::set_plugin_enabled(set, uuid, !authed);
    proof {
        crate::local_plugins::law_plugin_enabled(
            text::texts(old(set)@),
            uuid@,
            !authed,
            Seq::empty(),
        );
    }
}

/// Whether a property inspector may send messages.
pub fn is_property_inspector_authed(set: &Vec<String>, uuid: &str, allow_all: bool) -> (r: bool)
    ensures
        r == (allow_all || text::texts(set@).contains(uuid@)),
{
    allow_all || texts_contain(set, uuid)
}

proof fn lemma_total_size_shrinks(q: Seq<QueuedMessage>, t: int, s: int)
    requires
        0 <= t <= s <= q.len(),
    ensures
        total_size(q.skip(t)) >= total_size(q.skip(s)),
    decreases s - t,
{
    if t < s {
        lemma_total_size_shrinks(q, t + 1, s);
        assert(q.skip(t).drop_first() =~= q.skip(t + 1));
    }
}

proof fn lemma_kept_from(q: Seq<QueuedMessage>, s: int, max_msgs: int, max_bytes: int)
    requires
        0 <= s < q.len(),
    ensures
        0 <= first_kept(q, s, max_msgs, max_bytes) <= s,
        first_kept(q, s, max_msgs, max_bytes) > 0 ==> !may_stay(
            q,
            first_kept(q, s, max_msgs, max_bytes) - 1,
            max_msgs,
            max_bytes,
        ),
    decreases s,
{
    if s > 0 && may_stay(q, s - 1, max_msgs, max_bytes) {
        lemma_kept_from(q, s - 1, max_msgs, max_bytes);
    }
}

/// What stays in a queue are its newest messages, in their order, and as many as
/// can: no longer row of newest messages is within the limits.
pub proof fn law_fewest_messages_leave(
    q: Seq<QueuedMessage>,
    max_msgs: int,
    max_bytes: int,
    t: int,
)
    requires
        q.len() > 0,
        message_size(q.last()) <= max_bytes,
        0 <= t <= q.len(),
    ensures
        ({
            let r = cut(q, max_msgs, max_bytes);
            &&& 0 < r.len() <= q.len()
            &&& r == q.skip(q.len() - r.len())
            &&& q.len() - t > r.len() ==> !within_limits(q.skip(t), max_msgs, max_bytes)
        }),
{
    let n = q.len() - 1;
    lemma_kept_from(q, n, max_msgs, max_bytes);
    let f = first_kept(q, n, max_msgs, max_bytes);
    if t < f {
        lemma_total_size_shrinks(q, t, f - 1);
    }
}

/// A message counts for the bytes that are sent of it.
pub proof fn law_message_counts_its_bytes(m: QueuedMessage)
    ensures
        m matches QueuedMessage::Text(s) ==> message_size(m) == encode_utf8(s@).len(),
        m matches QueuedMessage::Binary(b) ==> message_size(m) == b@.len(),
        m is Control ==> message_size(m) == 0,
        total_size(seq![m]) == message_size(m),
{
    reveal_with_fuel(total_size, 2);
    assert(seq![m].drop_first().len() == 0);
}

/// What waits for a receiver is the queue of its name, and nothing waits for one that
/// has none.
pub proof fn law_queue_of_its_receiver(
    s: Seq<(String, Vec<QueuedMessage>)>,
    receiver: Seq<char>,
    k: int,
)
    requires
        receivers(s).no_duplicates(),
        0 <= k < s.len(),
    ensures
        s[k].0@ == receiver ==> waiting(s, receiver) == s[k].1@,
        !receivers(s).contains(receiver) ==> waiting(s, receiver).len() == 0,
{
    let names = receivers(s);
    if s[k].0@ == receiver {
        assert(names[k] == receiver);
        assert forall|j: int| 0 <= j < k implies #[trigger] names[j] != receiver by {}
        text::lemma_first_index_is(names, receiver, k);
    }
}

/// Property inspectors are let in without a token only where the environment says so.
pub proof fn law_token_is_asked_for(v: Seq<char>)
    ensures
        !allows_unauthenticated(None),
        allows_unauthenticated(Some("1"@)),
        allows_unauthenticated(Some("true"@)),
        allows_unauthenticated(Some("TRUE"@)),
        allows_unauthenticated(Some(v)) && v != "1"@ ==> text::ascii_lowered(v) == "true"@,
{
    reveal_strlit("true");
    reveal_strlit("TRUE");
    assert(text::ascii_lowered("true"@) =~= "true"@);
    assert(text::ascii_lowered("TRUE"@) =~= "true"@);
}

} // verus!
