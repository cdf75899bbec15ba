//! Offset reconciliation between the client and a server: the server's
//! bounded event log and its choice of what to reply, and the client's
//! reaction to each reply.

use vstd::prelude::*;

use crate::protocol::{CommandRequest, EventOf, EventReply};

verus! {

/// The number of events that a server's log keeps by default.
pub const MAX_EVENTS: usize = 10;

/// What a server replies with for a request.
#[derive(Debug, Clone, Copy, PartialEq, Eq, Structural)]
pub enum Selection {
    /// No event: the log is empty, or the client is caught up.
    Nothing,
    /// The log entry at this position, counted from the oldest.
    Entry(usize),
    /// The client's offset lies outside the log, which holds the offsets
    /// from the first to the second.
    Recovery(u32, u32),
}

/// The offset after `o`, wrapping to 0 after `u32::MAX`.
pub open spec fn next_offset(o: u32) -> u32 {
    if o == u32::MAX {
        0
    } else {
        (o + 1) as u32
    }
}

/// How far `a` lies after `b`, counting around the wrap of `u32`.
pub open spec fn wrap_sub(a: u32, b: u32) -> int {
    if a >= b {
        a - b
    } else {
        a - b + 0x1_0000_0000
    }
}

/// Whether `last` lies between the oldest and the newest offsets of a
/// non-empty log, counting around the wrap.
pub open spec fn in_window(offsets: Seq<u32>, last: u32) -> bool {
    offsets.len() > 0 && wrap_sub(last, offsets[0]) <= wrap_sub(offsets.last(), offsets[0])
}

/// The first position at which `x` occurs in `s`.
pub open spec fn first_index(s: Seq<u32>, x: u32) -> Option<nat>
    decreases s.len(),
{
    if s.len() == 0 {
        None
    } else if s[0] == x {
        Some(0)
    } else {
        match first_index(s.drop_first(), x) {
            Some(i) => Some(i + 1),
            None => None,
        }
    }
}

/// What a server with a log of these offsets, oldest first, replies to a
/// client whose last offset is `last`: nothing for an empty log; the
/// log's range when `last` lies outside it; otherwise the entry after
/// `last`, or nothing when the client is caught up, or else the oldest
/// entry.
pub open spec fn select(offsets: Seq<u32>, last: u32) -> Selection {
    if offsets.len() == 0 {
        Selection::Nothing
    } else if !in_window(offsets, last) {
        Selection::Recovery(offsets[0], offsets.last())
    } else {
        match first_index(offsets, next_offset(last)) {
            Some(i) => Selection::Entry(i as usize),
            None => if first_index(offsets, last) is Some {
                Selection::Nothing
            } else {
                Selection::Entry(0)
            },
        }
    }
}

proof fn lemma_first_index_at(s: Seq<u32>, x: u32, i: int)
    requires
        0 <= i < s.len(),
        s[i] == x,
        forall|j: int| 0 <= j < i ==> s[j] != x,
    ensures
        first_index(s, x) == Some(i as nat),
    decreases i,
{
    if i > 0 {
        lemma_first_index_at(s.drop_first(), x, i - 1);
    }
}

proof fn lemma_first_index_none(s: Seq<u32>, x: u32)
    requires
        forall|j: int| 0 <= j < s.len() ==> s[j] != x,
    ensures
        first_index(s, x) is None,
    decreases s.len(),
{
    if s.len() > 0 {
        lemma_first_index_none(s.drop_first(), x);
    }
}

fn find_offset(s: &[u32], x: u32) -> (r: Option<usize>)
    ensures
        match first_index(s@, x) {
            Some(i) => r == Some(i as usize),
            None => r is None,
        },
{
    let mut i: usize = 0;
    while i < s.len()
        invariant
            i <= s@.len(),
            forall|j: int| 0 <= j < i ==> s@[j] != x,
        decreases s.len() - i,
    {
        if s[i] == x {
            proof {
                lemma_first_index_at(s@, x, i as int);
            }
            return Some(i);
        }
        i = i + 1;
    }
    proof {
        lemma_first_index_none(s@, x);
    }
    None
}

fn wrapping_distance(a: u32, b: u32) -> (r: u32)
    ensures
        r == wrap_sub(a, b),
{
    if a >= b {
        a - b
    } else {
        (u32::MAX - b) + a + 1
    }
}

/// Chooses what to reply to a client whose last offset is `last`, given
/// the offsets of the log, oldest first.
pub fn select_reply(offsets: &[u32], last: u32) -> (r: Selection)
    ensures
        r == select(offsets@, last),
{
    if offsets.len() == 0 {
        return Selection::Nothing;
    }
    let start = offsets[0];
    let end = offsets[offsets.len() - 1];
    if wrapping_distance(last, start) > wrapping_distance(end, start) {
        return Selection::Recovery(start, end);
    }
    let next = if last == u32::MAX {
        0
    } else {
        last + 1
    };
    match find_offset(offsets, next) {
        Some(i) => Selection::Entry(i),
        None => match find_offset(offsets, last) {
            Some(_) => Selection::Nothing,
            None => Selection::Entry(0),
        },
    }
}

/// The offsets of a log's entries, oldest first.
pub open spec fn offsets_of<E>(entries: Seq<(E, u32, u64)>) -> Seq<u32> {
    entries.map_values(|e: (E, u32, u64)| e.1)
}

/// A log after appending an entry, the oldest entry dropped when the log
/// would hold more than `capacity`.
pub open spec fn appended<E>(entries: Seq<(E, u32, u64)>, item: (E, u32, u64), capacity: nat) -> Seq<
    (E, u32, u64),
> {
    let l = entries.push(item);
    if l.len() > capacity {
        l.drop_first()
    } else {
        l
    }
}

/// A server's log of events: each with its offset and the time it was
/// logged, oldest first, holding at most a fixed number of entries.
pub struct EventLog<E> {
    entries: Vec<(E, u32, u64)>,
    capacity: usize,
    next: u32,
}

impl<E> EventLog<E> {
    /// The entries, oldest first.
    pub closed spec fn entries(&self) -> Seq<(E, u32, u64)> {
        self.entries@
    }

    /// The largest number of entries kept.
    pub closed spec fn capacity(&self) -> nat {
        self.capacity as nat
    }

    /// The offset that the next appended event gets.
    pub closed spec fn next_offset(&self) -> u32 {
        self.next
    }

    pub open spec fn wf(&self) -> bool {
        1 <= self.capacity() && self.entries().len() <= self.capacity()
    }

    /// An empty log that keeps up to `capacity` events, the first of which
    /// gets the offset `start_offset`.
    pub fn new(capacity: usize, start_offset: u32) -> (r: Self)
        requires
            capacity >= 1,
        ensures
            r.wf(),
            r.entries() == Seq::<(E, u32, u64)>::empty(),
            r.capacity() == capacity,
            r.next_offset() == start_offset,
    {
        EventLog { entries: Vec::new(), capacity, next: start_offset }
    }

    /// The number of entries.
    pub fn len(&self) -> (r: usize)
        ensures
            r == self.entries().len(),
    {
        self.entries.len()
    }

    /// The entry at a position, counted from the oldest.
    pub fn get(&self, i: usize) -> (r: &(E, u32, u64))
        requires
            i < self.entries().len(),
        ensures
            *r == self.entries()[i as int],
    {
        &self.entries[i]
    }

    /// Logs an event at a time under the next offset, which then advances by
    /// one, wrapping after `u32::MAX`. When the log is full its oldest entry
    /// is dropped.
    pub fn append(&mut self, event: E, time: u64)
        requires
            old(self).wf(),
        ensures
            final(self).wf(),
            final(self).capacity() == old(self).capacity(),
            final(self).entries() == appended(
                old(self).entries(),
                (event, old(self).next_offset(), time),
                old(self).capacity(),
            ),
            final(self).next_offset() == next_offset(old(self).next_offset()),
    {
        let offset = self.next;
        self.entries.push((event, offset, time));
        if self.entries.len() > self.capacity {
            self.entries.remove(0);
        }
        self.next = if offset == u32::MAX {
            0
        } else {
            offset + 1
        };
    }

    /// Forgets every entry and starts again at `start_offset`, as a server
    /// does when it restarts.
    pub fn reset(&mut self, start_offset: u32)
        requires
            old(self).wf(),
        ensures
            final(self).wf(),
            final(self).capacity() == old(self).capacity(),
            final(self).entries() == Seq::<(E, u32, u64)>::empty(),
            final(self).next_offset() == start_offset,
    {
        self.entries.clear();
        self.next = start_offset;
    }

    /// Chooses what to reply to a client whose last offset is `last`.
    pub fn select(&self, last: u32) -> (r: Selection)
        ensures
            r == select(offsets_of(self.entries()), last),
    {
        let mut offsets: Vec<u32> = Vec::new();
        let mut i: usize = 0;
        while i < self.entries.len()
            invariant
                i <= self.entries@.len(),
                offsets@ == offsets_of(self.entries@.take(i as int)),
            decreases self.entries.len() - i,
        {
            offsets.push(self.entries[i].1);
            assert(offsets_of(self.entries@.take(i + 1)) =~= offsets_of(
                self.entries@.take(i as int),
            ).push(self.entries@[i as int].1));
            i = i + 1;
        }
        assert(self.entries@.take(i as int) =~= self.entries@);
        select_reply(offsets.as_slice(), last)
    }
}

impl<E: Copy> EventLog<E> {
    /// The reply to a client whose last offset is `last` at time `now`: the
    /// chosen entry as a logged event with its age, the log's range as a
    /// recovery event with an age of 0, or no event with an age of 0. An
    /// entry logged after `now` has an age of 0.
    pub fn reply<EE>(&self, last: u32, now: u64) -> (r: EventReply<EventOf<E, EE>>)
        requires
            self.wf(),
        ensures
            match select(offsets_of(self.entries()), last) {
                Selection::Nothing => r.delta_ticks == 0 && r.event is None,
                Selection::Recovery(s, e) => r.delta_ticks == 0 && r.event == Some(
                    EventOf::<E, EE>::Recovery(s, e),
                ),
                Selection::Entry(i) => {
                    let (e, o, t) = self.entries()[i as int];
                    &&& r.event == Some(EventOf::<E, EE>::Logged(e, o))
                    &&& r.delta_ticks == if now >= t {
                        (now - t) as u64
                    } else {
                        0
                    }
                },
            },
    {
        match self.select(last) {
            Selection::Nothing => EventReply { delta_ticks: 0, event: None },
            Selection::Recovery(s, e) => EventReply {
                delta_ticks: 0,
                event: Some(EventOf::Recovery(s, e)),
            },
            Selection::Entry(i) => {
                proof {
                    lemma_select_entry_in_range(offsets_of(self.entries()), last);
                }
                let (e, o, t) = self.entries[i];
                let age = if now >= t {
                    now - t
                } else {
                    0
                };
                EventReply { delta_ticks: age, event: Some(EventOf::Logged(e, o)) }
            },
        }
    }
}

proof fn lemma_first_index_range(s: Seq<u32>, x: u32)
    ensures
        first_index(s, x) matches Some(i) ==> i < s.len() && s[i as int] == x,
    decreases s.len(),
{
    if s.len() > 0 {
        lemma_first_index_range(s.drop_first(), x);
    }
}

proof fn lemma_select_entry_in_range(offsets: Seq<u32>, last: u32)
    ensures
        select(offsets, last) matches Selection::Entry(i) ==> i < offsets.len(),
{
    lemma_first_index_range(offsets, next_offset(last));
}

/// What the client keeps of one server.
#[derive(Debug, Clone, Copy, PartialEq, Eq, Structural)]
pub struct ClientState {
    /// The offset of the last logged event taken from the server.
    pub last_event_offset: u32,
    /// Whether the client is waiting for the server to confirm that it is
    /// caught up; meanwhile it sends no commands.
    pub init_mode: bool,
    /// The number of events taken in sequence since the last reset.
    pub event_count: u32,
}

/// The count after `c`, wrapping to 0 after `u32::MAX`.
pub open spec fn next_count(c: u32) -> u32 {
    if c == u32::MAX {
        0
    } else {
        (c + 1) as u32
    }
}

/// How the client takes a reply's event: with none, the server has
/// confirmed that the client is caught up; a logged event with the offset
/// after the last is taken; a logged event with any other offset, or a
/// recovery event, means that the server's log moved on or restarted, so
/// the client forgets what it counted and starts again from that offset
/// (the first of the recovery range); an ephemeral event changes nothing.
pub open spec fn client_step<E, EE>(c: ClientState, event: Option<EventOf<E, EE>>) -> ClientState {
    match event {
        None => ClientState { init_mode: false, ..c },
        Some(EventOf::Logged(_, off)) => if off == next_offset(c.last_event_offset) {
            ClientState {
                last_event_offset: off,
                event_count: next_count(c.event_count),
                ..c
            }
        } else {
            ClientState { last_event_offset: off, init_mode: true, event_count: 0 }
        },
        Some(EventOf::Recovery(start, _)) => ClientState {
            last_event_offset: start,
            init_mode: true,
            event_count: 0,
        },
        Some(EventOf::Ephemeral(_)) => c,
    }
}

impl ClientState {
    /// A client that knows nothing of the server yet.
    pub fn new() -> (r: ClientState)
        ensures
            r == (ClientState { last_event_offset: 0, init_mode: true, event_count: 0 }),
    {
        ClientState { last_event_offset: 0, init_mode: true, event_count: 0 }
    }

    /// The request to send: the last offset, and the command unless the
    /// client is waiting for the server to confirm that it is caught up.
    pub fn request<C>(&self, command: C) -> (r: CommandRequest<C>)
        ensures
            r.last_event_offset == self.last_event_offset,
            r.command == if self.init_mode {
                None
            } else {
                Some(command)
            },
    {
        CommandRequest {
            last_event_offset: self.last_event_offset,
            command: if self.init_mode {
                None
            } else {
                Some(command)
            },
        }
    }

    /// Takes the event of a server's reply.
    pub fn on_event<E, EE>(&mut self, event: &Option<EventOf<E, EE>>)
        ensures
            *final(self) == client_step(*old(self), *event),
    {
        match event {
            None => {
                self.init_mode = false;
            },
            Some(EventOf::Logged(_, off)) => {
                let expected = if self.last_event_offset == u32::MAX {
                    0
                } else {
                    self.last_event_offset + 1
                };
                if *off == expected {
                    self.last_event_offset = *off;
                    self.event_count = if self.event_count == u32::MAX {
                        0
                    } else {
                        self.event_count + 1
                    };
                } else {
                    self.last_event_offset = *off;
                    self.init_mode = true;
                    self.event_count = 0;
                }
            },
            Some(EventOf::Recovery(start, _)) => {
                self.last_event_offset = *start;
                self.init_mode = true;
                self.event_count = 0;
            },
            Some(EventOf::Ephemeral(_)) => {},
        }
    }
}

/// The event that a client sees when it polls a server whose log holds
/// these offsets, oldest first.
pub open spec fn observed(offsets: Seq<u32>, last: u32) -> Option<EventOf<(), ()>> {
    match select(offsets, last) {
        Selection::Nothing => None,
        Selection::Entry(i) => Some(EventOf::Logged((), offsets[i as int])),
        Selection::Recovery(s, e) => Some(EventOf::Recovery(s, e)),
    }
}

/// The client after one poll of a server whose log holds these offsets,
/// with no datagram lost.
pub open spec fn poll(c: ClientState, offsets: Seq<u32>) -> ClientState {
    client_step(c, observed(offsets, c.last_event_offset))
}

/// The client after `n` polls of a server whose log does not change.
pub open spec fn polls(c: ClientState, offsets: Seq<u32>, n: nat) -> ClientState
    decreases n,
{
    if n == 0 {
        c
    } else {
        polls(poll(c, offsets), offsets, (n - 1) as nat)
    }
}

/// Whether each offset of a log is the one after the offset before it,
/// and the log is shorter than the span of `u32`.
pub open spec fn consecutive(offsets: Seq<u32>) -> bool {
    &&& offsets.len() < 0x1_0000_0000
    &&& forall|i: int|
        1 <= i < offsets.len() ==> #[trigger] offsets[i] == next_offset(offsets[i - 1])
}

proof fn lemma_consecutive_at(offsets: Seq<u32>, i: int)
    requires
        consecutive(offsets),
        0 <= i < offsets.len(),
    ensures
        offsets[i] as int == if offsets[0] + i < 0x1_0000_0000 {
            offsets[0] + i
        } else {
            offsets[0] + i - 0x1_0000_0000
        },
    decreases i,
{
    if i > 0 {
        lemma_consecutive_at(offsets, i - 1);
    }
}

proof fn lemma_consecutive_distinct(offsets: Seq<u32>, i: int, j: int)
    requires
        consecutive(offsets),
        0 <= i < offsets.len(),
        0 <= j < offsets.len(),
        i != j,
    ensures
        offsets[i] != offsets[j],
{
    lemma_consecutive_at(offsets, i);
    lemma_consecutive_at(offsets, j);
}

/// In a log of consecutive offsets, a poll by a client whose last offset is
/// the `k`-th of the log gives the next entry, which the client takes,
/// counting one more event; at the newest entry the server says that the
/// client is caught up, which ends its wait, and the offset stays.
pub proof fn lemma_poll_advances(c: ClientState, offsets: Seq<u32>, k: int)
    requires
        consecutive(offsets),
        0 <= k < offsets.len(),
        c.last_event_offset == offsets[k],
    ensures
        k + 1 < offsets.len() ==> poll(c, offsets) == (ClientState {
            last_event_offset: offsets[k + 1],
            event_count: next_count(c.event_count),
            ..c
        }),
        k + 1 == offsets.len() ==> poll(c, offsets) == (ClientState { init_mode: false, ..c }),
{
    let n = offsets.len() as int;
    let last = c.last_event_offset;
    lemma_consecutive_at(offsets, k);
    lemma_consecutive_at(offsets, n - 1);
    assert(offsets.last() == offsets[n - 1]);
    assert(in_window(offsets, last));
    if k + 1 < n {
        assert(offsets[k + 1] == next_offset(offsets[k]));
        assert forall|j: int| 0 <= j < k + 1 implies offsets[j] != next_offset(last) by {
            lemma_consecutive_distinct(offsets, j, k + 1);
        }
        lemma_first_index_at(offsets, next_offset(last), k + 1);
    } else {
        assert forall|j: int| 0 <= j < n implies offsets[j] != next_offset(last) by {
            lemma_consecutive_at(offsets, j);
            lemma_consecutive_at(offsets, 0);
        }
        lemma_first_index_none(offsets, next_offset(last));
        assert forall|j: int| 0 <= j < k implies offsets[j] != last by {
            lemma_consecutive_distinct(offsets, j, k);
        }
        lemma_first_index_at(offsets, last, k);
    }
}

/// With no datagram lost and a log of consecutive offsets, a client whose
/// last offset is the `k`-th of the log reaches the newest offset after
/// one poll per newer entry, counting one event for each of those polls,
/// and without a reset on the way.
pub proof fn lemma_polls_reach_newest(c: ClientState, offsets: Seq<u32>, k: int)
    requires
        consecutive(offsets),
        0 <= k < offsets.len(),
        c.last_event_offset == offsets[k],
    ensures
        ({
            let n = (offsets.len() - 1 - k) as nat;
            let r = polls(c, offsets, n);
            &&& r.last_event_offset == offsets.last()
            &&& r.event_count as int == (c.event_count + n) % 0x1_0000_0000
            &&& r.init_mode == c.init_mode
        }),
    decreases offsets.len() - k,
{
    let n = (offsets.len() - 1 - k) as nat;
    if n == 0 {
        assert(polls(c, offsets, 0) == c);
    } else {
        lemma_poll_advances(c, offsets, k);
        let c1 = poll(c, offsets);
        lemma_polls_reach_newest(c1, offsets, k + 1);
        assert(polls(c, offsets, n) == polls(c1, offsets, (n - 1) as nat));
        lemma_count_wraps(c.event_count, (n - 1) as nat);
    }
}

proof fn lemma_count_wraps(x: u32, m: nat)
    ensures
        (next_count(x) + m) % 0x1_0000_0000 == (x + 1 + m) % 0x1_0000_0000,
{
    if x == u32::MAX {
        vstd::arithmetic::div_mod::lemma_mod_add_multiples_vanish(m as int, 0x1_0000_0000);
    }
}

/// When a server restarts with a log of consecutive offsets that does not
/// reach back to the client's last offset, the client's next poll gets the
/// log's range and resets once: it forgets its count, waits for the server
/// to confirm that it is caught up, and takes the oldest offset as its
/// last; from there each poll takes the next entry without another reset,
/// until the newest.
pub proof fn lemma_restart_resets_once(c: ClientState, offsets: Seq<u32>)
    requires
        consecutive(offsets),
        offsets.len() > 0,
        !in_window(offsets, c.last_event_offset),
    ensures
        poll(c, offsets) == (ClientState {
            last_event_offset: offsets[0],
            init_mode: true,
            event_count: 0,
        }),
        ({
            let n = (offsets.len() - 1) as nat;
            let r = polls(poll(c, offsets), offsets, n);
            &&& r.last_event_offset == offsets.last()
            &&& r.event_count == n
            &&& r.init_mode
        }),
{
    lemma_polls_reach_newest(poll(c, offsets), offsets, 0);
    vstd::arithmetic::div_mod::lemma_small_mod((offsets.len() - 1) as nat, 0x1_0000_0000);
}

} // verus!
