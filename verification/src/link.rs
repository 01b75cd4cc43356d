//! The state of the link to a Stratum server, over all its connections.

use crate::stratum::RequestTable;
use vstd::prelude::*;

verus! {

/// What a link is: the number of its connection, whether that one is up, and
/// the requests that wait for a reply.
pub struct LinkView {
    pub generation: u64,
    pub connected: bool,
    pub next: u64,
    pub waiting: Set<u64>,
}

impl LinkView {
    /// The link once its connection is up.
    pub open spec fn opened(self) -> LinkView {
        LinkView { connected: true, ..self }
    }

    /// The link once its connection is down.
    pub open spec fn refused(self) -> LinkView {
        LinkView { connected: false, ..self }
    }

    /// The link while it changes to another connection: nothing waits for the
    /// old one any more.
    pub open spec fn reconnecting(self) -> LinkView {
        LinkView {
            generation: (self.generation + 1) as u64,
            connected: false,
            waiting: Set::empty(),
            ..self
        }
    }

    /// The link after it has made another request.
    pub open spec fn begun(self) -> LinkView {
        LinkView {
            next: (self.next + 1) as u64,
            waiting: self.waiting.insert(self.next),
            ..self
        }
    }

    /// The link after it has stopped to wait for a reply.
    pub open spec fn withdrawn(self, id: u64) -> LinkView {
        LinkView { waiting: self.waiting.remove(id), ..self }
    }

    /// The link after the reader of a connection has ended.
    pub open spec fn ended(self, generation: u64) -> LinkView {
        if self.generation == generation {
            LinkView { connected: false, waiting: Set::empty(), ..self }
        } else {
            self
        }
    }

    /// The link after the reader of a connection has read a reply.
    pub open spec fn replied(self, generation: u64, id: u64) -> LinkView {
        if self.generation == generation {
            self.withdrawn(id)
        } else {
            self
        }
    }
}

/// A link to a server.  Connections are numbered; only what the reader of the
/// latest one sees counts.
pub struct Link {
    generation: u64,
    connected: bool,
    requests: RequestTable,
}

impl View for Link {
    type V = LinkView;

    closed spec fn view(&self) -> LinkView {
        LinkView {
            generation: self.generation,
            connected: self.connected,
            next: self.requests.next(),
            waiting: self.requests.waiting(),
        }
    }
}

impl Link {
    /// Whether only requests that were made wait for a reply.
    pub closed spec fn valid(self) -> bool {
        self.requests.valid()
    }

    /// A link whose first connection is not up yet.
    pub fn new() -> (link: Link)
        ensures
            link.valid(),
            link@ == (LinkView {
                generation: 1,
                connected: false,
                next: 1,
                waiting: Set::empty(),
            }),
    {
        Link { generation: 1, connected: false, requests: RequestTable::new() }
    }

    /// The number of the latest connection.
    pub fn generation(&self) -> (generation: u64)
        ensures
            generation == self@.generation,
    {
        self.generation
    }

    /// Whether the latest connection is up.
    pub fn is_connected(&self) -> (connected: bool)
        ensures
            connected == self@.connected,
    {
        self.connected
    }

    /// Whether a connection is the latest one.
    pub fn is_current(&self, generation: u64) -> (current: bool)
        ensures
            current == (self@.generation == generation),
    {
        self.generation == generation
    }

    /// Marks the latest connection as up.
    pub fn opened(&mut self)
        requires
            old(self).valid(),
        ensures
            final(self).valid(),
            final(self)@ == old(self)@.opened(),
    {
        self.connected = true;
    }

    /// Marks the latest connection as down, as when the login failed.
    pub fn refused(&mut self)
        requires
            old(self).valid(),
        ensures
            final(self).valid(),
            final(self)@ == old(self)@.refused(),
    {
        self.connected = false;
    }

    /// Gives up the latest connection for another one, whose number it returns.
    pub fn reconnecting(&mut self) -> (generation: u64)
        requires
            old(self).valid(),
            old(self)@.generation < u64::MAX,
        ensures
            final(self).valid(),
            final(self)@ == old(self)@.reconnecting(),
            generation == final(self)@.generation,
    {
        self.generation = self.generation + 1;
        self.connected = false;
        self.requests.abandon();
        self.generation
    }

    /// Gives the next request its id and waits for its reply.  There is none
    /// once all ids are used.
    pub fn begin(&mut self) -> (id: Option<u64>)
        requires
            old(self).valid(),
        ensures
            final(self).valid(),
            match id {
                Some(id) => old(self)@.next < u64::MAX && id == old(self)@.next
                    && !old(self)@.waiting.contains(id) && final(self)@ == old(self)@.begun(),
                None => old(self)@.next == u64::MAX && final(self)@ == old(self)@,
            },
    {
        if self.requests.has_ids() {
            Some(self.requests.begin())
        } else {
            None
        }
    }

    /// Ends the wait for the reply to a request that could not be sent, or that
    /// was waited for too long.
    pub fn withdraw(&mut self, id: u64)
        requires
            old(self).valid(),
        ensures
            final(self).valid(),
            final(self)@ == old(self)@.withdrawn(id),
    {
        self.requests.settle(id);
    }

    /// Takes note that the reader of a connection has ended.  Says whether it
    /// was that of the latest one, which is then down.
    pub fn ended(&mut self, generation: u64) -> (current: bool)
        requires
            old(self).valid(),
        ensures
            final(self).valid(),
            current == (old(self)@.generation == generation),
            final(self)@ == old(self)@.ended(generation),
    {
        if self.generation == generation {
            self.connected = false;
            self.requests.abandon();
            true
        } else {
            false
        }
    }

    /// Takes a reply that the reader of a connection has read.  Says whether it
    /// is one that is waited for.
    pub fn replied(&mut self, generation: u64, id: u64) -> (waited: bool)
        requires
            old(self).valid(),
        ensures
            final(self).valid(),
            waited == (old(self)@.generation == generation && old(self)@.waiting.contains(id)),
            final(self)@ == old(self)@.replied(generation, id),
    {
        if self.generation == generation {
            self.requests.settle(id)
        } else {
            false
        }
    }
}

/// Once a link has changed to another connection, the reader of an older one can
/// neither take it down nor settle a request.
pub proof fn lemma_old_readers_change_nothing(
    before: LinkView,
    now: LinkView,
    generation: u64,
    id: u64,
)
    requires
        before.generation < u64::MAX,
        generation <= before.generation,
        now.generation >= before.reconnecting().generation,
    ensures
        now.ended(generation) == now,
        now.replied(generation, id) == now,
{
}

/// A request waits from when it is made until its reply is read, and the reply
/// settles that request alone.
pub proof fn lemma_replies_settle_their_request(link: LinkView)
    requires
        link.next < u64::MAX,
        !link.waiting.contains(link.next),
    ensures
        link.begun().waiting.contains(link.next),
        link.begun().replied(link.generation, link.next).waiting == link.waiting,
        link.begun().next > link.next,
{
    assert(link.waiting.insert(link.next).remove(link.next) =~= link.waiting);
}

/// After a connection is lost, or given up for another one, nothing waits for
/// its replies.
pub proof fn lemma_lost_connections_leave_no_waits(link: LinkView)
    requires
        link.generation < u64::MAX,
    ensures
        link.ended(link.generation).waiting == Set::<u64>::empty(),
        !link.ended(link.generation).connected,
        link.reconnecting().waiting == Set::<u64>::empty(),
        !link.reconnecting().connected,
        link.reconnecting().generation > link.generation,
{
}

/// Opening and refusing a connection say whether it is up and nothing else.
pub proof fn lemma_states_of_a_connection_touch_no_request(link: LinkView)
    ensures
        link.opened().connected,
        !link.refused().connected,
        link.opened().generation == link.generation && link.refused().generation
            == link.generation,
        link.opened().next == link.next && link.refused().next == link.next,
        link.opened().waiting == link.waiting && link.refused().waiting == link.waiting,
{
}

/// Settling or withdrawing a request leaves every other one waiting, and leaves
/// the connection as it is.
pub proof fn lemma_other_requests_go_on_waiting(link: LinkView, id: u64, other: u64)
    requires
        other != id,
    ensures
        link.withdrawn(id).waiting.contains(other) == link.waiting.contains(other),
        link.replied(link.generation, id).waiting.contains(other) == link.waiting.contains(other),
        !link.withdrawn(id).waiting.contains(id),
        !link.replied(link.generation, id).waiting.contains(id),
        link.withdrawn(id).connected == link.connected,
        link.withdrawn(id).generation == link.generation,
        link.replied(link.generation, id).connected == link.connected,
        link.replied(link.generation, id).generation == link.generation,
        link.next < u64::MAX && other != link.next ==> link.begun().waiting.contains(other)
            == link.waiting.contains(other),
        link.begun().connected == link.connected,
        link.begun().generation == link.generation,
{
}

/// Ids are given out one after the other and never again: a new request takes
/// the next one, and nothing else, not even another connection, moves it.
pub proof fn lemma_ids_are_given_out_once(link: LinkView, generation: u64, id: u64)
    requires
        link.next < u64::MAX,
        link.generation < u64::MAX,
    ensures
        link.begun().next == link.next + 1,
        link.withdrawn(id).next == link.next,
        link.replied(generation, id).next == link.next,
        link.ended(generation).next == link.next,
        link.reconnecting().next == link.next,
        link.reconnecting().generation == link.generation + 1,
        link.ended(generation).generation == link.generation,
{
}

} // verus!
