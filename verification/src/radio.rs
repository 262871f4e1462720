//! Where packets go and come from: the radio, and the loopback radio that is
//! the server on an in-process link.

use crate::error::Error;
use crate::session;
use crate::session::{Response, Session, SessionView};
use std::collections::VecDeque;
use std::time::Duration;
use vstd::prelude::*;

verus! {

/// Something that passed over a radio, and how it went.
pub enum Event {
    /// A packet was put on the link, or refused by it.
    Transmitted { packet: Seq<u8>, outcome: Result<(), Error> },
    /// A packet was waited for: it came, or nothing did, or the link could
    /// not be read.
    Received { timeout: Duration, received: Result<Option<Seq<u8>>, Error> },
    /// The next Stream that the server on the link took was asked for.
    Collected { stream: Option<(u8, Seq<u8>)> },
}

/// What was received, its bytes a sequence.
pub open spec fn received_view(received: Result<Option<Vec<u8>>, Error>) -> Result<
    Option<Seq<u8>>,
    Error,
> {
    match received {
        Ok(Some(packet)) => Ok(Some(packet@)),
        Ok(None) => Ok(None),
        Err(error) => Err(error),
    }
}

/// Where packets go and come from: one ACL link. A radio says what its log, its
/// invariant and its names are, and what is proved of a transport holds on a
/// radio that keeps to the contracts below. The bodies given here let a radio
/// outside the proofs leave them out; nothing is proved of such a radio, whose
/// log would stay empty whatever passed over it.
pub trait Radio: Send + Sync {
    /// All that has passed over the radio, in order.
    closed spec fn log(&self) -> Seq<Event> {
        Seq::empty()
    }

    /// What the radio keeps true of itself.
    closed spec fn wf(&self) -> bool {
        true
    }

    /// The radio's name.
    closed spec fn called(&self) -> Seq<char> {
        Seq::empty()
    }

    /// What the radio was called after each thing that passed over it, in
    /// order: a name may change.
    closed spec fn names(&self) -> Seq<Seq<char>> {
        Seq::empty()
    }

    /// The radio's name, for the origin URI.
    fn name(&self) -> (name: &str)
        ensures
            name@ == self.called(),
    ;

    /// Put a packet on the link; an error is where the link refused it.
    fn transmit(&mut self, packet: &[u8]) -> (outcome: Result<(), Error>)
        requires
            old(self).wf(),
        ensures
            final(self).wf(),
            final(self).log() == old(self).log().push(
                Event::Transmitted { packet: packet@, outcome },
            ),
            final(self).names() == old(self).names().push(final(self).called()),
    ;

    /// The next packet, or `None` when nothing arrived within `timeout`; an
    /// error is where the link could not be read.
    fn receive(&mut self, timeout: Duration) -> (received: Result<Option<Vec<u8>>, Error>)
        requires
            old(self).wf(),
        ensures
            final(self).wf(),
            final(self).log() == old(self).log().push(
                Event::Received { timeout, received: received_view(received) },
            ),
            final(self).names() == old(self).names().push(final(self).called()),
    ;
}

/// The server on an in-process link: what the client transmits, the
/// session answers, and the answer is what the client receives next.
pub struct LoopbackRadio {
    session: Session,
    to_client: VecDeque<Vec<u8>>,
    arrived: VecDeque<(u8, Vec<u8>)>,
    log: Ghost<Seq<Event>>,
}

/// A loopback radio's state: the server's session, what waits for the client,
/// and the Streams that data links delivered.
#[verifier::ext_equal]
pub struct LoopbackView {
    pub session: SessionView,
    pub to_client: Seq<Seq<u8>>,
    pub arrived: Seq<(u8, Seq<u8>)>,
}

/// A Stream, its bytes a sequence.
pub open spec fn delivered_view(stream: (u8, Vec<u8>)) -> (u8, Seq<u8>) {
    (stream.0, stream.1@)
}

impl View for LoopbackRadio {
    type V = LoopbackView;

    closed spec fn view(&self) -> LoopbackView {
        LoopbackView {
            session: self.session@,
            to_client: session::packets_view(self.to_client@),
            arrived: self.arrived@.map_values(|stream: (u8, Vec<u8>)| delivered_view(stream)),
        }
    }
}

impl LoopbackView {
    /// Nobody has connected, and nothing waits on either side.
    pub open spec fn fresh() -> LoopbackView {
        LoopbackView {
            session: SessionView::fresh(),
            to_client: Seq::empty(),
            arrived: Seq::empty(),
        }
    }

    /// Nobody is connected, and nothing waits for the client.
    pub open spec fn idle(self) -> bool {
        self.session == SessionView::fresh() && self.to_client.len() == 0
    }

    /// The state a transmitted packet leaves, and how it went: what the
    /// session has to say waits for the client, what it took whole has
    /// arrived, and what it refuses is refused.
    pub open spec fn transmitted(self, packet: Seq<u8>) -> (LoopbackView, Result<(), Error>) {
        match self.session.handled(packet) {
            (next, Err(error)) => (LoopbackView { session: next, ..self }, Err(error)),
            (next, Ok(response)) => (
                LoopbackView {
                    session: next,
                    to_client: self.to_client + response.answers,
                    arrived: match response.complete {
                        Some(stream) => self.arrived.push(stream),
                        None => self.arrived,
                    },
                },
                Ok(()),
            ),
        }
    }

    /// The state a reception leaves, and what is received: the oldest packet
    /// that waits.
    pub open spec fn received(self) -> (LoopbackView, Option<Seq<u8>>) {
        if self.to_client.len() == 0 {
            (self, None)
        } else {
            (
                LoopbackView { to_client: self.to_client.drop_first(), ..self },
                Some(self.to_client[0]),
            )
        }
    }

    /// The state a collection leaves, and what is collected: the oldest
    /// Stream that arrived.
    pub open spec fn collected(self) -> (LoopbackView, Option<(u8, Seq<u8>)>) {
        if self.arrived.len() == 0 {
            (self, None)
        } else {
            (LoopbackView { arrived: self.arrived.drop_first(), ..self }, Some(self.arrived[0]))
        }
    }

    /// The state an event leaves.
    pub open spec fn after(self, event: Event) -> LoopbackView {
        match event {
            Event::Transmitted { packet, .. } => self.transmitted(packet).0,
            Event::Received { .. } => self.received().0,
            Event::Collected { .. } => self.collected().0,
        }
    }

    /// Whether an event went as a loopback radio in this state lets it go.
    pub open spec fn admits(self, event: Event) -> bool {
        match event {
            Event::Transmitted { packet, outcome } => outcome == self.transmitted(packet).1,
            Event::Received { received, .. } => received == Ok::<Option<Seq<u8>>, Error>(
                self.received().1,
            ),
            Event::Collected { stream } => stream == self.collected().1,
        }
    }

    /// The state several events leave.
    pub open spec fn after_all(self, events: Seq<Event>) -> LoopbackView
        decreases events.len(),
    {
        if events.len() == 0 {
            self
        } else {
            self.after_all(events.drop_last()).after(events.last())
        }
    }

    /// Whether several events, one after the other, went as a loopback radio
    /// lets them go.
    pub open spec fn admits_all(self, events: Seq<Event>) -> bool
        decreases events.len(),
    {
        events.len() == 0 || {
            &&& self.admits_all(events.drop_last())
            &&& self.after_all(events.drop_last()).admits(events.last())
        }
    }
}

/// Events followed by events leave what the second leave of what the first
/// leave.
pub proof fn lemma_after_all_append(state: LoopbackView, first: Seq<Event>, second: Seq<Event>)
    ensures
        state.after_all(first + second) == state.after_all(first).after_all(second),
        state.admits_all(first + second) == (state.admits_all(first) && state.after_all(
            first,
        ).admits_all(second)),
    decreases second.len(),
{
    if second.len() == 0 {
        assert(first + second =~= first);
    } else {
        lemma_after_all_append(state, first, second.drop_last());
        assert((first + second).drop_last() =~= first + second.drop_last());
        assert((first + second).last() == second.last());
    }
}

/// One event, then more.
pub(crate) proof fn lemma_after_first(state: LoopbackView, events: Seq<Event>)
    requires
        events.len() > 0,
    ensures
        state.after_all(events) == state.after(events[0]).after_all(events.skip(1)),
        state.admits_all(events) == (state.admits(events[0]) && state.after(events[0]).admits_all(
            events.skip(1),
        )),
{
    let first = seq![events[0]];
    assert(events =~= first + events.skip(1));
    lemma_after_all_append(state, first, events.skip(1));
    assert(first.drop_last() =~= Seq::empty());
    reveal_with_fuel(LoopbackView::after_all, 2);
    reveal_with_fuel(LoopbackView::admits_all, 2);
}

impl Default for LoopbackRadio {
    /// A link nobody has connected to yet.
    fn default() -> (radio: LoopbackRadio)
        ensures
            radio.wf(),
            radio@ == LoopbackView::fresh(),
            radio.log() == Seq::<Event>::empty(),
    {
        LoopbackRadio::new()
    }
}

impl LoopbackRadio {
    /// A link nobody has connected to yet.
    #[must_use]
    pub fn new() -> (radio: LoopbackRadio)
        ensures
            radio.wf(),
            radio@ == LoopbackView::fresh(),
            radio.log() == Seq::<Event>::empty(),
    {
        let radio: LoopbackRadio = LoopbackRadio {
            session: Session::new(),
            to_client: VecDeque::new(),
            arrived: VecDeque::new(),
            log: Ghost(Seq::empty()),
        };
        proof {
            assert(radio@ =~= LoopbackView::fresh());
        }
        radio
    }

    /// The next Stream a data link delivered whole: its DLCI and bytes.
    #[must_use]
    pub fn take(&mut self) -> (stream: Option<(u8, Vec<u8>)>)
        requires
            old(self).wf(),
        ensures
            final(self).wf(),
            (final(self)@, session::stream_view(stream)) == old(self)@.collected(),
            final(self).log() == old(self).log().push(
                Event::Collected { stream: session::stream_view(stream) },
            ),
    {
        let ghost before = self@;
        let ghost log = self.log@;
        let stream: Option<(u8, Vec<u8>)> = self.arrived.pop_front();
        proof {
            let event = Event::Collected { stream: session::stream_view(stream) };
            self.log@ = log.push(event);
            assert(self@ =~= before.collected().0);
            assert(self.log@.drop_last() =~= log);
        }
        stream
    }
}

impl Radio for LoopbackRadio {
    closed spec fn log(&self) -> Seq<Event> {
        self.log@
    }

    /// The radio's state is what its log leaves of a fresh radio, and its log
    /// is one that a loopback radio makes.
    open spec fn wf(&self) -> bool {
        &&& self@ == LoopbackView::fresh().after_all(self.log())
        &&& LoopbackView::fresh().admits_all(self.log())
    }

    open spec fn called(&self) -> Seq<char> {
        "loopback"@
    }

    open spec fn names(&self) -> Seq<Seq<char>> {
        Seq::new(self.log().len(), |at: int| "loopback"@)
    }

    fn name(&self) -> (name: &str) {
        "loopback"
    }

    fn transmit(&mut self, packet: &[u8]) -> (outcome: Result<(), Error>)
        ensures
            (final(self)@, outcome) == old(self)@.transmitted(packet@),
    {
        let ghost before = self@;
        let ghost names = self.names();
        let ghost log = self.log@;
        let response: Response = match self.session.handle(packet) {
            Ok(response) => response,
            Err(error) => {
                proof {
                    let event = Event::Transmitted { packet: packet@, outcome: Err(error) };
                    self.log@ = log.push(event);
                    assert(self@ =~= before.transmitted(packet@).0);
                    assert(self.log@.drop_last() =~= log);
                    assert(self.names() =~= names.push("loopback"@));
                }
                return Err(error);
            },
        };
        let ghost said = response@;
        let Response { answers, complete, closed: _ } = response;
        let ghost waiting = self.to_client@;
        for answer in queue: answers
            invariant
                queue.seq() == answers@,
                self.to_client@ == waiting + answers@.take(queue.index()),
                self.session@ == before.session.handled(packet@).0,
                self.arrived@.map_values(|stream: (u8, Vec<u8>)| delivered_view(stream))
                    == before.arrived,
                self.log@ == log,
        {
            self.to_client.push_back(answer);
            proof {
                assert(answers@.take(queue.index() + 1) =~= answers@.take(queue.index()).push(
                    answers@[queue.index()],
                ));
            }
        }
        proof {
            assert(answers@.take(answers@.len() as int) =~= answers@);
            assert(session::packets_view(self.to_client@) =~= before.to_client + said.answers);
        }
        if let Some(stream) = complete {
            self.arrived.push_back(stream);
        }
        proof {
            let event = Event::Transmitted { packet: packet@, outcome: Ok(()) };
            self.log@ = log.push(event);
            assert(self@ =~= before.transmitted(packet@).0);
            assert(self.log@.drop_last() =~= log);
            assert(self.names() =~= names.push("loopback"@));
        }
        Ok(())
    }

    fn receive(&mut self, _timeout: Duration) -> (received: Result<Option<Vec<u8>>, Error>)
        ensures
            received is Ok,
            final(self)@ == old(self)@.received().0,
            received_view(received) == Ok::<Option<Seq<u8>>, Error>(old(self)@.received().1),
    {
        let ghost before = self@;
        let ghost names = self.names();
        let ghost log = self.log@;
        let packet: Option<Vec<u8>> = self.to_client.pop_front();
        let received: Result<Option<Vec<u8>>, Error> = Ok(packet);
        proof {
            let event = Event::Received {
                timeout: _timeout,
                received: received_view(received),
            };
            self.log@ = log.push(event);
            assert(self@ =~= before.received().0);
            assert(self.log@.drop_last() =~= log);
            assert(self.names() =~= names.push("loopback"@));
        }
        received
    }
}

/// A fresh loopback radio has a fresh session, and nothing waits on it.
pub proof fn law_fresh_radio_holds_nothing()
    ensures
        LoopbackView::fresh().session == SessionView::fresh(),
        LoopbackView::fresh().to_client.len() == 0,
        LoopbackView::fresh().arrived.len() == 0,
{
}

/// What a loopback radio is given its session handles: the answers wait for the
/// client behind those that wait already, in order, the Stream that was
/// completed has arrived behind those that arrived before, and what the session
/// refuses is refused with its error and leaves nothing waiting.
pub proof fn law_transmitted_packet_is_handled(state: LoopbackView, packet: Seq<u8>)
    ensures
        ({
            let (next, outcome) = state.transmitted(packet);
            let (session, said) = state.session.handled(packet);
            &&& next.session == session
            &&& outcome is Ok <==> said is Ok
            &&& said matches Err(error) ==> {
                &&& outcome == Err::<(), Error>(error)
                &&& next.to_client == state.to_client
                &&& next.arrived == state.arrived
            }
            &&& said matches Ok(response) ==> {
                let waited = state.to_client.len() as int;
                &&& next.to_client.len() == waited + response.answers.len()
                &&& forall|i: int|
                    0 <= i < waited ==> #[trigger] next.to_client[i] == state.to_client[i]
                &&& forall|i: int|
                    0 <= i < response.answers.len() ==> #[trigger] response.answers[i]
                        == next.to_client[waited + i]
                &&& response.complete is None ==> next.arrived == state.arrived
                &&& response.complete matches Some(stream) ==> {
                    &&& next.arrived.len() == state.arrived.len() + 1
                    &&& next.arrived.last() == stream
                    &&& next.arrived.drop_last() == state.arrived
                }
            }
        }),
{
    if let (_, Ok(response)) = state.session.handled(packet) {
        if let Some(stream) = response.complete {
            assert(state.arrived.push(stream).drop_last() =~= state.arrived);
        }
    }
}

/// What waits is received, and what arrived is collected, in the order it came
/// and once: the oldest first, the rest staying as they are, and nothing where
/// there is none.
pub proof fn law_oldest_comes_first(state: LoopbackView)
    ensures
        ({
            let (next, received) = state.received();
            &&& next.session == state.session && next.arrived == state.arrived
            &&& received is None <==> state.to_client.len() == 0
            &&& received is None ==> next.to_client == state.to_client
            &&& received matches Some(packet) ==> seq![packet] + next.to_client == state.to_client
        }),
        ({
            let (next, collected) = state.collected();
            &&& next.session == state.session && next.to_client == state.to_client
            &&& collected is None <==> state.arrived.len() == 0
            &&& collected is None ==> next.arrived == state.arrived
            &&& collected matches Some(stream) ==> seq![stream] + next.arrived == state.arrived
        }),
{
    if state.to_client.len() > 0 {
        assert(seq![state.to_client[0]] + state.to_client.drop_first() =~= state.to_client);
    }
    if state.arrived.len() > 0 {
        assert(seq![state.arrived[0]] + state.arrived.drop_first() =~= state.arrived);
    }
}

/// A loopback radio's log goes event by event: each leaves the state and has
/// the outcome that the one before allows, whatever came earlier.
pub proof fn law_log_goes_event_by_event(state: LoopbackView, events: Seq<Event>, event: Event)
    ensures
        state.after_all(Seq::empty()) == state,
        state.admits_all(Seq::empty()),
        ({
            let before = state.after_all(events);
            let next = state.after_all(events.push(event));
            let admitted = state.admits_all(events.push(event));
            match event {
                Event::Transmitted { packet, outcome } => {
                    &&& next == before.transmitted(packet).0
                    &&& admitted <==> state.admits_all(events) && outcome == before.transmitted(
                        packet,
                    ).1
                },
                Event::Received { received, .. } => {
                    &&& next == before.received().0
                    &&& admitted <==> state.admits_all(events) && received == Ok::<
                        Option<Seq<u8>>,
                        Error,
                    >(before.received().1)
                },
                Event::Collected { stream } => {
                    &&& next == before.collected().0
                    &&& admitted <==> state.admits_all(events) && stream == before.collected().1
                },
            }
        }),
{
    assert(events.push(event).drop_last() =~= events);
}

/// What was received is kept as it came: a packet with its bytes, silence, or
/// the error.
pub proof fn law_received_view_is_plain(received: Result<Option<Vec<u8>>, Error>)
    ensures
        received matches Ok(Some(packet)) ==> received_view(received) == Ok::<
            Option<Seq<u8>>,
            Error,
        >(Some(packet@)),
        received matches Ok(None) ==> received_view(received) == Ok::<Option<Seq<u8>>, Error>(None),
        received matches Err(error) ==> received_view(received) == Err::<Option<Seq<u8>>, Error>(
            error,
        ),
{
}

/// A loopback radio is idle when nobody is connected to its session and nothing
/// waits for the client, whatever has arrived.
pub proof fn law_idle_is_nobody_connected(state: LoopbackView)
    ensures
        state.idle() <==> {
            &&& state.session.remote is None && !state.session.multiplexer
            &&& state.session.open is None && state.session.information.len() == 0
            &&& state.to_client.len() == 0
        },
{
    if state.session.information.len() == 0 {
        assert(state.session.information =~= Seq::empty());
    }
}

} // verus!
