//! The server's side of one connection as a radio sees it: each packet that
//! comes is handled and answered, until the peer closes the channel or says no
//! more.

use crate::error::Error;
use crate::radio::Event;
use crate::session;
use crate::session::{ResponseView, Session, SessionView};
use std::time::Duration;
use vstd::prelude::*;

verus! {

/// A connection while it is served.
#[derive(Debug)]
pub struct Serving {
    session: Session,
    /// The Stream that a data link delivered last, and its DLCI.
    taken: Option<(u8, Vec<u8>)>,
    /// What the radio was called when that data link closed.
    radio: String,
    /// Whether anybody connected.
    begun: bool,
}

/// A connection while it is served: the session, the Stream delivered last,
/// and whether anybody connected.
#[verifier::ext_equal]
pub struct ServingView {
    pub session: SessionView,
    pub taken: Option<(u8, Seq<u8>)>,
    pub begun: bool,
}

impl View for Serving {
    type V = ServingView;

    closed spec fn view(&self) -> ServingView {
        ServingView {
            session: self.session@,
            taken: session::stream_view(self.taken),
            begun: self.begun,
        }
    }
}

/// Where serving stands when it stops.
#[verifier::ext_equal]
pub enum ServedView {
    /// Nobody connected, or the peer closed the channel or said no more: the
    /// Stream it delivered last, and its DLCI.
    Over { stream: Option<(u8, Seq<u8>)> },
    /// As many packets were taken as were asked for.
    More { serving: ServingView },
}

impl Default for Serving {
    /// Nobody has connected yet.
    fn default() -> (serving: Serving)
        ensures
            serving@ == ServingView::fresh(),
            serving.radio() == Seq::<char>::empty(),
    {
        Serving::new()
    }
}

impl Serving {
    /// What the radio was called when the data link closed that delivered a
    /// Stream last.
    pub closed spec fn radio(&self) -> Seq<char> {
        self.radio@
    }

    /// Nobody has connected yet.
    #[must_use]
    pub fn new() -> (serving: Serving)
        ensures
            serving@ == ServingView::fresh(),
            serving.radio() == Seq::<char>::empty(),
    {
        Serving { session: Session::new(), taken: None, radio: String::new(), begun: false }
    }

    /// Whether anybody connected.
    #[must_use]
    pub fn has_begun(&self) -> (begun: bool)
        ensures
            begun == self@.begun,
    {
        self.begun
    }

    /// Whether a data link delivered a Stream.
    #[must_use]
    pub fn has_taken(&self) -> (taken: bool)
        ensures
            taken == (self@.taken is Some),
    {
        self.taken.is_some()
    }

    /// The Stream that a data link delivered last and its DLCI, and what the
    /// radio was called when that link closed.
    #[must_use]
    pub fn into_taken(self) -> (taken: (Option<(u8, Vec<u8>)>, String))
        ensures
            session::stream_view(taken.0) == self@.taken,
            taken.1@ == self.radio(),
    {
        (self.taken, self.radio)
    }

    /// The data link that closed last did so on a radio that is called `radio`.
    pub fn delivered_on(&mut self, radio: &str)
        ensures
            final(self)@ == old(self)@,
            final(self).radio() == radio@,
    {
        self.radio = radio.to_owned();
    }

    /// One packet from the peer: what to answer, in order, whether a data link
    /// delivered a Stream with it, and whether the connection is over.
    pub fn hear(&mut self, packet: &[u8]) -> (said: Result<(Vec<Vec<u8>>, bool, bool), Error>)
        ensures
            final(self).radio() == old(self).radio(),
            match old(self)@.session.handled(packet@) {
                (next, Err(error)) => {
                    &&& said == Err::<(Vec<Vec<u8>>, bool, bool), Error>(error)
                    &&& final(self)@ == (ServingView { session: next, ..old(self)@ })
                },
                (next, Ok(response)) => {
                    &&& said is Ok
                    &&& session::packets_view(said->Ok_0.0@) == response.answers
                    &&& said->Ok_0.1 == (response.complete is Some)
                    &&& said->Ok_0.2 == response.closed
                    &&& final(self)@ == old(self)@.heard(next, response)
                },
            },
    {
        match self.session.handle(packet) {
            Ok(response) => {
                self.begun = true;
                let delivered: bool = response.complete.is_some();
                if delivered {
                    self.taken = response.complete;
                }
                Ok((response.answers, delivered, response.closed))
            },
            Err(error) => Err(error),
        }
    }
}

impl ServingView {
    /// Nobody has connected yet.
    pub open spec fn fresh() -> ServingView {
        ServingView { session: SessionView::fresh(), taken: None, begun: false }
    }

    /// The state once a packet has left the session as `next` with `response`.
    pub open spec fn heard(self, next: SessionView, response: ResponseView) -> ServingView {
        ServingView {
            session: next,
            taken: if response.complete is Some {
                response.complete
            } else {
                self.taken
            },
            begun: true,
        }
    }
}

/// The events of answers transmitted in order, up to the first that the link
/// refuses; the outcome is its error, or success where it refuses none.
pub open spec fn tells(
    answers: Seq<Seq<u8>>,
    events: Seq<Event>,
    outcome: Result<(), Error>,
) -> bool
    decreases answers.len(),
{
    if answers.len() == 0 {
        events.len() == 0 && outcome is Ok
    } else {
        ||| outcome is Err && events == seq![Event::Transmitted { packet: answers[0], outcome }]
        ||| {
            &&& events.len() >= 1
            &&& events[0] == (Event::Transmitted { packet: answers[0], outcome: Ok(()) })
            &&& tells(answers.skip(1), events.skip(1), outcome)
        }
    }
}

/// The events of serving up to `turns` packets, and where it ends. Each turn
/// waits for a packet once. Nobody in time is the end of it where a data link
/// delivered a Stream or nobody connected, and an error in between; a packet
/// the session refuses is an error; any other is answered, and is the last
/// where it closes the channel.
pub open spec fn serves(
    serving: ServingView,
    turns: nat,
    timeout: Duration,
    events: Seq<Event>,
    end: Result<ServedView, Error>,
) -> bool
    decreases turns,
{
    if turns == 0 {
        events.len() == 0 && end == Ok::<ServedView, Error>(ServedView::More { serving })
    } else {
        &&& events.len() >= 1
        &&& events[0] matches Event::Received { timeout: waited, received }
        &&& waited == timeout
        &&& match received {
            Err(error) => events.len() == 1 && end == Err::<ServedView, Error>(error),
            Ok(None) => events.len() == 1 && end == (if serving.taken is Some || !serving.begun {
                Ok::<ServedView, Error>(ServedView::Over { stream: serving.taken })
            } else {
                Err::<ServedView, Error>(Error::WentQuiet)
            }),
            Ok(Some(packet)) => match serving.session.handled(packet) {
                (_, Err(error)) => events.len() == 1 && end == Err::<ServedView, Error>(error),
                (next, Ok(response)) => {
                    let told = response.answers.len() as int + 1;
                    let then = serving.heard(next, response);
                    ||| end is Err && tells(response.answers, events.skip(1), Err(end->Err_0))
                    ||| {
                        &&& events.len() >= told
                        &&& tells(response.answers, events.subrange(1, told), Ok(()))
                        &&& if response.closed {
                            events.len() == told && end == Ok::<ServedView, Error>(
                                ServedView::Over { stream: then.taken },
                            )
                        } else {
                            serves(then, (turns - 1) as nat, timeout, events.skip(told), end)
                        }
                    }
                },
            },
        }
    }
}

/// The names a radio has had since they were `before`.
pub open spec fn names_since(before: Seq<Seq<char>>, names: Seq<Seq<char>>) -> Seq<Seq<char>> {
    names.skip(before.len() as int)
}

/// What the radio was called when the data link closed that delivered a Stream
/// last, once up to `turns` packets were served: its name after the answers to
/// the packet that closed the link, or `radio` where none of them closed one.
/// The names are those the radio had after each of the events.
pub open spec fn radio_since(
    radio: Seq<char>,
    serving: ServingView,
    turns: nat,
    events: Seq<Event>,
    names: Seq<Seq<char>>,
) -> Seq<char>
    decreases turns,
{
    if turns == 0 {
        radio
    } else {
        match events[0] {
            Event::Received { received: Ok(Some(packet)), .. } => match serving.session.handled(
                packet,
            ) {
                (next, Ok(response)) => {
                    let told = response.answers.len() as int + 1;
                    let now = if response.complete is Some {
                        names[told - 1]
                    } else {
                        radio
                    };
                    if response.closed {
                        now
                    } else {
                        radio_since(
                            now,
                            serving.heard(next, response),
                            (turns - 1) as nat,
                            events.skip(told),
                            names.skip(told),
                        )
                    }
                },
                _ => radio,
            },
            _ => radio,
        }
    }
}

/// One more answer: it goes well, or it is the one that the link refuses.
pub(crate) proof fn lemma_tells_next(
    answers: Seq<Seq<u8>>,
    at: int,
    events: Seq<Event>,
    outcome: Result<(), Error>,
)
    requires
        0 <= at < answers.len(),
        tells(answers.take(at), events, Ok(())),
    ensures
        ({
            let all = events.push(Event::Transmitted { packet: answers[at], outcome });
            &&& outcome is Ok ==> tells(answers.take(at + 1), all, Ok(()))
            &&& outcome is Err ==> tells(answers, all, outcome)
        }),
    decreases at,
{
    let all = events.push(Event::Transmitted { packet: answers[at], outcome });
    if let Ok(nothing) = outcome {
        assert(nothing == ());
    }
    if at == 0 {
        assert(answers.take(1)[0] == answers[0]);
        assert(answers.take(1).skip(1) =~= Seq::empty());
        assert(events =~= Seq::empty());
        assert(all =~= seq![Event::Transmitted { packet: answers[0], outcome }]);
        assert(all.skip(1) =~= Seq::empty());
        assert(tells(answers.take(1).skip(1), all.skip(1), Ok(())));
    } else {
        assert(answers.skip(1)[at - 1] == answers[at]);
        assert(all[0] == events[0]);
        assert(answers.take(at)[0] == answers[0]);
        assert(answers.take(at).skip(1) =~= answers.skip(1).take(at - 1));
        lemma_tells_next(answers.skip(1), at - 1, events.skip(1), outcome);
        assert(all.skip(1) =~= events.skip(1).push(
            Event::Transmitted { packet: answers[at], outcome },
        ));
        assert(answers.take(at + 1)[0] == answers[0]);
        assert(answers.take(at + 1).skip(1) =~= answers.skip(1).take(at));
    }
}

/// Where one turn ends whose packet was taken and whose answers went as
/// `outcome` says.
pub open spec fn turned(
    serving: ServingView,
    next: SessionView,
    response: ResponseView,
    outcome: Result<(), Error>,
) -> Result<ServedView, Error> {
    let then = serving.heard(next, response);
    match outcome {
        Err(error) => Err(error),
        Ok(_) => if response.closed {
            Ok(ServedView::Over { stream: then.taken })
        } else {
            Ok(ServedView::More { serving: then })
        },
    }
}

/// One turn of serving: a packet that is taken comes, and its answers go as
/// `outcome` says.
pub(crate) proof fn lemma_serves_one(
    serving: ServingView,
    timeout: Duration,
    packet: Seq<u8>,
    answering: Seq<Event>,
    outcome: Result<(), Error>,
)
    requires
        serving.session.handled(packet).1 matches Ok(response) && {
            &&& outcome is Ok ==> answering.len() == response.answers.len()
            &&& outcome is Ok ==> tells(response.answers, answering, Ok(()))
            &&& outcome is Err ==> tells(response.answers, answering, outcome)
        },
    ensures
        serves(
            serving,
            1,
            timeout,
            seq![Event::Received { timeout, received: Ok(Some(packet)) }] + answering,
            turned(
                serving,
                serving.session.handled(packet).0,
                serving.session.handled(packet).1->Ok_0,
                outcome,
            ),
        ),
{
    let (next, said) = serving.session.handled(packet);
    let response = said->Ok_0;
    let then = serving.heard(next, response);
    let told = response.answers.len() as int + 1;
    let events = seq![Event::Received { timeout, received: Ok(Some(packet)) }] + answering;
    assert(events.skip(1) =~= answering);
    if outcome is Ok {
        assert(events.subrange(1, told) =~= answering);
        assert(events.skip(told) =~= Seq::empty());
        assert(serves(
            then,
            0,
            timeout,
            events.skip(told),
            Ok::<ServedView, Error>(ServedView::More { serving: then }),
        ));
    }
}

/// Serving some packets, and then more.
pub(crate) proof fn lemma_serves_append(
    serving: ServingView,
    first: nat,
    then: ServingView,
    second: nat,
    timeout: Duration,
    before: Seq<Event>,
    events: Seq<Event>,
    end: Result<ServedView, Error>,
)
    requires
        serves(
            serving,
            first,
            timeout,
            before,
            Ok::<ServedView, Error>(ServedView::More { serving: then }),
        ),
        serves(then, second, timeout, events, end),
    ensures
        serves(serving, first + second, timeout, before + events, end),
    decreases first,
{
    if first == 0 {
        assert(before + events =~= events);
    } else {
        let packet = before[0]->Received_received->Ok_0->0;
        let (next, said) = serving.session.handled(packet);
        let response = said->Ok_0;
        let told = response.answers.len() as int + 1;
        let all = before + events;
        lemma_serves_append(
            serving.heard(next, response),
            (first - 1) as nat,
            then,
            second,
            timeout,
            before.skip(told),
            events,
            end,
        );
        assert(all[0] == before[0]);
        assert(all.subrange(1, told) =~= before.subrange(1, told));
        assert(all.skip(told) =~= before.skip(told) + events);
    }
}

/// Once serving has ended more turns change nothing.
pub(crate) proof fn lemma_serves_ended(
    serving: ServingView,
    turns: nat,
    more: nat,
    timeout: Duration,
    events: Seq<Event>,
    end: Result<ServedView, Error>,
)
    requires
        serves(serving, turns, timeout, events, end),
        !(end matches Ok(ServedView::More { .. })),
        turns <= more,
    ensures
        serves(serving, more, timeout, events, end),
    decreases turns,
{
    match events[0] {
        Event::Received { received: Ok(Some(packet)), .. } => {
            let (next, said) = serving.session.handled(packet);
            if let Ok(response) = said {
                let told = response.answers.len() as int + 1;
                let then = serving.heard(next, response);
                if !response.closed && serves(
                    then,
                    (turns - 1) as nat,
                    timeout,
                    events.skip(told),
                    end,
                ) {
                    lemma_serves_ended(
                        then,
                        (turns - 1) as nat,
                        (more - 1) as nat,
                        timeout,
                        events.skip(told),
                        end,
                    );
                }
            }
        },
        _ => {},
    }
}

/// The radio's name since serving some packets, and then more.
pub(crate) proof fn lemma_radio_append(
    radio: Seq<char>,
    serving: ServingView,
    first: nat,
    then: ServingView,
    second: nat,
    timeout: Duration,
    before: Seq<Event>,
    names: Seq<Seq<char>>,
    events: Seq<Event>,
    later: Seq<Seq<char>>,
)
    requires
        serves(
            serving,
            first,
            timeout,
            before,
            Ok::<ServedView, Error>(ServedView::More { serving: then }),
        ),
        names.len() == before.len(),
    ensures
        radio_since(radio, serving, first + second, before + events, names + later) == radio_since(
            radio_since(radio, serving, first, before, names),
            then,
            second,
            events,
            later,
        ),
    decreases first,
{
    if first == 0 {
        assert(before + events =~= events);
        assert(names + later =~= later);
    } else {
        let packet = before[0]->Received_received->Ok_0->0;
        let (next, said) = serving.session.handled(packet);
        let response = said->Ok_0;
        let told = response.answers.len() as int + 1;
        let now = if response.complete is Some {
            names[told - 1]
        } else {
            radio
        };
        lemma_radio_append(
            now,
            serving.heard(next, response),
            (first - 1) as nat,
            then,
            second,
            timeout,
            before.skip(told),
            names.skip(told),
            events,
            later,
        );
        assert((before + events)[0] == before[0]);
        assert((before + events).skip(told) =~= before.skip(told) + events);
        assert((names + later).skip(told) =~= names.skip(told) + later);
        assert((names + later)[told - 1] == names[told - 1]);
    }
}

/// Once serving has ended more turns change no name.
pub(crate) proof fn lemma_radio_ended(
    radio: Seq<char>,
    serving: ServingView,
    turns: nat,
    more: nat,
    timeout: Duration,
    events: Seq<Event>,
    names: Seq<Seq<char>>,
    stream: Option<(u8, Seq<u8>)>,
)
    requires
        serves(
            serving,
            turns,
            timeout,
            events,
            Ok::<ServedView, Error>(ServedView::Over { stream }),
        ),
        turns <= more,
    ensures
        radio_since(radio, serving, more, events, names) == radio_since(
            radio,
            serving,
            turns,
            events,
            names,
        ),
    decreases turns,
{
    match events[0] {
        Event::Received { received: Ok(Some(packet)), .. } => {
            let (next, said) = serving.session.handled(packet);
            if let Ok(response) = said {
                let told = response.answers.len() as int + 1;
                let now = if response.complete is Some {
                    names[told - 1]
                } else {
                    radio
                };
                if !response.closed {
                    lemma_radio_ended(
                        now,
                        serving.heard(next, response),
                        (turns - 1) as nat,
                        (more - 1) as nat,
                        timeout,
                        events.skip(told),
                        names.skip(told),
                        stream,
                    );
                }
            }
        },
        _ => {},
    }
}

/// On a radio that keeps its name the Stream handed over is named for that
/// radio.
pub proof fn law_stream_is_named_for_its_radio(
    name: Seq<char>,
    radio: Seq<char>,
    serving: ServingView,
    turns: nat,
    timeout: Duration,
    events: Seq<Event>,
    names: Seq<Seq<char>>,
    stream: (u8, Seq<u8>),
)
    requires
        serves(
            serving,
            turns,
            timeout,
            events,
            Ok::<ServedView, Error>(ServedView::Over { stream: Some(stream) }),
        ),
        names.len() == events.len(),
        forall|at: int| 0 <= at < names.len() ==> #[trigger] names[at] == name,
        serving.taken is Some ==> radio == name,
    ensures
        radio_since(radio, serving, turns, events, names) == name,
    decreases turns,
{
    match events[0] {
        Event::Received { received: Ok(Some(packet)), .. } => {
            let (next, said) = serving.session.handled(packet);
            if let Ok(response) = said {
                let told = response.answers.len() as int + 1;
                let now = if response.complete is Some {
                    names[told - 1]
                } else {
                    radio
                };
                if !response.closed {
                    let later = names.skip(told);
                    assert forall|at: int| 0 <= at < later.len() implies #[trigger] later[at]
                        == name by {
                        assert(later[at] == names[told + at]);
                    }
                    law_stream_is_named_for_its_radio(
                        name,
                        now,
                        serving.heard(next, response),
                        (turns - 1) as nat,
                        timeout,
                        events.skip(told),
                        later,
                        stream,
                    );
                }
            }
        },
        _ => {},
    }
}

/// Answers that all went well are none that the link refused.
proof fn lemma_tells_is_decided(
    answers: Seq<Seq<u8>>,
    well: Seq<Event>,
    events: Seq<Event>,
    outcome: Result<(), Error>,
)
    requires
        tells(answers, well, Ok(())),
        well.is_prefix_of(events),
        tells(answers, events, outcome),
    ensures
        outcome is Ok,
        events == well,
    decreases answers.len(),
{
    if answers.len() == 0 {
        assert(events =~= well);
    } else {
        assert(well[0] == events[0]);
        assert(tells(answers.skip(1), events.skip(1), outcome));
        lemma_tells_is_decided(answers.skip(1), well.skip(1), events.skip(1), outcome);
        assert(events =~= seq![events[0]] + events.skip(1));
        assert(well =~= seq![well[0]] + well.skip(1));
    }
}

/// An error in answering is the one error among the events.
proof fn lemma_tells_error_is_decided(
    answers: Seq<Seq<u8>>,
    events: Seq<Event>,
    one: Error,
    other: Error,
)
    requires
        tells(answers, events, Err(one)),
        tells(answers, events, Err(other)),
    ensures
        one == other,
        events.len() <= answers.len(),
    decreases answers.len(),
{
    if answers.len() > 0 {
        if tells(answers.skip(1), events.skip(1), Err(one)) && events.len() >= 1 && events[0] == (
        Event::Transmitted { packet: answers[0], outcome: Ok(()) }) {
            lemma_tells_error_is_decided(answers.skip(1), events.skip(1), one, other);
        } else {
            assert(events[0] == (Event::Transmitted { packet: answers[0], outcome: Err(one) }));
        }
    }
}

/// Where serving ends is decided by what passed over the radio: the same
/// packets never come to two different ends.
pub proof fn law_serving_is_decided(
    serving: ServingView,
    turns: nat,
    timeout: Duration,
    events: Seq<Event>,
    one: Result<ServedView, Error>,
    other: Result<ServedView, Error>,
)
    requires
        serves(serving, turns, timeout, events, one),
        serves(serving, turns, timeout, events, other),
    ensures
        one == other,
    decreases turns,
{
    if turns > 0 {
        match events[0] {
            Event::Received { received: Ok(Some(packet)), .. } => {
                let (next, said) = serving.session.handled(packet);
                if let Ok(response) = said {
                    let answers = response.answers;
                    let told = answers.len() as int + 1;
                    let then = serving.heard(next, response);
                    if events.len() >= told && tells(answers, events.subrange(1, told), Ok(())) {
                        if one is Err && tells(answers, events.skip(1), Err(one->Err_0)) {
                            lemma_tells_is_decided(
                                answers,
                                events.subrange(1, told),
                                events.skip(1),
                                Err(one->Err_0),
                            );
                        }
                        if other is Err && tells(answers, events.skip(1), Err(other->Err_0)) {
                            lemma_tells_is_decided(
                                answers,
                                events.subrange(1, told),
                                events.skip(1),
                                Err(other->Err_0),
                            );
                        }
                        if !response.closed {
                            law_serving_is_decided(
                                then,
                                (turns - 1) as nat,
                                timeout,
                                events.skip(told),
                                one,
                                other,
                            );
                        }
                    } else {
                        lemma_tells_error_is_decided(
                            answers,
                            events.skip(1),
                            one->Err_0,
                            other->Err_0,
                        );
                    }
                }
            },
            _ => {},
        }
    }
}

/// Answers, event by event: each is transmitted in its turn, every one but the
/// last event's was taken, and the last event decides.
proof fn lemma_tells_event_by_event(
    answers: Seq<Seq<u8>>,
    events: Seq<Event>,
    outcome: Result<(), Error>,
)
    requires
        tells(answers, events, outcome),
    ensures
        events.len() <= answers.len(),
        outcome is Ok ==> events.len() == answers.len(),
        outcome is Err ==> events.len() > 0,
        forall|i: int|
            0 <= i < events.len() ==> (#[trigger] events[i] matches Event::Transmitted {
                packet,
                outcome: went,
            } && packet == answers[i] && (i + 1 < events.len() || outcome is Ok ==> went is Ok) && (
            i + 1 == events.len() && outcome is Err ==> went == outcome)),
    decreases answers.len(),
{
    if answers.len() > 0 {
        let alone = outcome is Err && events == seq![
            Event::Transmitted { packet: answers[0], outcome },
        ];
        if !alone {
            lemma_tells_event_by_event(answers.skip(1), events.skip(1), outcome);
            assert forall|i: int| 0 <= i < events.len() implies (#[trigger] events[i] matches
                Event::Transmitted { packet, outcome: went } && packet == answers[i] && (i + 1
                < events.len() || outcome is Ok ==> went is Ok) && (i + 1 == events.len()
                && outcome is Err ==> went == outcome)) by {
                if i > 0 {
                    assert(events.skip(1)[i - 1] == events[i]);
                    assert(answers.skip(1)[i - 1] == answers[i]);
                }
            }
        }
    }
}

/// Serving, turn by turn. Without a turn nothing happens. A turn waits once, for
/// the timeout. A link that cannot be read ends it with its error. Silence ends
/// it with the Stream held, where one is held or nobody connected, and is an
/// error otherwise. A packet the session refuses ends it with what is wrong. Any
/// other is answered, every answer in order, up to one that the link refuses,
/// which ends it with the link's error. A Stream completed takes the place of
/// the one held; a packet that ends the connection ends it with the Stream held,
/// and after any other the next turn goes on from what the session is then.
pub proof fn law_serving_turn_by_turn(
    serving: ServingView,
    turns: nat,
    timeout: Duration,
    events: Seq<Event>,
    end: Result<ServedView, Error>,
)
    requires
        serves(serving, turns, timeout, events, end),
    ensures
        turns == 0 ==> events.len() == 0 && end == Ok::<ServedView, Error>(
            ServedView::More { serving },
        ),
        turns > 0 ==> {
            &&& events.len() >= 1
            &&& events[0] matches Event::Received { timeout: waited, received }
            &&& waited == timeout
            &&& match received {
                Err(error) => events.len() == 1 && end == Err::<ServedView, Error>(error),
                Ok(None) => events.len() == 1 && if serving.taken is None && serving.begun {
                    end == Err::<ServedView, Error>(Error::WentQuiet)
                } else {
                    end == Ok::<ServedView, Error>(ServedView::Over { stream: serving.taken })
                },
                Ok(Some(packet)) => match serving.session.handled(packet).1 {
                    Err(error) => events.len() == 1 && end == Err::<ServedView, Error>(error),
                    Ok(response) => {
                        let count = response.answers.len() as int;
                        let all = events.len() >= count + 1 && (count == 0
                            || events[count]->Transmitted_outcome is Ok);
                        let taken = if response.complete is Some {
                            response.complete
                        } else {
                            serving.taken
                        };
                        &&& forall|i: int|
                            0 < i <= count && i < events.len() ==> (#[trigger] events[i] matches
                                Event::Transmitted { packet: told, outcome: went } && told
                                == response.answers[i - 1] && (i + 1 < events.len()
                                ==> went is Ok))
                        &&& !all ==> events.len() <= count + 1 && end is Err && (
                        events.last() matches Event::Transmitted { outcome: went, .. } && went
                            == Err::<(), Error>(end->Err_0))
                        &&& all && response.closed ==> events.len() == count + 1 && end == Ok::<
                            ServedView,
                            Error,
                        >(ServedView::Over { stream: taken })
                        &&& all && !response.closed ==> serves(
                            ServingView {
                                session: serving.session.handled(packet).0,
                                taken,
                                begun: true,
                            },
                            (turns - 1) as nat,
                            timeout,
                            events.skip(count + 1),
                            end,
                        )
                    },
                },
            }
        },
{
    if turns > 0 {
        if let Event::Received { received: Ok(Some(packet)), .. } = events[0] {
            if let (_, Ok(response)) = serving.session.handled(packet) {
                let answers = response.answers;
                let told = answers.len() as int + 1;
                let later = events.skip(1);
                if end is Err && tells(answers, later, Err(end->Err_0)) {
                    lemma_tells_event_by_event(answers, later, Err(end->Err_0));
                    assert(later.last() == events.last());
                    assert forall|i: int| 0 < i < events.len() implies #[trigger] events[i]
                        == later[i - 1] by {}
                } else {
                    let own = events.subrange(1, told);
                    lemma_tells_event_by_event(answers, own, Ok(()));
                    assert forall|i: int| 0 < i < told implies #[trigger] events[i]
                        == own[i - 1] by {}
                }
            }
        }
    }
}

/// The name that goes with a Stream, turn by turn: the packet that completes a
/// Stream puts the radio's name after the last of its answers in the place of
/// the one kept, and nothing else changes the one kept.
pub proof fn law_name_goes_with_its_stream(
    radio: Seq<char>,
    serving: ServingView,
    turns: nat,
    events: Seq<Event>,
    names: Seq<Seq<char>>,
    packet: Seq<u8>,
)
    requires
        turns > 0,
        events[0] matches Event::Received { received, .. } && received == Ok::<
            Option<Seq<u8>>,
            Error,
        >(Some(packet)),
    ensures
        radio_since(radio, serving, 0, events, names) == radio,
        match serving.session.handled(packet) {
            (_, Err(_)) => radio_since(radio, serving, turns, events, names) == radio,
            (next, Ok(response)) => {
                let count = response.answers.len() as int;
                let kept = if response.complete is Some {
                    names[count]
                } else {
                    radio
                };
                let then = ServingView {
                    session: next,
                    taken: if response.complete is Some {
                        response.complete
                    } else {
                        serving.taken
                    },
                    begun: true,
                };
                radio_since(radio, serving, turns, events, names) == if response.closed {
                    kept
                } else {
                    radio_since(
                        kept,
                        then,
                        (turns - 1) as nat,
                        events.skip(count + 1),
                        names.skip(count + 1),
                    )
                }
            },
        },
{
}

/// The names gained are those put behind.
pub proof fn law_names_since_are_what_came_after(
    before: Seq<Seq<char>>,
    more: Seq<Seq<char>>,
)
    ensures
        names_since(before, before + more) == more,
{
    assert(names_since(before, before + more) =~= more);
}

} // verus!
