use vstd::prelude::*;

use crate::cards::CardName;
use crate::player_counters::PlayerCounters;

verus! {

/// What the engine reports as a game goes on.
#[derive(Debug, Clone, Copy, PartialEq, Eq, Structural)]
pub enum GameEvent {
    CardPlayed(CardName, PlayerCounters),
    CardBoughtGained(CardName),
    DrawCards(usize),
    Shuffle,
}

/// Details attached to a span when it is entered.
#[derive(Debug, Clone)]
pub struct SpanData {
    pub player_name: Option<String>,
    pub turn_counter: Option<u8>,
}

impl SpanData {
    pub fn empty() -> (r: SpanData)
        ensures
            r.player_name.is_none(),
            r.turn_counter.is_none(),
    {
        SpanData { player_name: None, turn_counter: None }
    }
}

#[derive(Debug, Clone, Copy, PartialEq, Eq, Structural)]
pub struct SpanId(pub u64);

/// Where the events of a game go: printed, kept or dropped. The engine does
/// not depend on what a sink does with them.
pub trait GameLogInner {
    fn record(&mut self, event: GameEvent);

    fn enter_span(&mut self, span_name: &'static str, data: SpanData) -> SpanId;

    fn exit_span(&mut self, id: SpanId);
}

/// The log the engine writes to. Besides handing each event to its sink it
/// keeps, as a ghost value, the sequence of events emitted so far.
pub struct GameLog<L> {
    inner: L,
    history: Ghost<Seq<GameEvent>>,
}

/// An open span; it is closed by handing it back to `GameLog::exit`.
#[derive(Debug)]
pub struct GameLogSpan {
    id: SpanId,
}

impl<L: GameLogInner> GameLog<L> {
    /// Every event emitted through this log, oldest first.
    pub closed spec fn events(&self) -> Seq<GameEvent> {
        self.history@
    }

    pub fn new(inner: L) -> (r: GameLog<L>)
        ensures
            r.events() == Seq::<GameEvent>::empty(),
    {
        GameLog { inner, history: Ghost(Seq::empty()) }
    }

    pub fn record(&mut self, event: GameEvent)
        ensures
            final(self).events() == old(self).events().push(event),
    {
        self.inner.record(event);
        self.history = Ghost(self.history@.push(event));
    }

    pub fn enter_turn(&mut self, player_name: &str, turn_counter: u8) -> (r: GameLogSpan)
        ensures
            final(self).events() == old(self).events(),
    {
        let data = SpanData {
            player_name: Some(player_name.to_owned()),
            turn_counter: Some(turn_counter),
        };
        GameLogSpan { id: self.inner.enter_span("turn", data) }
    }

    pub fn enter_cleanup(&mut self) -> (r: GameLogSpan)
        ensures
            final(self).events() == old(self).events(),
    {
        GameLogSpan { id: self.inner.enter_span("cleanup", SpanData::empty()) }
    }

    pub fn enter_buy_phase(&mut self) -> (r: GameLogSpan)
        ensures
            final(self).events() == old(self).events(),
    {
        GameLogSpan { id: self.inner.enter_span("buy phase", SpanData::empty()) }
    }

    pub fn exit(&mut self, span: GameLogSpan)
        ensures
            final(self).events() == old(self).events(),
    {
        self.inner.exit_span(span.id)
    }

    /// The sink the events go to.
    pub closed spec fn sink(&self) -> L {
        self.inner
    }

    /// The sink the events go to.
    pub fn inner(&self) -> (r: &L)
        ensures
            *r == self.sink(),
    {
        &self.inner
    }
}

/// A sink that drops every event.
#[derive(Debug)]
pub struct NullLog;

impl NullLog {
    pub fn new() -> NullLog {
        NullLog
    }
}

impl GameLogInner for NullLog {
    fn record(&mut self, event: GameEvent) {
    }

    fn enter_span(&mut self, span_name: &'static str, data: SpanData) -> SpanId {
        SpanId(0)
    }

    fn exit_span(&mut self, id: SpanId) {
    }
}

/// One thing a `MemoryLog` was told.
#[derive(Debug, Clone)]
pub enum LogEntry {
    Event(GameEvent),
    Enter(&'static str, SpanData),
    Exit(SpanId),
}

/// How many of `s` are shuffle events.
pub open spec fn shuffle_count(s: Seq<GameEvent>) -> nat
    decreases s.len(),
{
    if s.len() == 0 {
        0
    } else {
        shuffle_count(s.drop_last()) + if s.last() == GameEvent::Shuffle {
            1nat
        } else {
            0nat
        }
    }
}

/// How many entries of `s` are shuffle events.
pub open spec fn shuffle_entries(s: Seq<LogEntry>) -> nat
    decreases s.len(),
{
    if s.len() == 0 {
        0
    } else {
        shuffle_entries(s.drop_last()) + if s.last() matches LogEntry::Event(GameEvent::Shuffle) {
            1nat
        } else {
            0nat
        }
    }
}

/// A sink that keeps everything it is told, in order.
#[derive(Debug)]
pub struct MemoryLog {
    entries: Vec<LogEntry>,
    depth: u64,
}

impl MemoryLog {
    pub fn new() -> (r: MemoryLog)
        ensures
            r.entries()@ == Seq::<LogEntry>::empty(),
    {
        MemoryLog { entries: Vec::new(), depth: 0 }
    }

    pub closed spec fn entries(&self) -> Vec<LogEntry> {
        self.entries
    }

    pub fn get_entries(&self) -> (r: &[LogEntry])
        ensures
            r@ == self.entries()@,
    {
        self.entries.as_slice()
    }

    /// How many shuffle events were recorded.
    pub fn count_shuffles(&self) -> (r: usize)
        ensures
            r == shuffle_entries(self.entries()@),
    {
        let mut count: usize = 0;
        let mut i: usize = 0;
        while i < self.entries.len()
            invariant
                i <= self.entries@.len(),
                count == shuffle_entries(self.entries@.subrange(0, i as int)),
                count <= i,
            decreases self.entries@.len() - i,
        {
            proof {
                assert(self.entries@.subrange(0, i + 1).drop_last() =~= self.entries@.subrange(
                    0,
                    i as int,
                ));
            }
            if let LogEntry::Event(GameEvent::Shuffle) = &self.entries[i] {
                count += 1;
            }
            i += 1;
        }
        proof {
            assert(self.entries@.subrange(0, i as int) =~= self.entries@);
        }
        count
    }
}

impl GameLogInner for MemoryLog {
    fn record(&mut self, event: GameEvent) {
        self.entries.push(LogEntry::Event(event));
    }

    fn enter_span(&mut self, span_name: &'static str, data: SpanData) -> SpanId {
        self.entries.push(LogEntry::Enter(span_name, data));
        if self.depth < u64::MAX {
            self.depth = self.depth + 1;
        }
        SpanId(self.depth)
    }

    fn exit_span(&mut self, id: SpanId) {
        self.entries.push(LogEntry::Exit(id));
        if self.depth > 0 {
            self.depth = self.depth - 1;
        }
    }
}

} // verus!
