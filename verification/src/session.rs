//! One dictation and the worker around it: what each event leads to.

use crate::number;
use crate::settings;
use crate::text;
use vstd::prelude::*;

verus! {

/// How long the pill stays after text was delivered, in milliseconds.
pub const HIDE_AFTER_MS: u64 = 1900;

/// How long the pill stays after nothing was said, in milliseconds.
pub const HIDE_IDLE_MS: u64 = 400;

/// How often the worker looks for a request to stop, in milliseconds.
pub const POLL_MS: u64 = 200;

/// A dictation stops by itself after this much silence, in seconds.
pub const IDLE_STOP_SECS: u64 = 3;

/// What the hotkey, the tray and the first-run window ask of the worker.
#[derive(Clone, Copy, PartialEq, Eq, Structural)]
pub enum Cmd {
    Start,
    Stop,
    /// Download the model.
    Fetch,
}

/// The hotkey was pressed: the new listening flag, and what is asked of the worker.
pub fn toggle(listening: bool) -> (r: (bool, Cmd))
    ensures
        r.0 == !listening,
        r.1 == if listening {
            Cmd::Stop
        } else {
            Cmd::Start
        },
{
    if listening {
        (false, Cmd::Stop)
    } else {
        (true, Cmd::Start)
    }
}

/// What the worker does with a command.
#[derive(Clone, Copy, PartialEq, Eq, Structural)]
pub enum WorkerStep {
    /// Nothing is running: a stop is ordinary.
    Ignore,
    Download,
    /// No model yet: the first-run window comes up and asks, and listening ends.
    AskForModel,
    /// Dictate; where the mode changed since the output was opened, open it again first.
    Dictate { reopen: bool },
}

/// The worker's answer to `cmd`, given whether the model is there, which mode the output was
/// opened for, and which one is in force now.
pub fn worker_step(cmd: Cmd, ready: bool, mode: &str, chosen: &str) -> (r: WorkerStep)
    ensures
        r == match cmd {
            Cmd::Stop => WorkerStep::Ignore,
            Cmd::Fetch => WorkerStep::Download,
            Cmd::Start => if !ready {
                WorkerStep::AskForModel
            } else {
                WorkerStep::Dictate { reopen: chosen@ != mode@ }
            },
        },
{
    match cmd {
        Cmd::Stop => WorkerStep::Ignore,
        Cmd::Fetch => WorkerStep::Download,
        Cmd::Start => {
            if !ready {
                WorkerStep::AskForModel
            } else {
                WorkerStep::Dictate { reopen: !text::same_text(chosen, mode) }
            }
        },
    }
}

/// Why a dictation ended.
#[derive(Clone, Copy, PartialEq, Eq, Structural)]
pub enum StopReason {
    Hotkey,
    Shutdown,
    DeviceGone,
    Silence,
}

impl StopReason {
    pub fn name(&self) -> (r: &'static str)
        ensures
            r@ == match *self {
                StopReason::Hotkey => "hotkey"@,
                StopReason::Shutdown => "shutdown"@,
                StopReason::DeviceGone => "device gone"@,
                StopReason::Silence => "silence"@,
            },
    {
        match self {
            StopReason::Hotkey => "hotkey",
            StopReason::Shutdown => "shutdown",
            StopReason::DeviceGone => "device gone",
            StopReason::Silence => "silence",
        }
    }
}

/// What looking for a command gave.
#[derive(Clone, Copy, PartialEq, Eq, Structural)]
pub enum Polled {
    Got(Cmd),
    Empty,
    Gone,
}

/// What waiting for a block of audio gave.
#[derive(Clone, Copy, PartialEq, Eq, Structural)]
pub enum Waited {
    Block,
    Timeout,
    Gone,
}

/// What happens in a dictation.
#[derive(Clone, Copy, PartialEq, Eq, Structural)]
pub enum Event {
    /// The microphone was opened, or could not be.
    Opened { ok: bool },
    /// The pill is on the screen.
    Shown,
    /// The model was loaded, or could not be.
    Loaded { ok: bool },
    /// A look for a command.
    Command(Polled),
    /// A wait for audio.
    Audio(Waited),
    /// An utterance was decoded; `said` is whether anything came of it.
    Utterance { said: bool },
    /// A block has been dealt with: whether an utterance is open, and for how many nanoseconds
    /// no voice was heard.
    BlockDone { speaking: bool, quiet_nanos: u128 },
    /// What was still open at the end was decoded, where anything was; `said` is whether anything
    /// came of it.
    Tail { said: Option<bool> },
    /// Audio could not be cut, decoded or delivered.
    Failed,
}

/// How a dictation ends, once the listening flag is taken back.
#[derive(Clone, Copy, PartialEq, Eq, Structural)]
pub struct Ending {
    /// Whether the pill shows that something was done; else it is idle.
    pub done: bool,
    /// After how many milliseconds the pill is hidden.
    pub hide_ms: u64,
}

impl Ending {
    /// What the pill is told.
    pub fn state(&self) -> (r: &'static str)
        ensures
            r@ == if self.done {
                "done"@
            } else {
                "idle"@
            },
    {
        if self.done {
            "done"
        } else {
            "idle"
        }
    }
}

/// What is done next.
#[derive(Clone, Copy, PartialEq, Eq, Structural)]
pub enum Step {
    /// Show the pill, listening.
    Show,
    /// Load the model.
    Load,
    /// Start counting silence, then look for a command.
    Begin,
    /// Look for a command.
    Poll,
    /// Start counting silence afresh, then look for a command.
    VoiceAndPoll,
    /// Wait for audio.
    Wait,
    /// Cut the block into utterances and decode them.
    Decode,
    /// Start counting silence afresh, then decode what is left of the block.
    VoiceAndDecode,
    /// Close the microphone, and decode what is still open.
    Stop(StopReason),
    /// Take the listening flag back, and leave the pill as it says.
    End(Ending),
}

/// Where a dictation is.
#[derive(Clone, Copy, PartialEq, Eq, Structural)]
pub enum At {
    /// The microphone is being opened.
    Opening,
    Showing,
    Loading,
    Polling,
    Waiting,
    Decoding,
    Stopped(StopReason),
    Over,
}

/// A dictation: where it is, whether the model is loaded, how many utterances were delivered, and
/// how many seconds of silence end it.
pub struct DictationState {
    pub at: At,
    pub model: bool,
    pub delivered: nat,
    pub limit: Option<u64>,
}

/// A dictation that has just been asked for.
pub open spec fn fresh(model: bool, limit: Option<u64>) -> DictationState {
    DictationState { at: At::Opening, model, delivered: 0, limit }
}

/// The silence has lasted longer than it may.
pub open spec fn too_quiet(limit: Option<u64>, quiet_nanos: int) -> bool {
    limit.is_some() && quiet_nanos > limit.unwrap() * 1000000000
}

/// The event is one that can happen at this point.
pub open spec fn expected(s: DictationState, event: Event) -> bool {
    match event {
        Event::Opened { ok: _ } => s.at == At::Opening,
        Event::Shown => s.at == At::Showing,
        Event::Loaded { ok: _ } => s.at == At::Loading,
        Event::Command(_) => s.at == At::Polling,
        Event::Audio(_) => s.at == At::Waiting,
        Event::Utterance { said: _ } => s.at == At::Decoding,
        Event::BlockDone { speaking: _, quiet_nanos: _ } => s.at == At::Decoding,
        Event::Tail { said: _ } => s.at is Stopped,
        Event::Failed => s.at == At::Decoding || s.at is Stopped,
    }
}

/// The end of a dictation that something went wrong in: nothing was done, and the pill goes at
/// once.
pub open spec fn broken_off() -> Ending {
    Ending { done: false, hide_ms: 0 }
}

/// The end of a dictation that ran its course.
pub open spec fn ending(anything: bool) -> Ending {
    if anything {
        Ending { done: true, hide_ms: HIDE_AFTER_MS }
    } else {
        Ending { done: false, hide_ms: HIDE_IDLE_MS }
    }
}

/// What an event leads to.
pub open spec fn reaction(s: DictationState, event: Event) -> Step {
    match event {
        Event::Opened { ok } => if ok {
            Step::Show
        } else {
            Step::End(broken_off())
        },
        Event::Shown => if s.model {
            Step::Begin
        } else {
            Step::Load
        },
        Event::Loaded { ok } => if ok {
            Step::Begin
        } else {
            Step::End(broken_off())
        },
        Event::Command(p) => match p {
            Polled::Got(cmd) => if cmd == Cmd::Stop {
                Step::Stop(StopReason::Hotkey)
            } else {
                Step::Wait
            },
            Polled::Empty => Step::Wait,
            Polled::Gone => Step::Stop(StopReason::Shutdown),
        },
        Event::Audio(w) => match w {
            Waited::Block => Step::Decode,
            Waited::Timeout => Step::Poll,
            Waited::Gone => Step::Stop(StopReason::DeviceGone),
        },
        Event::Utterance { said } => if said {
            Step::VoiceAndDecode
        } else {
            Step::Decode
        },
        Event::BlockDone { speaking, quiet_nanos } => if speaking {
            Step::VoiceAndPoll
        } else if too_quiet(s.limit, quiet_nanos as int) {
            Step::Stop(StopReason::Silence)
        } else {
            Step::Poll
        },
        Event::Tail { said } => Step::End(ending(s.delivered > 0 || said == Some(true))),
        Event::Failed => Step::End(broken_off()),
    }
}

/// Where a step leads.
pub open spec fn place_of(step: Step) -> At {
    match step {
        Step::Show => At::Showing,
        Step::Load => At::Loading,
        Step::Begin => At::Polling,
        Step::Poll => At::Polling,
        Step::VoiceAndPoll => At::Polling,
        Step::Wait => At::Waiting,
        Step::Decode => At::Decoding,
        Step::VoiceAndDecode => At::Decoding,
        Step::Stop(why) => At::Stopped(why),
        Step::End(_) => At::Over,
    }
}

/// The event is the delivery of an utterance.
pub open spec fn delivers(event: Event) -> bool {
    event == (Event::Utterance { said: true }) || event == (Event::Tail { said: Some(true) })
}

/// The dictation after an event.
pub open spec fn stepped(s: DictationState, event: Event) -> DictationState {
    DictationState {
        at: place_of(reaction(s, event)),
        model: s.model || event == (Event::Loaded { ok: true }),
        delivered: s.delivered + if delivers(event) {
            1nat
        } else {
            0
        },
        limit: s.limit,
    }
}

/// The dictation after all of the events.
pub open spec fn run(s: DictationState, events: Seq<Event>) -> DictationState
    decreases events.len(),
{
    if events.len() == 0 {
        s
    } else {
        stepped(run(s, events.drop_last()), events.last())
    }
}

/// Each event is one that can happen where it does.
pub open spec fn in_order(s: DictationState, events: Seq<Event>) -> bool {
    forall|i: int|
        0 <= i < events.len() ==> expected(run(s, events.take(i)), #[trigger] events[i])
}

/// A running dictation.
pub struct Dictation {
    at: At,
    model: bool,
    said: usize,
    idle_secs: Option<u64>,
}

impl View for Dictation {
    type V = DictationState;

    closed spec fn view(&self) -> DictationState {
        DictationState {
            at: self.at,
            model: self.model,
            delivered: self.said as nat,
            limit: self.idle_secs,
        }
    }
}

impl Dictation {
    /// A dictation that begins with the opening of the microphone. `model` is whether the model is
    /// loaded already.
    pub fn new(model: bool, idle_secs: Option<u64>) -> (r: Self)
        ensures
            r@ == fresh(model, idle_secs),
    {
        Dictation { at: At::Opening, model, said: 0, idle_secs }
    }

    /// How many utterances were delivered so far.
    pub fn count(&self) -> (r: usize)
        ensures
            r == self@.delivered,
    {
        self.said
    }

    /// Takes an event, and says what to do next.
    pub fn step(&mut self, event: Event) -> (r: Step)
        requires
            expected(old(self)@, event),
            old(self)@.delivered < usize::MAX,
        ensures
            r == reaction(old(self)@, event),
            final(self)@ == stepped(old(self)@, event),
    {
        let broken: Step = Step::End(Ending { done: false, hide_ms: 0 });
        let step: Step = match event {
            Event::Opened { ok } => {
                if ok {
                    Step::Show
                } else {
                    broken
                }
            },
            Event::Shown => {
                if self.model {
                    Step::Begin
                } else {
                    Step::Load
                }
            },
            Event::Loaded { ok } => {
                if ok {
                    self.model = true;
                    Step::Begin
                } else {
                    broken
                }
            },
            Event::Command(p) => match p {
                Polled::Got(cmd) => match cmd {
                    Cmd::Stop => Step::Stop(StopReason::Hotkey),
                    _ => Step::Wait,
                },
                Polled::Empty => Step::Wait,
                Polled::Gone => Step::Stop(StopReason::Shutdown),
            },
            Event::Audio(w) => match w {
                Waited::Block => Step::Decode,
                Waited::Timeout => Step::Poll,
                Waited::Gone => Step::Stop(StopReason::DeviceGone),
            },
            Event::Utterance { said } => {
                if said {
                    self.said = self.said + 1;
                    Step::VoiceAndDecode
                } else {
                    Step::Decode
                }
            },
            Event::BlockDone { speaking, quiet_nanos } => {
                if speaking {
                    Step::VoiceAndPoll
                } else {
                    let over: bool = match self.idle_secs {
                        Some(secs) => quiet_nanos > secs as u128 * 1000000000u128,
                        None => false,
                    };
                    if over {
                        Step::Stop(StopReason::Silence)
                    } else {
                        Step::Poll
                    }
                }
            },
            Event::Tail { said } => {
                match said {
                    Some(true) => {
                        self.said = self.said + 1;
                    },
                    _ => {},
                }
                if self.said > 0 {
                    Step::End(Ending { done: true, hide_ms: HIDE_AFTER_MS })
                } else {
                    Step::End(Ending { done: false, hide_ms: HIDE_IDLE_MS })
                }
            },
            Event::Failed => broken,
        };
        self.at = match step {
            Step::Show => At::Showing,
            Step::Load => At::Loading,
            Step::Begin => At::Polling,
            Step::Poll => At::Polling,
            Step::VoiceAndPoll => At::Polling,
            Step::Wait => At::Waiting,
            Step::Decode => At::Decoding,
            Step::VoiceAndDecode => At::Decoding,
            Step::Stop(why) => At::Stopped(why),
            Step::End(_) => At::Over,
        };
        step
    }
}

/// Only delivered text and an open utterance count as voice: an utterance that came to nothing
/// never restarts the count of silence.
pub proof fn law_only_speech_resets_the_timer(s: DictationState, event: Event)
    ensures
        reaction(s, event) == Step::VoiceAndPoll || reaction(s, event) == Step::VoiceAndDecode <==> {
            ||| event == (Event::Utterance { said: true })
            ||| event matches Event::BlockDone { speaking, quiet_nanos } && speaking
        },
{
}

/// A dictation in which nobody speaks ends by itself at the first block after the limit, unless
/// the limit is switched off; before the limit no block ends it.
pub proof fn law_silence_ends_a_dictation(s: DictationState, quiet_nanos: u128)
    ensures
        reaction(s, Event::BlockDone { speaking: false, quiet_nanos }) == Step::Stop(
            StopReason::Silence,
        ) <==> s.limit.is_some() && quiet_nanos > s.limit.unwrap() * 1000000000,
        reaction(s, Event::BlockDone { speaking: true, quiet_nanos }) == Step::VoiceAndPoll,
{
}

/// Each stop of a dictation has its own cause.
pub proof fn law_stop_reasons(s: DictationState, event: Event)
    ensures
        reaction(s, event) == Step::Stop(StopReason::Hotkey) <==> event == Event::Command(
            Polled::Got(Cmd::Stop),
        ),
        reaction(s, event) == Step::Stop(StopReason::Shutdown) <==> event == Event::Command(
            Polled::Gone,
        ),
        reaction(s, event) == Step::Stop(StopReason::DeviceGone) <==> event == Event::Audio(
            Waited::Gone,
        ),
        reaction(s, event) == Step::Stop(StopReason::Silence) ==> event is BlockDone,
{
}

/// A dictation that stopped only has its tail decoded, whatever comes of that it ends, and one that
/// ended takes no further event.
pub proof fn law_stopped_is_final(s: DictationState, event: Event, later: Event)
    requires
        expected(s, event),
    ensures
        s.at is Stopped ==> reaction(s, event) is End,
        reaction(s, event) is End ==> !expected(stepped(s, event), later),
{
}

/// Whatever goes wrong, the dictation ends there and then: nothing was done, and the pill goes at
/// once. Nothing else ends that way.
pub proof fn law_failure_ends_at_once(s: DictationState, event: Event)
    ensures
        reaction(s, event) == Step::End(Ending { done: false, hide_ms: 0 }) <==> {
            ||| event == (Event::Opened { ok: false })
            ||| event == (Event::Loaded { ok: false })
            ||| event == Event::Failed
        },
{
}

/// A dictation that ran its course shows that something was done where anything was delivered, the
/// tail included, and only then; and the pill stays longer for it.
pub proof fn law_ending_tells_what_was_done(s: DictationState, said: Option<bool>)
    ensures
        ({
            let event = Event::Tail { said };
            let done = stepped(s, event).delivered > 0;
            reaction(s, event) == Step::End(
                Ending {
                    done,
                    hide_ms: if done {
                        HIDE_AFTER_MS
                    } else {
                        HIDE_IDLE_MS
                    },
                },
            )
        }),
{
}

/// How many of the events are utterances that came to something.
pub open spec fn said_count(events: Seq<Event>) -> nat
    decreases events.len(),
{
    if events.len() == 0 {
        0
    } else {
        said_count(events.drop_last()) + if delivers(events.last()) {
            1nat
        } else {
            0
        }
    }
}

/// What a dictation counts is what was delivered, and the limit stays what it was.
pub proof fn law_count_is_what_was_said(s: DictationState, events: Seq<Event>)
    ensures
        run(s, events).delivered == s.delivered + said_count(events),
        run(s, events).limit == s.limit,
    decreases events.len(),
{
    if events.len() > 0 {
        law_count_is_what_was_said(s, events.drop_last());
    }
}

/// The microphone is open and the model is there.
pub open spec fn running(at: At) -> bool {
    at == At::Polling || at == At::Waiting || at == At::Decoding || at is Stopped
}

/// What holds of a dictation after its first event.
spec fn begun(s: DictationState, first: Event) -> bool {
    &&& s.at != At::Opening
    &&& s.at != At::Over ==> first == (Event::Opened { ok: true })
    &&& s.at == At::Loading ==> !s.model
    &&& running(s.at) ==> s.model
}

proof fn lemma_step_keeps_begun(s: DictationState, first: Event, event: Event)
    requires
        begun(s, first),
        expected(s, event),
    ensures
        begun(stepped(s, event), first),
{
}

proof fn lemma_begun(model: bool, limit: Option<u64>, events: Seq<Event>)
    requires
        in_order(fresh(model, limit), events),
        events.len() > 0,
    ensures
        begun(run(fresh(model, limit), events), events[0]),
    decreases events.len(),
{
    let s = fresh(model, limit);
    let before = events.drop_last();
    assert(events.take(events.len() - 1) =~= before);
    assert(expected(run(s, before), events.last()));
    if before.len() == 0 {
        assert(run(s, before) == s);
        assert(events.last() == events[0]);
    } else {
        lemma_in_order_before(s, events, events.len() - 1);
        lemma_begun(model, limit, before);
        lemma_step_keeps_begun(run(s, before), events[0], events.last());
    }
}

proof fn lemma_model_is_loaded(s: DictationState, events: Seq<Event>)
    requires
        !s.model,
        run(s, events).model,
    ensures
        exists|i: int| 0 <= i < events.len() && #[trigger] events[i] == (Event::Loaded { ok: true }),
    decreases events.len(),
{
    if events.len() > 0 {
        let before = events.drop_last();
        if run(s, before).model {
            lemma_model_is_loaded(s, before);
            let i = choose|i: int|
                0 <= i < before.len() && #[trigger] before[i] == (Event::Loaded { ok: true });
            assert(events[i] == (Event::Loaded { ok: true }));
        } else {
            assert(events[events.len() - 1] == (Event::Loaded { ok: true }));
        }
    }
}

proof fn lemma_model_stays(s: DictationState, events: Seq<Event>)
    requires
        s.model,
    ensures
        run(s, events).model,
    decreases events.len(),
{
    if events.len() > 0 {
        lemma_model_stays(s, events.drop_last());
    }
}

/// The microphone comes first: before anything else happens it has been opened, so that a model is
/// loaded, and audio heard, only behind an open microphone.
pub proof fn law_microphone_first(model: bool, limit: Option<u64>, events: Seq<Event>, i: int)
    requires
        in_order(fresh(model, limit), events),
        0 < i < events.len(),
    ensures
        events[0] == (Event::Opened { ok: true }),
        !(events[i] is Opened),
{
    let before = events.take(i);
    lemma_in_order_before(fresh(model, limit), events, i);
    lemma_begun(model, limit, before);
    assert(before[0] == events[0]);
    assert(expected(run(fresh(model, limit), before), events[i]));
}

/// The model is loaded only where none is loaded: not where one was there from the start, and not
/// after it was loaded in this dictation.
pub proof fn law_model_is_loaded_once(model: bool, limit: Option<u64>, events: Seq<Event>, i: int)
    requires
        in_order(fresh(model, limit), events),
        0 <= i < events.len(),
        events[i] is Loaded,
    ensures
        !model,
        !run(fresh(model, limit), events.take(i)).model,
{
    let s = fresh(model, limit);
    let before = events.take(i);
    assert(expected(run(s, before), events[i]));
    assert(i > 0) by {
        if i == 0 {
            assert(before =~= Seq::empty());
        }
    }
    lemma_in_order_before(s, events, i);
    lemma_begun(model, limit, before);
    if model {
        lemma_model_stays(s, before);
    }
}

/// Nothing is asked of the microphone before the model is there: at a look for a command, a wait
/// for audio or an utterance it was loaded from the start, or has been loaded since.
pub proof fn law_model_before_audio(model: bool, limit: Option<u64>, events: Seq<Event>, i: int)
    requires
        in_order(fresh(model, limit), events),
        0 <= i < events.len(),
        events[i] is Command || events[i] is Audio || events[i] is Utterance,
    ensures
        model || exists|k: int|
            0 <= k < i && #[trigger] events[k] == (Event::Loaded { ok: true }),
{
    let s = fresh(model, limit);
    let before = events.take(i);
    assert(expected(run(s, before), events[i]));
    assert(i > 0) by {
        if i == 0 {
            assert(before =~= Seq::empty());
        }
    }
    lemma_in_order_before(s, events, i);
    lemma_begun(model, limit, before);
    if !model {
        lemma_model_is_loaded(s, before);
        let k = choose|k: int|
            0 <= k < before.len() && #[trigger] before[k] == (Event::Loaded { ok: true });
        assert(events[k] == (Event::Loaded { ok: true }));
    }
}

proof fn lemma_in_order_before(s: DictationState, events: Seq<Event>, n: int)
    requires
        in_order(s, events),
        0 <= n <= events.len(),
    ensures
        in_order(s, events.take(n)),
{
    let before = events.take(n);
    assert forall|i: int| 0 <= i < before.len() implies expected(
        run(s, before.take(i)),
        #[trigger] before[i],
    ) by {
        assert(before.take(i) =~= events.take(i));
        assert(expected(run(s, events.take(i)), events[i]));
    }
}

/// Only a look for a command is followed by a wait for audio.
proof fn lemma_wait_follows_a_look(s: DictationState, event: Event)
    requires
        stepped(s, event).at == At::Waiting,
    ensures
        event is Command,
{
}

/// Between two blocks of audio there is always a look for a command: an audio event comes right
/// after a command event.
#[verifier::spinoff_prover]
pub proof fn law_commands_are_noticed(
    model: bool,
    limit: Option<u64>,
    events: Seq<Event>,
    i: int,
)
    requires
        in_order(fresh(model, limit), events),
        0 <= i < events.len(),
        events[i] is Audio,
    ensures
        i > 0,
        events[i - 1] is Command,
{
    let s = fresh(model, limit);
    let before = events.take(i);
    assert(expected(run(s, before), events[i]));
    if i > 0 {
        assert(before.last() == events[i - 1]);
        lemma_wait_follows_a_look(run(s, before.drop_last()), events[i - 1]);
    }
}

/// No audio is dropped: whatever was delivered before and however long it took, a block that the
/// microphone gave is decoded; and an utterance in it, whether or not anything came of it, leaves the
/// rest of the block to be decoded too.
pub proof fn law_every_block_is_decoded(s: DictationState, said: bool)
    ensures
        reaction(s, Event::Audio(Waited::Block)) == Step::Decode,
        stepped(s, Event::Audio(Waited::Block)).at == At::Decoding,
        stepped(s, Event::Utterance { said }).at == At::Decoding,
        reaction(s, Event::Utterance { said: true }) == Step::VoiceAndDecode,
        reaction(s, Event::Utterance { said: false }) == Step::Decode,
{
}

/// A dictation goes on until there is a reason to stop: a look for a command that found none, or one
/// that is no stop, is followed by a wait for audio; a wait that gave nothing, and a block that is
/// dealt with before the silence is too long, by another look.
pub proof fn law_listening_goes_on(s: DictationState, found: Polled, speaking: bool, quiet: u128)
    requires
        found == Polled::Empty || found == Polled::Got(Cmd::Start) || found == Polled::Got(
            Cmd::Fetch,
        ),
        speaking || s.limit.is_none() || quiet <= s.limit.unwrap() * 1000000000,
    ensures
        reaction(s, Event::Command(found)) == Step::Wait,
        stepped(s, Event::Command(found)).at == At::Waiting,
        reaction(s, Event::Audio(Waited::Timeout)) == Step::Poll,
        stepped(s, Event::Audio(Waited::Timeout)).at == At::Polling,
        reaction(s, Event::BlockDone { speaking, quiet_nanos: quiet }) == if speaking {
            Step::VoiceAndPoll
        } else {
            Step::Poll
        },
        stepped(s, Event::BlockDone { speaking, quiet_nanos: quiet }).at == At::Polling,
{
}

/// Every reason to stop is heeded at once, whatever went before.
pub proof fn law_stops_are_heeded(s: DictationState, quiet: u128)
    ensures
        reaction(s, Event::Command(Polled::Got(Cmd::Stop))) == Step::Stop(StopReason::Hotkey),
        reaction(s, Event::Command(Polled::Gone)) == Step::Stop(StopReason::Shutdown),
        reaction(s, Event::Audio(Waited::Gone)) == Step::Stop(StopReason::DeviceGone),
        s.limit.is_some() && quiet > s.limit.unwrap() * 1000000000 ==> reaction(
            s,
            Event::BlockDone { speaking: false, quiet_nanos: quiet },
        ) == Step::Stop(StopReason::Silence),
        stepped(s, Event::Command(Polled::Got(Cmd::Stop))).at == At::Stopped(StopReason::Hotkey),
        stepped(s, Event::Command(Polled::Gone)).at == At::Stopped(StopReason::Shutdown),
        stepped(s, Event::Audio(Waited::Gone)).at == At::Stopped(StopReason::DeviceGone),
{
}

/// A dictation gets under way: an open microphone is followed by the pill, the pill by the model
/// where none is loaded, and then, or at once where one is, the listening begins.
pub proof fn law_a_dictation_gets_under_way(s: DictationState)
    ensures
        reaction(s, Event::Opened { ok: true }) == Step::Show,
        stepped(s, Event::Opened { ok: true }).at == At::Showing,
        reaction(s, Event::Shown) == if s.model {
            Step::Begin
        } else {
            Step::Load
        },
        stepped(s, Event::Shown).at == if s.model {
            At::Polling
        } else {
            At::Loading
        },
        reaction(s, Event::Loaded { ok: true }) == Step::Begin,
        stepped(s, Event::Loaded { ok: true }).at == At::Polling,
        stepped(s, Event::Loaded { ok: true }).model,
{
}

/// At every point a dictation takes whatever can happen there: every outcome of opening the
/// microphone, of loading, of a look, of a wait, of decoding, and of the tail.
pub proof fn law_every_outcome_is_taken(
    s: DictationState,
    ok: bool,
    found: Polled,
    waited: Waited,
    speaking: bool,
    quiet_nanos: u128,
    said: Option<bool>,
)
    ensures
        s.at == At::Opening ==> expected(s, Event::Opened { ok }),
        s.at == At::Showing ==> expected(s, Event::Shown),
        s.at == At::Loading ==> expected(s, Event::Loaded { ok }),
        s.at == At::Polling ==> expected(s, Event::Command(found)),
        s.at == At::Waiting ==> expected(s, Event::Audio(waited)),
        s.at == At::Decoding ==> expected(s, Event::Utterance { said: ok }),
        s.at == At::Decoding ==> expected(s, Event::BlockDone { speaking, quiet_nanos }),
        s.at == At::Decoding ==> expected(s, Event::Failed),
        s.at is Stopped ==> expected(s, Event::Tail { said }),
        s.at is Stopped ==> expected(s, Event::Failed),
{
}

/// A dictation in which speech was heard block after block: as long as nobody stops it, every round
/// of a look, a wait, the utterances of a block and its end comes back to a look, with each utterance
/// that came to something counted.
pub proof fn law_round_after_round(s: DictationState, found: Polled, said: Seq<bool>)
    requires
        s.at == At::Polling,
        found == Polled::Empty || found == Polled::Got(Cmd::Start) || found == Polled::Got(
            Cmd::Fetch,
        ),
    ensures
        ({
            let heard = Seq::new(said.len(), |i: int| Event::Utterance { said: said[i] });
            let before = seq![Event::Command(found), Event::Audio(Waited::Block)] + heard;
            let events = before.push(Event::BlockDone { speaking: true, quiet_nanos: 0 });
            &&& run(s, before).at == At::Decoding
            &&& run(s, events).at == At::Polling
            &&& run(s, events).model == s.model
            &&& run(s, events).limit == s.limit
            &&& run(s, events).delivered == s.delivered + said.filter(|b: bool| b).len()
        }),
    decreases said.len(),
{
    let heard = Seq::new(said.len(), |i: int| Event::Utterance { said: said[i] });
    let opening = seq![Event::Command(found), Event::Audio(Waited::Block)];
    let before = opening + heard;
    let events = before.push(Event::BlockDone { speaking: true, quiet_nanos: 0 });
    assert(events.drop_last() =~= before);
    if said.len() == 0 {
        assert(before =~= opening);
        assert(opening.drop_last() =~= seq![Event::Command(found)]);
        assert(seq![Event::Command(found)].drop_last() =~= Seq::<Event>::empty());
        assert(run(s, Seq::<Event>::empty()) == s);
        assert(run(s, seq![Event::Command(found)]).at == At::Waiting);
        reveal(Seq::filter);
        assert(said.filter(|b: bool| b).len() == 0);
    } else {
        let fewer = said.drop_last();
        law_round_after_round(s, found, fewer);
        let less = Seq::new(fewer.len(), |i: int| Event::Utterance { said: fewer[i] });
        assert(heard.drop_last() =~= less);
        assert(before.drop_last() =~= opening + less);
        assert(before.last() == Event::Utterance { said: said.last() });
        let ended = (opening + less).push(Event::BlockDone { speaking: true, quiet_nanos: 0 });
        assert(ended.drop_last() =~= opening + less);
        reveal(Seq::filter);
    }
}

/// Only an utterance that came to something is counted, and each once.
pub proof fn law_counted_once(s: DictationState, event: Event)
    ensures
        stepped(s, event).delivered == s.delivered + if event == (Event::Utterance { said: true })
            || event == (Event::Tail { said: Some(true) }) {
            1int
        } else {
            0
        },
        stepped(s, event).limit == s.limit,
        s.model ==> stepped(s, event).model,
{
}

/// A dictation that ran its course is done where anything was delivered, the tail included: the pill
/// then says so for nineteen tenths of a second, and else goes after four tenths.
pub proof fn law_ending_in_figures(s: DictationState, said: Option<bool>)
    ensures
        s.delivered > 0 || said == Some(true) ==> reaction(s, Event::Tail { said }) == Step::End(
            Ending { done: true, hide_ms: 1900 },
        ),
        s.delivered == 0 && said != Some(true) ==> reaction(s, Event::Tail { said }) == Step::End(
            Ending { done: false, hide_ms: 400 },
        ),
        stepped(s, Event::Tail { said }).at == At::Over,
        stepped(s, Event::Failed).at == At::Over,
        stepped(s, Event::Opened { ok: false }).at == At::Over,
        stepped(s, Event::Loaded { ok: false }).at == At::Over,
{
}

/// The silence that ends a dictation, in seconds, from its environment variable: three where the
/// variable says nothing usable, and none where it says 0.
pub fn idle_stop(var: Option<&str>) -> (r: Option<u64>)
    ensures
        ({
            let said = match settings::chars_of_ref(var) {
                Some(v) => number::parsed(v, u64::MAX as nat),
                None => None,
            };
            let secs = match said {
                Some(n) => n,
                None => 3,
            };
            &&& r.is_some() == (secs > 0)
            &&& r.is_some() ==> r.unwrap() == secs
        }),
{
    let said: Option<u64> = match var {
        Some(v) => number::parse_u64(v),
        None => None,
    };
    let secs: u64 = match said {
        Some(n) => n,
        None => IDLE_STOP_SECS,
    };
    if secs > 0 {
        Some(secs)
    } else {
        None
    }
}

/// The number of decode threads from its environment variable, `default` where the variable says
/// nothing usable.
pub fn decode_threads(var: Option<&str>, default: usize) -> (r: usize)
    ensures
        r == match settings::chars_of_ref(var) {
            Some(v) => match number::parsed(v, usize::MAX as nat) {
                Some(n) => n,
                None => default as nat,
            },
            None => default as nat,
        },
{
    let said: Option<usize> = match var {
        Some(v) => number::parse_usize(v),
        None => None,
    };
    match said {
        Some(n) => n,
        None => default,
    }
}

/// A thread count in words: 0 leaves the choice to the engine.
pub fn threads_label(threads: usize) -> (r: String)
    ensures
        r@ == if threads == 0 {
            "auto"@
        } else {
            number::decimal(threads as nat)
        },
{
    if threads == 0 {
        "auto".to_owned()
    } else {
        number::to_decimal(threads as u64)
    }
}

/// The display backend to ask the toolkit for: X11, unless the variable names another.
pub fn prefer_x11(var: Option<&str>) -> (r: String)
    ensures
        r@ == match settings::chars_of_ref(var) {
            Some(v) => v,
            None => "x11"@,
        },
{
    match var {
        Some(v) => v.to_owned(),
        None => "x11".to_owned(),
    }
}

/// Whether the pill is hidden once its time is up: not where another dictation has begun.
pub fn hides(listening: bool) -> (r: bool)
    ensures
        r == !listening,
{
    !listening
}

/// A dictation that has just been asked for opens the microphone first, has delivered nothing, and
/// keeps the limit and the model that it was given.
pub proof fn law_a_fresh_dictation(model: bool, limit: Option<u64>)
    ensures
        fresh(model, limit).at == At::Opening,
        fresh(model, limit).model == model,
        fresh(model, limit).delivered == 0,
        fresh(model, limit).limit == limit,
{
}

} // verus!
