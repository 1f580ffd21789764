use kotha::number::{parse_u64, parse_usize, to_decimal};
use kotha::session::{
    decode_threads, hides, idle_stop, prefer_x11, threads_label, toggle, worker_step, Cmd,
    Dictation, Ending, Event, Polled, Step, StopReason, Waited, WorkerStep,
};

const SECOND: u128 = 1_000_000_000;

#[test]
fn the_hotkey_toggles() {
    let (on, cmd) = toggle(false);
    assert!(on && cmd == Cmd::Start);
    let (off, cmd) = toggle(true);
    assert!(!off && cmd == Cmd::Stop);
}

#[test]
fn the_worker_spends_nothing_unasked() {
    assert!(worker_step(Cmd::Stop, true, "copy", "paste") == WorkerStep::Ignore);
    assert!(worker_step(Cmd::Fetch, true, "copy", "copy") == WorkerStep::Download);
    assert!(worker_step(Cmd::Start, false, "copy", "paste") == WorkerStep::AskForModel);
    assert!(worker_step(Cmd::Start, true, "copy", "copy") == WorkerStep::Dictate { reopen: false });
    assert!(worker_step(Cmd::Start, true, "copy", "paste") == WorkerStep::Dictate { reopen: true });
}

/// A dictation that is about to look for a command for the first time.
fn begun(limit: Option<u64>) -> Dictation {
    let mut d = Dictation::new(true, limit);
    assert!(d.step(Event::Opened { ok: true }) == Step::Show);
    assert!(d.step(Event::Shown) == Step::Begin);
    d
}

/// A dictation that has got a block and is decoding it.
fn decoding(limit: Option<u64>) -> Dictation {
    let mut d = begun(limit);
    assert!(d.step(Event::Command(Polled::Empty)) == Step::Wait);
    assert!(d.step(Event::Audio(Waited::Block)) == Step::Decode);
    d
}

#[test]
fn a_dictation_stops_for_four_reasons() {
    for cmd in [Cmd::Start, Cmd::Fetch] {
        let mut d = begun(Some(3));
        assert!(d.step(Event::Command(Polled::Got(cmd))) == Step::Wait);
        assert!(d.step(Event::Audio(Waited::Timeout)) == Step::Poll);
        assert!(
            d.step(Event::Command(Polled::Got(Cmd::Stop))) == Step::Stop(StopReason::Hotkey)
        );
    }
    let mut d = begun(Some(3));
    assert!(d.step(Event::Command(Polled::Gone)) == Step::Stop(StopReason::Shutdown));
    let mut d = begun(Some(3));
    d.step(Event::Command(Polled::Empty));
    assert!(d.step(Event::Audio(Waited::Gone)) == Step::Stop(StopReason::DeviceGone));
    let quiet = |speaking, quiet_nanos| Event::BlockDone { speaking, quiet_nanos };
    assert!(decoding(Some(3)).step(quiet(false, 3 * SECOND)) == Step::Poll);
    assert!(
        decoding(Some(3)).step(quiet(false, 3 * SECOND + 1)) == Step::Stop(StopReason::Silence)
    );
    assert!(decoding(Some(3)).step(quiet(true, 9 * SECOND)) == Step::VoiceAndPoll);
    assert!(decoding(None).step(quiet(false, u128::MAX)) == Step::Poll);
    let names: Vec<&str> =
        [StopReason::Hotkey, StopReason::Shutdown, StopReason::DeviceGone, StopReason::Silence]
            .iter()
            .map(|r| r.name())
            .collect();
    assert_eq!(names, vec!["hotkey", "shutdown", "device gone", "silence"]);
}

#[test]
fn discarded_noise_does_not_keep_a_dictation_alive() {
    let mut d = decoding(Some(3));
    assert!(d.step(Event::Utterance { said: false }) == Step::Decode);
    assert_eq!(d.count(), 0);
    assert!(d.step(Event::Utterance { said: true }) == Step::VoiceAndDecode);
    assert_eq!(d.count(), 1);
}

#[test]
fn the_pill_says_whether_something_was_done() {
    let idle = Step::End(Ending { done: false, hide_ms: 400 });
    let done = Step::End(Ending { done: true, hide_ms: 1900 });
    // The words in the block that is being decoded, what was still open, and how it ends.
    let cases = [
        (None, None, idle),
        (None, Some(false), idle),
        (None, Some(true), done),
        (Some(false), None, idle),
        (Some(true), None, done),
        (Some(true), Some(false), done),
    ];
    for (word, tail, end) in cases {
        let mut d = decoding(Some(3));
        if let Some(said) = word {
            d.step(Event::Utterance { said });
        }
        let quiet = Event::BlockDone { speaking: false, quiet_nanos: 4 * SECOND };
        assert!(d.step(quiet) == Step::Stop(StopReason::Silence));
        assert!(d.step(Event::Tail { said: tail }) == end);
    }
    assert_eq!(Ending { done: true, hide_ms: 1 }.state(), "done");
    assert_eq!(Ending { done: false, hide_ms: 1 }.state(), "idle");
    assert!(hides(false));
    assert!(!hides(true));
}

#[test]
fn the_tail_counts_like_any_utterance() {
    let mut d = decoding(None);
    d.step(Event::Utterance { said: true });
    d.step(Event::BlockDone { speaking: true, quiet_nanos: 0 });
    assert!(d.step(Event::Command(Polled::Gone)) == Step::Stop(StopReason::Shutdown));
    d.step(Event::Tail { said: Some(true) });
    assert_eq!(d.count(), 2);
}

#[test]
fn the_microphone_comes_before_the_model() {
    let mut d = Dictation::new(false, None);
    assert!(d.step(Event::Opened { ok: true }) == Step::Show);
    assert!(d.step(Event::Shown) == Step::Load);
    assert!(d.step(Event::Loaded { ok: true }) == Step::Begin);
    assert!(d.step(Event::Command(Polled::Empty)) == Step::Wait);
    // A model that is there is not loaded again.
    let mut d = Dictation::new(true, None);
    d.step(Event::Opened { ok: true });
    assert!(d.step(Event::Shown) == Step::Begin);
}

#[test]
fn a_failure_never_leaves_the_pill_up() {
    let gone = Step::End(Ending { done: false, hide_ms: 0 });
    let mut d = Dictation::new(false, None);
    assert!(d.step(Event::Opened { ok: false }) == gone);
    let mut d = Dictation::new(false, None);
    d.step(Event::Opened { ok: true });
    d.step(Event::Shown);
    assert!(d.step(Event::Loaded { ok: false }) == gone);
    // Even where something was delivered already, while decoding and in the tail.
    let mut d = decoding(None);
    d.step(Event::Utterance { said: true });
    assert!(d.step(Event::Failed) == gone);
    let mut d = begun(None);
    d.step(Event::Command(Polled::Got(Cmd::Stop)));
    assert!(d.step(Event::Failed) == gone);
}

#[test]
fn the_environment_sets_numbers() {
    assert_eq!(idle_stop(None), Some(3));
    assert_eq!(idle_stop(Some("10")), Some(10));
    assert_eq!(idle_stop(Some("0")), None);
    assert_eq!(idle_stop(Some("soon")), Some(3));
    assert_eq!(idle_stop(Some("-1")), Some(3));
    assert_eq!(decode_threads(None, 6), 6);
    assert_eq!(decode_threads(Some("4"), 6), 4);
    assert_eq!(decode_threads(Some(" 4"), 6), 6);
    assert_eq!(decode_threads(Some("0"), 6), 0);
    assert_eq!(threads_label(0), "auto");
    assert_eq!(threads_label(12), "12");
    assert_eq!(prefer_x11(None), "x11");
    assert_eq!(prefer_x11(Some("wayland")), "wayland");
}

#[test]
fn numbers_read_as_the_standard_library_reads_them() {
    for s in [
        "", "0", "7", "007", "+7", "+", "-", "-0", "++1", "1 ", " 1", "1_0", "18446744073709551615",
        "18446744073709551616", "99999999999999999999999", "0x1", "১", "1.0",
    ] {
        assert_eq!(parse_u64(s), s.parse::<u64>().ok(), "{s:?}");
        assert_eq!(parse_usize(s), s.parse::<usize>().ok(), "{s:?}");
    }
    for n in [0, 9, 10, 99, 100, 16_000, u64::MAX] {
        assert_eq!(to_decimal(n), n.to_string());
        assert_eq!(parse_u64(&to_decimal(n)), Some(n));
    }
}
