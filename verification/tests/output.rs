use kotha::output::{
    chord_next, deliver_first, deliver_next, keyboard_routes, output_line, permission_line,
    Borrowed, ChordStep, DeliverStep, GiveBack, ImageRead, Platform,
};
use kotha::pill::{place, Screen};
use kotha::wav::{no_audio, wrong_rate};

#[derive(Clone, PartialEq, Debug)]
enum Held {
    Text(String),
    Image(Vec<u8>),
    Files,
    Empty,
}

struct Clipboard(Held);

impl Clipboard {
    fn get_text(&self) -> Option<String> {
        match &self.0 {
            Held::Text(t) => Some(t.clone()),
            _ => None,
        }
    }

    fn set_text(&mut self, t: &str) {
        self.0 = Held::Text(t.to_string());
    }

    fn take(&self) -> Borrowed<Vec<u8>> {
        match Borrowed::from_text(self.get_text()) {
            Some(b) => b,
            None => Borrowed::from_image(match &self.0 {
                Held::Image(i) => ImageRead::Image(i.clone()),
                Held::Files => ImageRead::Failed,
                _ => ImageRead::NotThere,
            }),
        }
    }

    fn put(&mut self, back: GiveBack<Vec<u8>>) {
        match back {
            GiveBack::Leave => {}
            GiveBack::Text(t) => self.0 = Held::Text(t),
            GiveBack::Image(i) => self.0 = Held::Image(i),
        }
    }
}

#[test]
fn clipboard_is_borrowed_and_returned() {
    let mut cb = Clipboard(Held::Empty);
    let theirs = "https://example.com/the-link-the-user-copied";
    let ours = "আমার dictated text";

    cb.set_text(theirs);
    let borrowed = cb.take();
    assert!(matches!(borrowed, Borrowed::Text(ref t) if t == theirs));
    cb.set_text(ours);
    let back = borrowed.give_back(cb.get_text().as_deref(), ours);
    cb.put(back);
    assert_eq!(cb.get_text().unwrap(), theirs, "the user's clipboard was not restored");

    cb.set_text(theirs);
    let borrowed = cb.take();
    cb.set_text(ours);
    let fresh = "something they copied a moment ago";
    cb.set_text(fresh);
    let back = borrowed.give_back(cb.get_text().as_deref(), ours);
    cb.put(back);
    assert_eq!(cb.get_text().unwrap(), fresh, "a stale backup overwrote a fresh copy");
}

#[test]
fn everything_that_can_be_read_comes_back() {
    let ours = "ours";
    for (held, after) in [
        (Held::Text("theirs".into()), Held::Text("theirs".into())),
        (Held::Image(vec![1, 2]), Held::Image(vec![1, 2])),
        (Held::Files, Held::Text(ours.into())),
        (Held::Empty, Held::Text(ours.into())),
        (Held::Text(String::new()), Held::Text(ours.into())),
    ] {
        let mut cb = Clipboard(held);
        let b = cb.take();
        cb.set_text(ours);
        let back = b.give_back(cb.get_text().as_deref(), ours);
        cb.put(back);
        assert_eq!(cb.0, after);
    }
    // An image that was copied in the meantime stays, too.
    let mut cb = Clipboard(Held::Text("theirs".into()));
    let b = cb.take();
    cb.0 = Held::Image(vec![9]);
    let back = b.give_back(cb.get_text().as_deref(), ours);
    cb.put(back);
    assert_eq!(cb.0, Held::Image(vec![9]));
    assert!(matches!(Clipboard(Held::Files).take(), Borrowed::Unknown));
}

#[test]
fn deliveries_take_their_steps() {
    assert!(deliver_first("", true, true) == DeliverStep::Nothing);
    assert!(deliver_first("x", false, true) == DeliverStep::Nothing);
    assert!(deliver_first("x", true, false) == DeliverStep::Copy);
    let mut step = deliver_first("x", true, true);
    for want in [
        DeliverStep::Borrow,
        DeliverStep::Write,
        DeliverStep::Paste,
        DeliverStep::Settle,
        DeliverStep::GiveBack,
        DeliverStep::Done,
        DeliverStep::Done,
    ] {
        assert!(step == want);
        step = deliver_next(step, true);
    }
    assert!(deliver_next(DeliverStep::Copy, true) == DeliverStep::Done);
    assert!(deliver_next(DeliverStep::Copy, false) == DeliverStep::WriteFailed);
    assert!(deliver_next(DeliverStep::Write, false) == DeliverStep::WriteFailed);
    assert!(deliver_next(DeliverStep::Paste, false) == DeliverStep::PasteFailed);
    assert!(deliver_next(DeliverStep::PasteFailed, true) == DeliverStep::PasteFailed);
}

#[test]
fn the_modifier_is_always_released() {
    assert!(chord_next(ChordStep::Press, false) == ChordStep::Done { ok: false });
    for clicked in [true, false] {
        for released in [true, false] {
            let click = chord_next(ChordStep::Press, true);
            assert!(click == ChordStep::Click);
            let release = chord_next(click, clicked);
            assert!(release == ChordStep::Release { clicked });
            let done = chord_next(release, released);
            assert!(done == ChordStep::Done { ok: clicked && released });
            assert!(chord_next(done, true) == done);
        }
    }
}

#[test]
fn one_backend_at_a_time() {
    let shape = |portal, wayland| -> Vec<(bool, bool)> {
        keyboard_routes(Platform::Linux, portal, wayland)
            .iter()
            .map(|r| (r.x11, r.wayland))
            .collect()
    };
    assert_eq!(shape(true, true), vec![(false, false)]);
    assert_eq!(shape(true, false), vec![(false, false)]);
    assert_eq!(shape(false, true), vec![(false, true), (true, false)]);
    assert_eq!(shape(false, false), vec![(true, false)]);
    let how = |p| keyboard_routes(p, true, true)[0].how.clone();
    assert_eq!(how(Platform::Linux), "libei via the desktop portal — reaches every window");
    assert_eq!(how(Platform::Macos), "quartz — reaches every window");
    assert_eq!(
        how(Platform::Other),
        "SendInput — reaches every window except ones running as administrator"
    );
    assert_eq!(
        keyboard_routes(Platform::Linux, false, false)[0].how,
        "x11/xwayland only — native Wayland windows will NOT receive it; try KOTHA_PASTE=portal"
    );
    assert_eq!(
        keyboard_routes(Platform::Linux, false, true)[0].how,
        "wayland virtual keyboard — reaches every window"
    );
}

#[test]
fn the_log_says_where_text_goes() {
    assert_eq!(permission_line(false, true), None);
    assert_eq!(
        permission_line(true, true),
        Some("offering the saved permission back to the desktop")
    );
    assert_eq!(
        permission_line(true, false),
        Some("no saved permission yet — the desktop will ask once")
    );
    assert_eq!(output_line(false, true, "x"), "output  terminal only");
    assert_eq!(output_line(true, true, "x"), "output  clipboard + synthetic paste (x)");
    assert_eq!(
        output_line(true, false, "x"),
        "output  clipboard only — Text output in the tray menu, or KOTHA_PASTE=1 / =portal, to paste at the cursor"
    );
}

#[test]
fn the_pill_stands_at_the_bottom_centre() {
    let screen = Screen { x: 0, y: 0, width: 1920, height: 1080 };
    assert_eq!(place(screen, 320, 120, 72), Some((800, 888)));
    let second = Screen { x: -2560, y: 100, width: 2560, height: 1440 };
    assert_eq!(place(second, 640, 240, 144), Some((-1600, 1156)));
    // Wider than the screen: half of the difference is cut towards zero.
    let tiny = Screen { x: 0, y: 0, width: 101, height: 50 };
    assert_eq!(place(tiny, 200, 120, 0), Some((-49, -70)));
    let huge = Screen { x: i32::MAX, y: 0, width: u32::MAX, height: 0 };
    assert_eq!(place(huge, 0, 0, 0), None);
}

#[test]
fn unusable_audio_files_are_named() {
    assert_eq!(wrong_rate("a.wav", 16_000), None);
    assert_eq!(
        wrong_rate("a.wav", 44_100),
        Some(
            "a.wav is 44100 Hz; this spike needs 16000 Hz.\n    Convert it:  ffmpeg -i in.wav -ar 16000 -ac 1 out.wav"
                .to_string()
        )
    );
    assert_eq!(no_audio("a.wav", 1), None);
    assert_eq!(no_audio("a.wav", 0), Some("a.wav contains no audio".to_string()));
}
