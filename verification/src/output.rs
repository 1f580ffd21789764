//! Where dictated text goes: the clipboard, and a synthetic paste on top of it. The clipboard is
//! borrowed for a paste, and what the user had on it goes back afterwards.

use crate::text;
use vstd::prelude::*;

verus! {

/// How long the target application gets to read the clipboard before the previous contents go
/// back, in milliseconds.
pub const PASTE_SETTLE_MS: u64 = 400;

/// What a clipboard holds, as far as it can be read.
pub enum Clip<I> {
    Text(Seq<char>),
    Image(I),
    /// A file list, or an application's private format.
    Other,
    Empty,
}

/// What reading an image from the clipboard gave.
pub enum ImageRead<I> {
    Image(I),
    NotThere,
    Failed,
}

/// Whatever was on the clipboard before it was borrowed to paste.
pub enum Borrowed<I> {
    Text(String),
    Image(I),
    /// Something that cannot be read back: to be reported, as the paste replaces it.
    Unknown,
    Nothing,
}

/// What goes back onto the clipboard.
pub enum GiveBack<I> {
    Leave,
    Text(String),
    Image(I),
}

impl<I> Clip<I> {
    /// What reading text gives.
    pub open spec fn read_text(self) -> Option<Seq<char>> {
        match self {
            Clip::Text(t) => Some(t),
            _ => None,
        }
    }

    /// What reading an image gives.
    pub open spec fn read_image(self) -> ImageRead<I> {
        match self {
            Clip::Image(i) => ImageRead::Image(i),
            Clip::Other => ImageRead::Failed,
            _ => ImageRead::NotThere,
        }
    }

    /// The clipboard after `put` was carried out.
    pub open spec fn after(self, put: GiveBack<I>) -> Clip<I> {
        match put {
            GiveBack::Leave => self,
            GiveBack::Text(t) => Clip::Text(t@),
            GiveBack::Image(i) => Clip::Image(i),
        }
    }
}

/// `b` is what stands for a clipboard on which reading text gave `text`, and reading an image,
/// where it came to that, gave `image`.
pub open spec fn took<I>(
    b: Borrowed<I>,
    text: Option<Seq<char>>,
    image: ImageRead<I>,
) -> bool {
    match text {
        Some(t) => if t.len() > 0 {
            b matches Borrowed::Text(s) && s@ == t
        } else {
            b is Nothing
        },
        None => match image {
            ImageRead::Image(i) => b == Borrowed::Image(i),
            ImageRead::NotThere => b is Nothing,
            ImageRead::Failed => b is Unknown,
        },
    }
}

/// `put` is what goes back for `b`, where reading text gives `now` and our own text is `ours`.
pub open spec fn gave_back<I>(
    put: GiveBack<I>,
    b: Borrowed<I>,
    now: Option<Seq<char>>,
    ours: Seq<char>,
) -> bool {
    if now != Some(ours) {
        put is Leave
    } else {
        match b {
            Borrowed::Text(t) => put matches GiveBack::Text(s) && s@ == t@,
            Borrowed::Image(i) => put == GiveBack::Image(i),
            Borrowed::Unknown => put is Leave,
            Borrowed::Nothing => put is Leave,
        }
    }
}

impl<I> Borrowed<I> {
    /// From what reading text gave; `None` where that failed, and an image is to be asked for.
    pub fn from_text(read: Option<String>) -> (r: Option<Self>)
        ensures
            r.is_some() == read.is_some(),
            r.is_some() ==> took(r.unwrap(), Some(read.unwrap()@), ImageRead::<I>::NotThere),
    {
        match read {
            Some(t) => {
                if text::same_text(t.as_str(), "") {
                    proof {
                        reveal_strlit("");
                    }
                    Some(Borrowed::Nothing)
                } else {
                    proof {
                        reveal_strlit("");
                        if t@.len() == 0 {
                            assert(t@ =~= ""@);
                        }
                    }
                    Some(Borrowed::Text(t))
                }
            },
            None => None,
        }
    }

    /// From what reading an image gave, once reading text failed.
    pub fn from_image(read: ImageRead<I>) -> (r: Self)
        ensures
            took(r, None, read),
    {
        match read {
            ImageRead::Image(i) => Borrowed::Image(i),
            ImageRead::NotThere => Borrowed::Nothing,
            ImageRead::Failed => Borrowed::Unknown,
        }
    }

    /// What to put back: nothing unless our own text is still what is on the clipboard.
    pub fn give_back(self, now: Option<&str>, ours: &str) -> (r: GiveBack<I>)
        ensures
            gave_back(
                r,
                self,
                match now {
                    Some(t) => Some(t@),
                    None => None,
                },
                ours@,
            ),
    {
        let still_ours: bool = match now {
            Some(t) => text::same_text(t, ours),
            None => false,
        };
        if !still_ours {
            return GiveBack::Leave;
        }
        match self {
            Borrowed::Text(t) => GiveBack::Text(t),
            Borrowed::Image(i) => GiveBack::Image(i),
            Borrowed::Unknown => GiveBack::Leave,
            Borrowed::Nothing => GiveBack::Leave,
        }
    }
}

/// Borrowing a clipboard that can be read, putting our text on it and giving back restores it.
pub proof fn law_borrowed_is_returned<I>(
    clip: Clip<I>,
    b: Borrowed<I>,
    put: GiveBack<I>,
    ours: Seq<char>,
)
    requires
        clip matches Clip::Text(t) ==> t.len() > 0,
        clip is Text || clip is Image,
        took(b, clip.read_text(), clip.read_image()),
        gave_back(put, b, Clip::<I>::Text(ours).read_text(), ours),
    ensures
        Clip::Text(ours).after(put) == clip,
{
}

/// Whatever the user copied in the meantime stays, whatever was borrowed.
pub proof fn law_fresh_copy_survives<I>(
    fresh: Clip<I>,
    b: Borrowed<I>,
    put: GiveBack<I>,
    ours: Seq<char>,
)
    requires
        fresh.read_text() != Some(ours),
        gave_back(put, b, fresh.read_text(), ours),
    ensures
        fresh.after(put) == fresh,
{
}

/// Where nothing could be read back, our text stays on the clipboard.
pub proof fn law_nothing_to_return_leaves_our_text<I>(
    b: Borrowed<I>,
    put: GiveBack<I>,
    ours: Seq<char>,
)
    requires
        b is Nothing || b is Unknown,
        gave_back(put, b, Some(ours), ours),
    ensures
        Clip::<I>::Text(ours).after(put) == Clip::<I>::Text(ours),
{
}

/// The steps of one delivery.
#[derive(Clone, Copy, PartialEq, Eq, Structural)]
pub enum DeliverStep {
    /// Nothing to deliver, or nowhere to deliver it to.
    Nothing,
    /// Put the text on the clipboard and leave it there.
    Copy,
    /// Read what is on the clipboard.
    Borrow,
    /// Put the text on the clipboard.
    Write,
    /// Send the paste chord.
    Paste,
    /// Give the target time to read.
    Settle,
    /// Put back what was borrowed.
    GiveBack,
    /// The text could not be put on the clipboard.
    WriteFailed,
    /// The chord could not be sent; the text stays on the clipboard.
    PasteFailed,
    Done,
}

pub open spec fn first_delivery(empty: bool, clipboard: bool, keyboard: bool) -> DeliverStep {
    if !clipboard || empty {
        DeliverStep::Nothing
    } else if keyboard {
        DeliverStep::Borrow
    } else {
        DeliverStep::Copy
    }
}

/// The step after one that went well, or did not.
pub open spec fn next_delivery(step: DeliverStep, ok: bool) -> DeliverStep {
    match step {
        DeliverStep::Copy => if ok {
            DeliverStep::Done
        } else {
            DeliverStep::WriteFailed
        },
        DeliverStep::Borrow => DeliverStep::Write,
        DeliverStep::Write => if ok {
            DeliverStep::Paste
        } else {
            DeliverStep::WriteFailed
        },
        DeliverStep::Paste => if ok {
            DeliverStep::Settle
        } else {
            DeliverStep::PasteFailed
        },
        DeliverStep::Settle => DeliverStep::GiveBack,
        DeliverStep::GiveBack => DeliverStep::Done,
        _ => step,
    }
}

/// The first step towards delivering `line`, given what there is to deliver with.
pub fn deliver_first(line: &str, clipboard: bool, keyboard: bool) -> (r: DeliverStep)
    ensures
        r == first_delivery(line@.len() == 0, clipboard, keyboard),
{
    let chars = text::chars_of(line);
    if !clipboard || chars.len() == 0 {
        DeliverStep::Nothing
    } else if keyboard {
        DeliverStep::Borrow
    } else {
        DeliverStep::Copy
    }
}

/// The step after `step`.
pub fn deliver_next(step: DeliverStep, ok: bool) -> (r: DeliverStep)
    ensures
        r == next_delivery(step, ok),
{
    match step {
        DeliverStep::Copy => {
            if ok {
                DeliverStep::Done
            } else {
                DeliverStep::WriteFailed
            }
        },
        DeliverStep::Borrow => DeliverStep::Write,
        DeliverStep::Write => {
            if ok {
                DeliverStep::Paste
            } else {
                DeliverStep::WriteFailed
            }
        },
        DeliverStep::Paste => {
            if ok {
                DeliverStep::Settle
            } else {
                DeliverStep::PasteFailed
            }
        },
        DeliverStep::Settle => DeliverStep::GiveBack,
        DeliverStep::GiveBack => DeliverStep::Done,
        _ => step,
    }
}

/// The step that a delivery is at after the given outcomes.
pub open spec fn delivery_after(from: DeliverStep, outcomes: Seq<bool>) -> DeliverStep
    decreases outcomes.len(),
{
    if outcomes.len() == 0 {
        from
    } else {
        next_delivery(delivery_after(from, outcomes.drop_last()), outcomes.last())
    }
}

/// A copy without a paste is never taken back: the clipboard is the delivery.
pub proof fn law_copy_is_not_restored(outcomes: Seq<bool>)
    ensures
        delivery_after(DeliverStep::Copy, outcomes) == DeliverStep::Copy || delivery_after(
            DeliverStep::Copy,
            outcomes,
        ) == DeliverStep::Done || delivery_after(DeliverStep::Copy, outcomes)
            == DeliverStep::WriteFailed,
    decreases outcomes.len(),
{
    if outcomes.len() > 0 {
        law_copy_is_not_restored(outcomes.drop_last());
    }
}

/// What was borrowed goes back only after the text was written and pasted; a paste that failed
/// leaves the text on the clipboard.
pub proof fn law_restored_only_after_a_paste(outcomes: Seq<bool>)
    requires
        delivery_after(DeliverStep::Borrow, outcomes) == DeliverStep::GiveBack,
    ensures
        outcomes.len() >= 3,
        outcomes[1],
        outcomes[2],
{
    lemma_delivery(outcomes);
}

proof fn lemma_delivery(outcomes: Seq<bool>)
    ensures
        ({
            let at = delivery_after(DeliverStep::Borrow, outcomes);
            let n = outcomes.len();
            &&& n == 0 ==> at == DeliverStep::Borrow
            &&& n == 1 ==> at == DeliverStep::Write
            &&& n == 2 ==> at == if outcomes[1] {
                DeliverStep::Paste
            } else {
                DeliverStep::WriteFailed
            }
            &&& n >= 3 && !outcomes[1] ==> at == DeliverStep::WriteFailed
            &&& n >= 3 && outcomes[1] && !outcomes[2] ==> at == DeliverStep::PasteFailed
            &&& n == 3 && outcomes[1] && outcomes[2] ==> at == DeliverStep::Settle
            &&& n == 4 && outcomes[1] && outcomes[2] ==> at == DeliverStep::GiveBack
            &&& n >= 5 && outcomes[1] && outcomes[2] ==> at == DeliverStep::Done
        }),
    decreases outcomes.len(),
{
    if outcomes.len() > 0 {
        lemma_delivery(outcomes.drop_last());
    }
}

/// The steps of the paste chord.
#[derive(Clone, Copy, PartialEq, Eq, Structural)]
pub enum ChordStep {
    Press,
    Click,
    /// Let go of the modifier; `clicked` is whether the keystroke went well.
    Release { clicked: bool },
    Done { ok: bool },
}

/// The step after one that went well, or did not.
pub open spec fn next_chord(step: ChordStep, ok: bool) -> ChordStep {
    match step {
        ChordStep::Press => if ok {
            ChordStep::Click
        } else {
            ChordStep::Done { ok: false }
        },
        ChordStep::Click => ChordStep::Release { clicked: ok },
        ChordStep::Release { clicked } => ChordStep::Done { ok: ok && clicked },
        ChordStep::Done { ok: done } => step,
    }
}

/// The step after `step`.
pub fn chord_next(step: ChordStep, ok: bool) -> (r: ChordStep)
    ensures
        r == next_chord(step, ok),
{
    match step {
        ChordStep::Press => {
            if ok {
                ChordStep::Click
            } else {
                ChordStep::Done { ok: false }
            }
        },
        ChordStep::Click => ChordStep::Release { clicked: ok },
        ChordStep::Release { clicked } => ChordStep::Done { ok: ok && clicked },
        ChordStep::Done { ok: _ } => step,
    }
}

/// A modifier that was pressed is always let go, even where the keystroke failed, and the chord
/// went well only where all three steps did.
pub proof fn law_modifier_is_released(clicked: bool, released: bool)
    ensures
        next_chord(next_chord(ChordStep::Press, true), clicked) == (ChordStep::Release { clicked }),
        next_chord(ChordStep::Release { clicked }, released) == (ChordStep::Done {
            ok: clicked && released,
        }),
{
}

/// The kinds of desktop that input is sent on.
#[derive(Clone, Copy, PartialEq, Eq, Structural)]
pub enum Platform {
    Linux,
    Macos,
    Other,
}

/// One way to connect to the desktop's input, and what it reaches.
pub struct Route {
    /// The X11 backend may open.
    pub x11: bool,
    /// The Wayland backend may open.
    pub wayland: bool,
    pub how: String,
}

impl Route {
    pub open spec fn is(self, x11: bool, wayland: bool, how: Seq<char>) -> bool {
        self.x11 == x11 && self.wayland == wayland && self.how@ == how
    }
}

/// The routes to try, in order; the first that opens is used, and none other.
pub open spec fn routes_are(
    r: Seq<Route>,
    platform: Platform,
    portal: bool,
    wayland: bool,
) -> bool {
    match platform {
        Platform::Linux => if portal {
            r.len() == 1 && r[0].is(
                false,
                false,
                "libei via the desktop portal — reaches every window"@,
            )
        } else if wayland {
            r.len() == 2 && r[0].is(
                false,
                true,
                "wayland virtual keyboard — reaches every window"@,
            ) && r[1].is(true, false, x11_reach())
        } else {
            r.len() == 1 && r[0].is(true, false, x11_reach())
        },
        Platform::Macos => r.len() == 1 && r[0].is(
            true,
            true,
            "quartz — reaches every window"@,
        ),
        Platform::Other => r.len() == 1 && r[0].is(
            true,
            true,
            "SendInput — reaches every window except ones running as administrator"@,
        ),
    }
}

pub open spec fn x11_reach() -> Seq<char> {
    "x11/xwayland only — native Wayland windows will NOT receive it; try KOTHA_PASTE=portal"@
}

/// The routes to the keyboard, in the order in which they are tried.
pub fn keyboard_routes(platform: Platform, portal: bool, wayland: bool) -> (r: Vec<Route>)
    ensures
        routes_are(r@, platform, portal, wayland),
{
    let mut out: Vec<Route> = Vec::new();
    match platform {
        Platform::Linux => {
            if portal {
                out.push(
                    Route {
                        x11: false,
                        wayland: false,
                        how: "libei via the desktop portal — reaches every window".to_owned(),
                    },
                );
            } else {
                if wayland {
                    out.push(
                        Route {
                            x11: false,
                            wayland: true,
                            how: "wayland virtual keyboard — reaches every window".to_owned(),
                        },
                    );
                }
                out.push(
                    Route {
                        x11: true,
                        wayland: false,
                        how:
                            "x11/xwayland only — native Wayland windows will NOT receive it; try KOTHA_PASTE=portal".to_owned(),
                    },
                );
            }
        },
        Platform::Macos => {
            out.push(
                Route { x11: true, wayland: true, how: "quartz — reaches every window".to_owned() },
            );
        },
        Platform::Other => {
            out.push(
                Route {
                    x11: true,
                    wayland: true,
                    how:
                        "SendInput — reaches every window except ones running as administrator".to_owned(),
                },
            );
        },
    }
    out
}

/// On Linux no route opens both display backends, so that a keystroke is never sent twice.
pub proof fn law_one_connection(r: Seq<Route>, portal: bool, wayland: bool, i: int)
    requires
        routes_are(r, Platform::Linux, portal, wayland),
        0 <= i < r.len(),
    ensures
        !(r[i].x11 && r[i].wayland),
{
}

/// The line about the permission that a paste needs; none where nothing is pasted.
pub fn permission_line(paste: bool, saved: bool) -> (r: Option<&'static str>)
    ensures
        r.is_some() == paste,
        r.is_some() ==> r.unwrap()@ == if saved {
            "offering the saved permission back to the desktop"@
        } else {
            "no saved permission yet — the desktop will ask once"@
        },
{
    if !paste {
        None
    } else if saved {
        Some("offering the saved permission back to the desktop")
    } else {
        Some("no saved permission yet — the desktop will ask once")
    }
}

/// The line about where text goes, given what could be opened.
pub fn output_line(clipboard: bool, keyboard: bool, how: &str) -> (r: String)
    ensures
        r@ == if !clipboard {
            "output  terminal only"@
        } else if keyboard {
            "output  clipboard + synthetic paste ("@ + how@ + ")"@
        } else {
            "output  clipboard only — Text output in the tray menu, or KOTHA_PASTE=1 / =portal, to paste at the cursor"@
        },
{
    if !clipboard {
        "output  terminal only".to_owned()
    } else if keyboard {
        let mut out = "output  clipboard + synthetic paste (".to_owned();
        out.append(how);
        out.append(")");
        out
    } else {
        "output  clipboard only — Text output in the tray menu, or KOTHA_PASTE=1 / =portal, to paste at the cursor".to_owned()
    }
}

/// What is borrowed is what was there: a text that is not empty as that text, a picture as that
/// picture, what cannot be read back as something unknown, and an empty clipboard as nothing.
pub proof fn law_borrowed_is_what_was_there<I>(clip: Clip<I>, b: Borrowed<I>)
    requires
        took(b, clip.read_text(), clip.read_image()),
    ensures
        clip matches Clip::Text(t) ==> (t.len() > 0 ==> (b matches Borrowed::Text(s) && s@ == t)),
        clip matches Clip::Text(t) ==> (t.len() == 0 ==> b is Nothing),
        clip matches Clip::Image(i) ==> b == Borrowed::Image(i),
        clip is Other ==> b is Unknown,
        clip is Empty ==> b is Nothing,
{
}

/// What was borrowed goes back whole, whatever it is, as long as our own text is still on the
/// clipboard; and where it is not, nothing is put there.
pub proof fn law_all_that_was_borrowed_goes_back<I>(
    put: GiveBack<I>,
    b: Borrowed<I>,
    now: Option<Seq<char>>,
    ours: Seq<char>,
)
    requires
        gave_back(put, b, now, ours),
    ensures
        now == Some(ours) ==> (b matches Borrowed::Text(t) ==> (put matches GiveBack::Text(s) && s@
            == t@)),
        now == Some(ours) ==> (b matches Borrowed::Image(i) ==> put == GiveBack::Image(i)),
        now != Some(ours) || b is Nothing || b is Unknown ==> put is Leave,
{
}

/// There is something to deliver where there is a text and a clipboard: it is pasted where there is
/// a keyboard, and else left on the clipboard.
pub proof fn law_every_text_is_delivered(empty: bool, clipboard: bool, keyboard: bool)
    ensures
        clipboard && !empty && keyboard ==> first_delivery(empty, clipboard, keyboard)
            == DeliverStep::Borrow,
        clipboard && !empty && !keyboard ==> first_delivery(empty, clipboard, keyboard)
            == DeliverStep::Copy,
        !clipboard || empty ==> first_delivery(empty, clipboard, keyboard) == DeliverStep::Nothing,
{
}

/// A delivery takes its steps in order, whatever it delivers. A copy is done once it is written. A
/// paste borrows, writes, pastes, waits and gives back; one that cannot be written or pasted ends
/// there; and an end is an end.
pub proof fn law_delivery_goes_through(outcomes: Seq<bool>)
    ensures
        ({
            let at = delivery_after(DeliverStep::Borrow, outcomes);
            let n = outcomes.len();
            &&& n == 1 ==> at == DeliverStep::Write
            &&& n == 2 && outcomes[1] ==> at == DeliverStep::Paste
            &&& n == 3 && outcomes[1] && outcomes[2] ==> at == DeliverStep::Settle
            &&& n == 4 && outcomes[1] && outcomes[2] ==> at == DeliverStep::GiveBack
            &&& n >= 5 && outcomes[1] && outcomes[2] ==> at == DeliverStep::Done
            &&& n >= 2 && !outcomes[1] ==> at == DeliverStep::WriteFailed
            &&& n >= 3 && outcomes[1] && !outcomes[2] ==> at == DeliverStep::PasteFailed
        }),
        outcomes.len() > 0 ==> delivery_after(DeliverStep::Copy, outcomes) == if outcomes[0] {
            DeliverStep::Done
        } else {
            DeliverStep::WriteFailed
        },
        delivery_after(DeliverStep::Nothing, outcomes) == DeliverStep::Nothing,
    decreases outcomes.len(),
{
    lemma_delivery(outcomes);
    if outcomes.len() > 0 {
        let fewer = outcomes.drop_last();
        law_delivery_goes_through(fewer);
        if fewer.len() > 0 {
            assert(fewer[0] == outcomes[0]);
        } else {
            assert(delivery_after(DeliverStep::Copy, fewer) == DeliverStep::Copy);
        }
    }
}

/// The chord is pressed, struck and let go; a modifier that could not be pressed ends it; and an end
/// is an end.
pub proof fn law_chord_goes_through(pressed: bool, struck: bool, let_go: bool, more: bool)
    ensures
        ({
            let after_press = next_chord(ChordStep::Press, pressed);
            let after_strike = next_chord(after_press, struck);
            let end = next_chord(after_strike, let_go);
            &&& pressed ==> after_press == ChordStep::Click
            &&& pressed ==> after_strike == (ChordStep::Release { clicked: struck })
            &&& pressed ==> end == (ChordStep::Done { ok: struck && let_go })
            &&& !pressed ==> after_press == (ChordStep::Done { ok: false })
            &&& next_chord(ChordStep::Done { ok: more }, let_go) == (ChordStep::Done { ok: more })
        }),
{
}

/// There is always a way to the keyboard. On Linux the portal is used where it is asked for, and
/// nothing else; a Wayland desktop is tried before X11; elsewhere both backends may open.
pub proof fn law_routes_in_order(r: Seq<Route>, platform: Platform, portal: bool, wayland: bool)
    requires
        routes_are(r, platform, portal, wayland),
    ensures
        r.len() >= 1,
        platform == Platform::Linux && portal ==> r.len() == 1 && !r[0].x11 && !r[0].wayland,
        platform == Platform::Linux && !portal && wayland ==> r.len() == 2 && !r[0].x11
            && r[0].wayland && r[1].x11 && !r[1].wayland,
        platform == Platform::Linux && !portal && !wayland ==> r.len() == 1 && r[0].x11
            && !r[0].wayland,
        platform != Platform::Linux ==> r.len() == 1 && r[0].x11 && r[0].wayland,
{
}

} // verus!
