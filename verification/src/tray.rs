//! The tray menu: what it offers, what a click means, and how the hotkey is rebound.

use crate::settings;
use crate::text;
use vstd::prelude::*;

verus! {

/// The four key combinations that the menu always offers, the default first.
pub open spec fn offered_keys(macos: bool) -> Seq<Seq<char>> {
    if macos {
        seq!["Alt+Shift+D"@, "Ctrl+Shift+Space"@, "Ctrl+Alt+Space"@, "F9"@]
    } else {
        seq!["F9"@, "Ctrl+Shift+Space"@, "Alt+Shift+D"@, "Ctrl+Alt+Space"@]
    }
}

/// What the menu offers while `bound` is bound: the fixed list, and `bound` itself where it is not
/// in the list.
pub open spec fn keys_in_menu(bound: Seq<char>, macos: bool) -> Seq<Seq<char>> {
    if offered_keys(macos).contains(bound) {
        offered_keys(macos)
    } else {
        offered_keys(macos).push(bound)
    }
}

/// The modes and their labels.
pub open spec fn modes_in_menu() -> Seq<(Seq<char>, Seq<char>)> {
    seq![
        ("copy"@, "Clipboard only"@),
        ("paste"@, "Paste at the cursor"@),
        ("portal"@, "Paste at the cursor (portal)"@),
    ]
}

/// An entry that can be ticked.
pub struct CheckEntry {
    pub id: String,
    pub label: String,
    pub enabled: bool,
    pub checked: bool,
}

impl CheckEntry {
    pub open spec fn shows(
        self,
        id: Seq<char>,
        label: Seq<char>,
        enabled: bool,
        checked: bool,
    ) -> bool {
        &&& self.id@ == id
        &&& self.label@ == label
        &&& self.enabled == enabled
        &&& self.checked == checked
    }
}

/// The whole menu.
pub struct TrayMenu {
    pub dictate: String,
    pub quit: String,
    pub keys: Vec<CheckEntry>,
    pub output_title: String,
    pub modes: Vec<CheckEntry>,
}

impl TrayMenu {
    /// The menu while `bound` is bound and `chosen` is the mode in force; the modes cannot be
    /// clicked where the environment forces one.
    pub open spec fn shows(
        self,
        bound: Seq<char>,
        chosen: Seq<char>,
        forced: bool,
        macos: bool,
    ) -> bool {
        let keys = keys_in_menu(bound, macos);
        let modes = modes_in_menu();
        &&& self.dictate@ == dictate_label(bound)
        &&& self.quit@ == "Quit Kotha"@
        &&& self.keys@.len() == keys.len()
        &&& forall|i: int|
            0 <= i < keys.len() ==> (#[trigger] self.keys@[i]).shows(
                "key:"@ + keys[i],
                keys[i],
                true,
                keys[i] == bound,
            )
        &&& self.output_title@ == if forced {
            "Text output  (KOTHA_PASTE)"@
        } else {
            "Text output"@
        }
        &&& self.modes@.len() == modes.len()
        &&& forall|i: int|
            0 <= i < modes.len() ==> (#[trigger] self.modes@[i]).shows(
                "paste:"@ + modes[i].0,
                modes[i].1,
                !forced,
                modes[i].0 == chosen,
            )
    }
}

pub open spec fn dictate_label(bound: Seq<char>) -> Seq<char> {
    "Dictate  "@ + bound
}

/// What a click asks for.
pub enum TrayAction {
    Toggle,
    Quit,
    /// Bind another key combination.
    Rebind(String),
    /// Choose how text leaves, from the next dictation on.
    SetMode(String),
    Ignore,
}

/// `s` begins with `prefix`.
pub open spec fn begins(s: Seq<char>, prefix: Seq<char>) -> bool {
    prefix.len() <= s.len() && s.take(prefix.len() as int) == prefix
}

impl TrayAction {
    /// The meaning of an entry's identifier.
    pub open spec fn means(self, id: Seq<char>) -> bool {
        if id == "dictate"@ {
            self is Toggle
        } else if id == "quit"@ {
            self is Quit
        } else if begins(id, "key:"@) {
            self matches TrayAction::Rebind(keys) && keys@ == id.skip("key:"@.len() as int)
        } else if begins(id, "paste:"@) {
            self matches TrayAction::SetMode(mode) && mode@ == id.skip("paste:"@.len() as int)
        } else {
            self is Ignore
        }
    }
}

/// What follows `prefix`, where `s` begins with it.
pub fn after_prefix(s: &str, prefix: &str) -> (r: Option<String>)
    ensures
        r.is_some() == begins(s@, prefix@),
        r.is_some() ==> r.unwrap()@ == s@.skip(prefix@.len() as int),
{
    let all = text::chars_of(s);
    let head = text::chars_of(prefix);
    if head.len() > all.len() {
        return None;
    }
    let front = text::slice_of(all.as_slice(), 0, head.len());
    assert(front@ =~= s@.take(prefix@.len() as int));
    if text::same_chars(front.as_slice(), head.as_slice()) {
        let rest = text::slice_of(all.as_slice(), head.len(), all.len());
        assert(rest@ =~= s@.skip(prefix@.len() as int));
        Some(text::text_of(rest.as_slice()))
    } else {
        None
    }
}

/// What a click on the entry `id` asks for.
pub fn tray_action(id: &str) -> (r: TrayAction)
    ensures
        r.means(id@),
{
    if text::same_text(id, "dictate") {
        return TrayAction::Toggle;
    }
    if text::same_text(id, "quit") {
        return TrayAction::Quit;
    }
    match after_prefix(id, "key:") {
        Some(keys) => TrayAction::Rebind(keys),
        None => match after_prefix(id, "paste:") {
            Some(mode) => TrayAction::SetMode(mode),
            None => TrayAction::Ignore,
        },
    }
}

/// The key combinations that the menu always offers, the default first.
pub fn hotkeys(macos: bool) -> (r: Vec<String>)
    ensures
        text::texts(r@) == offered_keys(macos),
{
    let mut out: Vec<String> = Vec::new();
    if macos {
        out.push("Alt+Shift+D".to_owned());
        out.push("Ctrl+Shift+Space".to_owned());
        out.push("Ctrl+Alt+Space".to_owned());
        out.push("F9".to_owned());
    } else {
        out.push("F9".to_owned());
        out.push("Ctrl+Shift+Space".to_owned());
        out.push("Alt+Shift+D".to_owned());
        out.push("Ctrl+Alt+Space".to_owned());
    }
    assert(text::texts(out@) =~= offered_keys(macos));
    out
}

/// What the menu offers while `bound` is bound.
pub fn offered(bound: &str, macos: bool) -> (r: Vec<String>)
    ensures
        text::texts(r@) == keys_in_menu(bound@, macos),
{
    let mut out = hotkeys(macos);
    let ghost list = offered_keys(macos);
    let mut known: bool = false;
    for i in 0..out.len()
        invariant
            text::texts(out@) == list,
            known == exists|k: int| 0 <= k < i && #[trigger] list[k] == bound@,
    {
        assert(list[i as int] == out@[i as int]@);
        if text::same_text(out[i].as_str(), bound) {
            known = true;
        }
    }
    if !known {
        let extra = bound.to_owned();
        assert(text::texts(out@.push(extra)) =~= text::texts(out@).push(extra@));
        out.push(extra);
    }
    out
}

/// Which of the entries carry a tick while `chosen` is chosen.
pub fn ticks(entries: &Vec<String>, chosen: &str) -> (r: Vec<bool>)
    ensures
        r@.len() == entries@.len(),
        forall|i: int| 0 <= i < r@.len() ==> #[trigger] r@[i] == (entries@[i]@ == chosen@),
{
    let mut out: Vec<bool> = Vec::new();
    for i in 0..entries.len()
        invariant
            out@.len() == i,
            forall|k: int| 0 <= k < i ==> #[trigger] out@[k] == (entries@[k]@ == chosen@),
    {
        out.push(text::same_text(entries[i].as_str(), chosen));
    }
    out
}

fn joined(a: &str, b: &str) -> (r: String)
    ensures
        r@ == a@ + b@,
{
    let mut out = a.to_owned();
    out.append(b);
    out
}

/// The label of the entry that starts a dictation.
pub fn label_for(bound: &str) -> (r: String)
    ensures
        r@ == dictate_label(bound@),
{
    joined("Dictate  ", bound)
}

fn mode_entry(id: &str, label: &str, forced: bool, chosen: &str) -> (r: CheckEntry)
    ensures
        r.shows("paste:"@ + id@, label@, !forced, id@ == chosen@),
{
    CheckEntry {
        id: joined("paste:", id),
        label: label.to_owned(),
        enabled: !forced,
        checked: text::same_text(id, chosen),
    }
}

/// The menu while `bound` is bound and `chosen` is the mode in force.
pub fn tray_menu(bound: &str, chosen: &str, forced: bool, macos: bool) -> (r: TrayMenu)
    ensures
        r.shows(bound@, chosen@, forced, macos),
{
    let offer = offered(bound, macos);
    let ghost list = keys_in_menu(bound@, macos);
    let mut keys: Vec<CheckEntry> = Vec::new();
    for i in 0..offer.len()
        invariant
            text::texts(offer@) == list,
            keys@.len() == i,
            forall|k: int|
                0 <= k < i ==> (#[trigger] keys@[k]).shows(
                    "key:"@ + list[k],
                    list[k],
                    true,
                    list[k] == bound@,
                ),
    {
        assert(list[i as int] == offer@[i as int]@);
        let k: &str = offer[i].as_str();
        let entry = CheckEntry {
            id: joined("key:", k),
            label: k.to_owned(),
            enabled: true,
            checked: text::same_text(k, bound),
        };
        keys.push(entry);
    }
    let mut modes: Vec<CheckEntry> = Vec::new();
    modes.push(mode_entry("copy", "Clipboard only", forced, chosen));
    modes.push(mode_entry("paste", "Paste at the cursor", forced, chosen));
    modes.push(mode_entry("portal", "Paste at the cursor (portal)", forced, chosen));
    TrayMenu {
        dictate: label_for(bound),
        quit: "Quit Kotha".to_owned(),
        keys,
        output_title: if forced {
            "Text output  (KOTHA_PASTE)".to_owned()
        } else {
            "Text output".to_owned()
        },
        modes,
    }
}

/// What to do next about a key combination that was asked for.
#[derive(Clone, Copy, PartialEq, Eq, Structural)]
pub enum RebindStep {
    /// It is bound already: nothing to do.
    Leave,
    /// Release what is bound and bind the new one.
    Bind,
    /// It was granted: save it and show it.
    Save,
    /// It was refused: bind the previous one again.
    TakeBack,
    /// The previous one is bound again.
    Kept,
    /// Nothing is bound any more.
    Lost,
}

/// The first step towards `want` while `previous` is bound.
pub fn rebind_first(want: &str, previous: &str) -> (r: RebindStep)
    ensures
        r == if want@ == previous@ {
            RebindStep::Leave
        } else {
            RebindStep::Bind
        },
{
    if text::same_text(want, previous) {
        RebindStep::Leave
    } else {
        RebindStep::Bind
    }
}

/// What follows a step, given whether the desktop granted the key that it asked for.
pub open spec fn next_step(step: RebindStep, granted: bool) -> RebindStep {
    match step {
        RebindStep::Bind => if granted {
            RebindStep::Save
        } else {
            RebindStep::TakeBack
        },
        RebindStep::TakeBack => if granted {
            RebindStep::Kept
        } else {
            RebindStep::Lost
        },
        _ => step,
    }
}

/// The step after `step`.
pub fn rebind_next(step: RebindStep, granted: bool) -> (r: RebindStep)
    ensures
        r == next_step(step, granted),
{
    match step {
        RebindStep::Bind => {
            if granted {
                RebindStep::Save
            } else {
                RebindStep::TakeBack
            }
        },
        RebindStep::TakeBack => {
            if granted {
                RebindStep::Kept
            } else {
                RebindStep::Lost
            }
        },
        _ => step,
    }
}

/// A key combination is saved only after the desktop granted it, and a refused one always leads to
/// taking the previous one back.
pub proof fn law_saved_only_when_granted(step: RebindStep, granted: bool)
    requires
        step == RebindStep::Bind || step == RebindStep::TakeBack,
    ensures
        next_step(step, granted) == RebindStep::Save <==> step == RebindStep::Bind && granted,
        step == RebindStep::Bind && !granted ==> next_step(step, granted) == RebindStep::TakeBack,
        next_step(step, granted) == RebindStep::Lost ==> step == RebindStep::TakeBack && !granted,
{
}

/// Whatever is bound is in the menu, once: exactly one key entry carries a tick.
pub proof fn law_one_key_is_ticked(bound: Seq<char>, macos: bool)
    ensures
        exists|i: int|
            {
                &&& 0 <= i < keys_in_menu(bound, macos).len()
                &&& #[trigger] keys_in_menu(bound, macos)[i] == bound
                &&& forall|j: int|
                    0 <= j < keys_in_menu(bound, macos).len() && #[trigger] keys_in_menu(
                        bound,
                        macos,
                    )[j] == bound ==> j == i
            },
{
    reveal_strlit("F9");
    reveal_strlit("Alt+Shift+D");
    reveal_strlit("Ctrl+Alt+Space");
    reveal_strlit("Ctrl+Shift+Space");
    let fixed = offered_keys(macos);
    let keys = keys_in_menu(bound, macos);
    if fixed.contains(bound) {
        let i = choose|i: int| 0 <= i < fixed.len() && fixed[i] == bound;
        assert forall|j: int| 0 <= j < keys.len() && #[trigger] keys[j] == bound implies j == i by {
            assert(fixed[j].len() == fixed[i].len());
        }
        assert(keys[i] == bound);
    } else {
        assert(keys[4] == bound);
        assert forall|j: int| 0 <= j < keys.len() && #[trigger] keys[j] == bound implies j == 4 by {
            if j < 4 {
                assert(fixed[j] == bound);
            }
        }
    }
}

/// Exactly one mode entry carries a tick: that of the mode in force.
pub proof fn law_one_mode_is_ticked(chosen: Seq<char>)
    requires
        settings::is_mode(chosen),
    ensures
        exists|i: int|
            {
                &&& 0 <= i < modes_in_menu().len()
                &&& (#[trigger] modes_in_menu()[i]).0 == chosen
                &&& forall|j: int|
                    0 <= j < modes_in_menu().len() && (#[trigger] modes_in_menu()[j]).0 == chosen
                        ==> j == i
            },
{
    reveal_strlit("copy");
    reveal_strlit("paste");
    reveal_strlit("portal");
    let modes = modes_in_menu();
    let i: int = if chosen == "copy"@ {
        0
    } else if chosen == "paste"@ {
        1
    } else {
        2
    };
    assert(modes[i].0 == chosen);
    assert forall|j: int| 0 <= j < modes.len() && (#[trigger] modes[j]).0 == chosen implies j
        == i by {
        assert(modes[j].0.len() == modes[i].0.len());
    }
}

/// A click on a key entry of the menu asks for exactly that key.
pub proof fn law_key_entries_mean_their_keys(key: Seq<char>, action: TrayAction)
    requires
        action.means("key:"@ + key),
    ensures
        action matches TrayAction::Rebind(k) && k@ == key,
{
    reveal_strlit("key:");
    reveal_strlit("dictate");
    reveal_strlit("quit");
    let id = "key:"@ + key;
    assert(id[0] == 'k');
    assert(id != "dictate"@) by {
        assert("dictate"@[0] == 'd');
    }
    assert(id != "quit"@) by {
        assert("quit"@[0] == 'q');
    }
    assert(id.take("key:"@.len() as int) =~= "key:"@);
    assert(id.skip("key:"@.len() as int) =~= key);
}

/// A click on a mode entry of the menu asks for exactly that mode.
pub proof fn law_mode_entries_mean_their_modes(mode: Seq<char>, action: TrayAction)
    requires
        action.means("paste:"@ + mode),
    ensures
        action matches TrayAction::SetMode(m) && m@ == mode,
{
    reveal_strlit("paste:");
    reveal_strlit("key:");
    reveal_strlit("dictate");
    reveal_strlit("quit");
    let id = "paste:"@ + mode;
    assert(id[0] == 'p');
    assert(id != "dictate"@) by {
        assert("dictate"@[0] == 'd');
    }
    assert(id != "quit"@) by {
        assert("quit"@[0] == 'q');
    }
    assert(!begins(id, "key:"@)) by {
        assert(id.take(4)[0] == 'p');
        assert("key:"@[0] == 'k');
    }
    assert(id.take("paste:"@.len() as int) =~= "paste:"@);
    assert(id.skip("paste:"@.len() as int) =~= mode);
}

/// The key that the ready panel names: the bound one, and none where it is not registered.
pub fn hotkey_label(bound: &str, registered: bool) -> (r: Option<String>)
    ensures
        settings::chars_of_string(r) == if registered {
            Some(bound@)
        } else {
            None
        },
{
    if registered {
        Some(bound.to_owned())
    } else {
        None
    }
}

/// Every entry of the menu means what it says, whatever key or mode it names: the two fixed entries
/// by their names, and anything else than these, a key or a mode means nothing.
pub proof fn law_entries_mean_what_they_say(id: Seq<char>, action: TrayAction)
    requires
        action.means(id),
    ensures
        id == "dictate"@ ==> action is Toggle,
        id == "quit"@ ==> action is Quit,
        id != "dictate"@ && id != "quit"@ && !("key:"@.len() <= id.len() && id.take(
            "key:"@.len() as int,
        ) == "key:"@) && !("paste:"@.len() <= id.len() && id.take("paste:"@.len() as int)
            == "paste:"@) ==> action is Ignore,
        action is Toggle ==> id == "dictate"@,
        action is Quit ==> id == "quit"@,
        action matches TrayAction::Rebind(k) ==> id == "key:"@ + k@,
        action matches TrayAction::SetMode(m) ==> id == "paste:"@ + m@,
{
    reveal_strlit("dictate");
    reveal_strlit("quit");
    assert("dictate"@.len() != "quit"@.len());
    if action is Rebind {
        assert(id =~= id.take("key:"@.len() as int) + id.skip("key:"@.len() as int));
    }
    if action is SetMode {
        assert(id =~= id.take("paste:"@.len() as int) + id.skip("paste:"@.len() as int));
    }
}

/// The menu offers the four keys that it always offers, in their order, and behind them the bound
/// one where it is none of the four; nothing else, and no key is left out.
pub proof fn law_menu_offers_every_key(bound: Seq<char>, macos: bool)
    ensures
        offered_keys(true) == seq![
            "Alt+Shift+D"@,
            "Ctrl+Shift+Space"@,
            "Ctrl+Alt+Space"@,
            "F9"@,
        ],
        offered_keys(false) == seq![
            "F9"@,
            "Ctrl+Shift+Space"@,
            "Alt+Shift+D"@,
            "Ctrl+Alt+Space"@,
        ],
        keys_in_menu(bound, macos).take(4) == offered_keys(macos),
        keys_in_menu(bound, macos).len() == 4 <==> (bound == "F9"@ || bound == "Alt+Shift+D"@ || bound
            == "Ctrl+Shift+Space"@ || bound == "Ctrl+Alt+Space"@),
        keys_in_menu(bound, macos).len() > 4 ==> keys_in_menu(bound, macos)
            == offered_keys(macos).push(bound),
{
    let fixed = offered_keys(macos);
    assert(fixed[0] == fixed[0] && fixed[1] == fixed[1] && fixed[2] == fixed[2] && fixed[3]
        == fixed[3]);
    assert(keys_in_menu(bound, macos).take(4) =~= fixed);
    if fixed.contains(bound) {
        let i = choose|i: int| 0 <= i < fixed.len() && fixed[i] == bound;
        assert(i == 0 || i == 1 || i == 2 || i == 3);
    }
}

/// What the menu shows: each key by its name, and a tick at the bound one alone; each mode, and a
/// tick at the chosen one alone, to be clicked unless the environment forces one.
pub proof fn law_menu_shows_what_is_chosen(
    menu: TrayMenu,
    bound: Seq<char>,
    chosen: Seq<char>,
    forced: bool,
    macos: bool,
)
    requires
        menu.shows(bound, chosen, forced, macos),
    ensures
        menu.dictate@ == "Dictate  "@ + bound,
        menu.keys@.len() == keys_in_menu(bound, macos).len(),
        forall|i: int|
            0 <= i < menu.keys@.len() ==> {
                let entry = #[trigger] menu.keys@[i];
                &&& entry.label@ == keys_in_menu(bound, macos)[i]
                &&& entry.id@ == "key:"@ + entry.label@
                &&& entry.enabled
                &&& entry.checked == (entry.label@ == bound)
            },
        menu.modes@.len() == 3,
        forall|i: int|
            0 <= i < menu.modes@.len() ==> {
                let entry = #[trigger] menu.modes@[i];
                let mode = seq!["copy"@, "paste"@, "portal"@][i];
                &&& entry.id@ == "paste:"@ + mode
                &&& entry.enabled == !forced
                &&& entry.checked == (mode == chosen)
            },
{
    assert forall|i: int| 0 <= i < menu.keys@.len() implies {
        let entry = #[trigger] menu.keys@[i];
        &&& entry.label@ == keys_in_menu(bound, macos)[i]
        &&& entry.id@ == "key:"@ + entry.label@
        &&& entry.enabled
        &&& entry.checked == (entry.label@ == bound)
    } by {
        let key = keys_in_menu(bound, macos)[i];
        assert(menu.keys@[i].shows("key:"@ + key, key, true, key == bound));
    }
    assert forall|i: int| 0 <= i < menu.modes@.len() implies {
        let entry = #[trigger] menu.modes@[i];
        let mode = seq!["copy"@, "paste"@, "portal"@][i];
        &&& entry.id@ == "paste:"@ + mode
        &&& entry.enabled == !forced
        &&& entry.checked == (mode == chosen)
    } by {
        let mode = modes_in_menu()[i];
        assert(menu.modes@[i].shows("paste:"@ + mode.0, mode.1, !forced, mode.0 == chosen));
        assert(i == 0 || i == 1 || i == 2);
    }
}

/// Rebinding comes to an end that fits what the desktop granted: the new key, or else the previous
/// one, or else none; and an end is an end.
pub proof fn law_rebinding_ends(first: bool, second: bool)
    ensures
        next_step(RebindStep::Bind, true) == RebindStep::Save,
        next_step(next_step(RebindStep::Bind, false), true) == RebindStep::Kept,
        next_step(next_step(RebindStep::Bind, false), false) == RebindStep::Lost,
        next_step(RebindStep::Save, first) == RebindStep::Save,
        next_step(RebindStep::Kept, first) == RebindStep::Kept,
        next_step(RebindStep::Lost, first) == RebindStep::Lost,
        next_step(RebindStep::Leave, first) == RebindStep::Leave,
{
}

/// The modes have their names.
pub proof fn law_modes_have_names(i: int)
    requires
        0 <= i < modes_in_menu().len(),
    ensures
        modes_in_menu().len() == 3,
        modes_in_menu()[i].0 == seq!["copy"@, "paste"@, "portal"@][i],
        modes_in_menu()[i].1 == seq![
            "Clipboard only"@,
            "Paste at the cursor"@,
            "Paste at the cursor (portal)"@,
        ][i],
{
}

} // verus!
