//! The settings file: one JSON object with text members. What cannot be read falls back to a
//! default instead of getting in the way.

use crate::text;
use std::str::FromStr;
use vstd::prelude::*;

verus! {

/// The type of a JSON value.
#[verifier::external_type_specification]
#[verifier::external_body]
pub struct ExValue(serde_json::Value);

/// The type of a JSON object.
#[verifier::external_type_specification]
#[verifier::external_body]
#[verifier::reject_recursive_types(K)]
#[verifier::reject_recursive_types(V)]
pub struct ExMap<K, V>(serde_json::Map<K, V>);

/// What a member of a JSON object is.
pub enum Member {
    /// A string, with its characters.
    Text(Seq<char>),
    /// Anything else that comes back as it was where it is written in an object and read again,
    /// with the text that it is written as: null, a truth value, an integer, a floating-point
    /// number that comes back the same, and a list or an object of such and of strings that nests
    /// no deeper than the reader goes.
    Value(Seq<char>),
    /// Anything that can be written in an object and read again, any number of times, but comes
    /// back changed: a floating-point number in it comes back as one of its neighbours.
    Rough,
    /// Anything that cannot be written in an object and read again, any number of times: it nests
    /// deeper than the reader goes, or a number in it is one that the reader refuses.
    Other,
}

/// The members of a JSON object by name.
pub uninterp spec fn members(m: serde_json::Map<String, serde_json::Value>) -> Map<
    Seq<char>,
    Member,
>;

/// The members of the JSON object that a text holds; `None` where it is not JSON, or not an object.
pub uninterp spec fn json_object(content: Seq<char>) -> Option<Map<Seq<char>, Member>>;

/// Whether a text can be read as a key combination.
pub uninterp spec fn is_hotkey(keys: Seq<char>) -> bool;

/// An object without members.
pub open spec fn no_members() -> Map<Seq<char>, Member> {
    Map::empty()
}

/// Every member can be written in an object and read again, any number of times.
pub open spec fn readable(m: Map<Seq<char>, Member>) -> bool {
    forall|k: Seq<char>| m.dom().contains(k) ==> !(#[trigger] m[k] is Other)
}

/// What becomes of one member that is written and read again: a string and a value are what they
/// were, and nothing else turns into a string, nor into something that cannot be read again.
pub open spec fn member_kept(before: Member, after: Member) -> bool {
    match before {
        Member::Text(_) => after == before,
        Member::Value(_) => after == before,
        Member::Rough => after is Value || after is Rough,
        Member::Other => !(after is Text),
    }
}

/// What becomes of the members of an object that is written and read again: each is kept, and none
/// is added.
pub open spec fn kept(before: Map<Seq<char>, Member>, after: Map<Seq<char>, Member>) -> bool {
    &&& after.dom() == before.dom()
    &&& forall|k: Seq<char>|
        before.dom().contains(k) ==> member_kept(#[trigger] before[k], after[k])
}

/// `serde_json::from_str`, asked for any value and kept where that is an object: the members are
/// those that the text holds, a function of the text alone.
#[verifier::external_body]
fn parse_object(content: &str) -> (r: Option<serde_json::Map<String, serde_json::Value>>)
    ensures
        r.is_some() == json_object(content@).is_some(),
        r.is_some() ==> members(r.unwrap()) == json_object(content@).unwrap(),
{
    match serde_json::from_str::<serde_json::Value>(content) {
        Ok(serde_json::Value::Object(m)) => Some(m),
        _ => None,
    }
}

/// `serde_json::Map::new`: an object without members.
#[verifier::external_body]
fn empty_object() -> (r: serde_json::Map<String, serde_json::Value>)
    ensures
        members(r) == no_members(),
{
    serde_json::Map::new()
}

/// `serde_json::Map::get`: the member of that name, handed out where it is a string.
#[verifier::external_body]
fn text_member(m: &serde_json::Map<String, serde_json::Value>, key: &str) -> (r: Option<String>)
    ensures
        r.is_some() == (members(*m).dom().contains(key@) && members(*m)[key@] is Text),
        r.is_some() ==> members(*m)[key@] == Member::Text(r.unwrap()@),
{
    match m.get(key) {
        Some(serde_json::Value::String(s)) => Some(s.clone()),
        _ => None,
    }
}

/// `serde_json::Map::insert` of a string: the member of that name is the string from then on, and
/// the others are as before.
#[verifier::external_body]
fn set_text_member(m: &mut serde_json::Map<String, serde_json::Value>, key: &str, value: &str)
    ensures
        members(*final(m)) == members(*old(m)).insert(key@, Member::Text(value@)),
{
    m.insert(key.to_string(), serde_json::Value::String(value.to_string()));
}

/// `serde_json::Value::to_string` of an object: where the text can be read again its members are
/// kept, and it can be read again where each of its members can be. Which floating-point numbers
/// come back as they were, and whether the reader refuses any, is left unsaid: that is a matter of
/// its arithmetic.
#[verifier::external_body]
fn render(m: serde_json::Map<String, serde_json::Value>) -> (r: String)
    ensures
        json_object(r@).is_some() ==> kept(members(m), json_object(r@).unwrap()),
        readable(members(m)) ==> json_object(r@).is_some(),
{
    serde_json::Value::Object(m).to_string()
}

/// `HotKey::from_str` of global-hotkey: whether it accepts the text, a function of the text alone.
#[verifier::external_body]
fn usable_hotkey(keys: &str) -> (r: bool)
    ensures
        r == is_hotkey(keys@),
{
    global_hotkey::hotkey::HotKey::from_str(keys).is_ok()
}

/// The characters of an optional text.
pub open spec fn chars_of_ref(o: Option<&str>) -> Option<Seq<char>> {
    match o {
        Some(s) => Some(s@),
        None => None,
    }
}

/// The characters of an optional string.
pub open spec fn chars_of_string(o: Option<String>) -> Option<Seq<char>> {
    match o {
        Some(s) => Some(s@),
        None => None,
    }
}

/// The members that a settings file holds; none where it is missing or cannot be read.
pub open spec fn stored(content: Option<Seq<char>>) -> Map<Seq<char>, Member> {
    match content {
        Some(c) => match json_object(c) {
            Some(m) => m,
            None => no_members(),
        },
        None => no_members(),
    }
}

/// One text setting among the members; `None` where it is missing or not a text.
pub open spec fn text_setting(m: Map<Seq<char>, Member>, key: Seq<char>) -> Option<Seq<char>> {
    if m.dom().contains(key) {
        match m[key] {
            Member::Text(t) => Some(t),
            _ => None,
        }
    } else {
        None
    }
}

/// One of the three ways that text can leave.
pub open spec fn is_mode(m: Seq<char>) -> bool {
    m == "copy"@ || m == "paste"@ || m == "portal"@
}

/// A stored mode; clipboard only where it is missing or unknown.
pub open spec fn mode_or_copy(value: Option<Seq<char>>) -> Seq<char> {
    match value {
        Some(m) => if is_mode(m) {
            m
        } else {
            "copy"@
        },
        None => "copy"@,
    }
}

/// The mode that the environment forces, where the variable is set at all.
pub open spec fn forced_mode(var: Option<Seq<char>>) -> Option<Seq<char>> {
    match var {
        Some(v) => Some(
            if v == "portal"@ {
                "portal"@
            } else if v == "1"@ || v == "true"@ {
                "paste"@
            } else {
                "copy"@
            },
        ),
        None => None,
    }
}

/// The mode in force: the environment's, else the stored one, else clipboard only.
pub open spec fn mode_in_force(var: Option<Seq<char>>, value: Option<Seq<char>>) -> Seq<char> {
    match forced_mode(var) {
        Some(m) => m,
        None => mode_or_copy(value),
    }
}

/// The key combination that a fresh installation listens to.
pub open spec fn default_hotkey(macos: bool) -> Seq<char> {
    if macos {
        "Alt+Shift+D"@
    } else {
        "F9"@
    }
}

/// A stored key combination; the default where it is missing or unusable.
pub open spec fn hotkey_or_default(value: Option<Seq<char>>, usable: bool, macos: bool) -> Seq<
    char,
> {
    if value.is_some() && usable {
        value.unwrap()
    } else {
        default_hotkey(macos)
    }
}

/// One text setting of a settings file; `None` where the file is missing, cannot be read, or says
/// nothing about it.
pub fn setting(content: Option<&str>, key: &str) -> (r: Option<String>)
    ensures
        chars_of_string(r) == text_setting(stored(chars_of_ref(content)), key@),
{
    match content {
        Some(c) => match parse_object(c) {
            Some(m) => text_member(&m, key),
            None => None,
        },
        None => None,
    }
}

/// The settings file with one text setting changed and every other member kept, with its value. A
/// file that is missing or cannot be read is started over. What comes out can be read again, unless
/// the file holds a member that cannot be written and read again.
pub fn save_setting(content: Option<&str>, key: &str, value: &str) -> (r: String)
    ensures
        json_object(r@).is_some() ==> kept(
            stored(chars_of_ref(content)).insert(key@, Member::Text(value@)),
            json_object(r@).unwrap(),
        ),
        readable(stored(chars_of_ref(content))) ==> json_object(r@).is_some(),
{
    let mut m = match content {
        Some(c) => match parse_object(c) {
            Some(m) => m,
            None => empty_object(),
        },
        None => empty_object(),
    };
    set_text_member(&mut m, key, value);
    render(m)
}

/// A stored mode, or clipboard only where it is missing or unknown.
pub fn known_mode(value: Option<&str>) -> (r: String)
    ensures
        r@ == mode_or_copy(chars_of_ref(value)),
{
    match value {
        Some(m) => {
            if text::same_text(m, "copy") || text::same_text(m, "paste") || text::same_text(
                m,
                "portal",
            ) {
                m.to_owned()
            } else {
                "copy".to_owned()
            }
        },
        None => "copy".to_owned(),
    }
}

/// The stored mode. An unreadable file or an unknown value means clipboard only.
pub fn paste_choice(content: Option<&str>) -> (r: String)
    ensures
        r@ == mode_or_copy(text_setting(stored(chars_of_ref(content)), "paste"@)),
{
    match setting(content, "paste") {
        Some(m) => known_mode(Some(m.as_str())),
        None => known_mode(None),
    }
}

/// What the environment variable forces, as a mode.
pub fn paste_env(var: Option<&str>) -> (r: Option<&'static str>)
    ensures
        chars_of_ref(r) == forced_mode(chars_of_ref(var)),
{
    match var {
        Some(v) => {
            if text::same_text(v, "portal") {
                Some("portal")
            } else if text::same_text(v, "1") || text::same_text(v, "true") {
                Some("paste")
            } else {
                Some("copy")
            }
        },
        None => None,
    }
}

/// The mode in force: the environment, then the file, then clipboard only.
pub fn paste_setting(var: Option<&str>, content: Option<&str>) -> (r: String)
    ensures
        r@ == mode_in_force(
            chars_of_ref(var),
            text_setting(stored(chars_of_ref(content)), "paste"@),
        ),
{
    match paste_env(var) {
        Some(m) => m.to_owned(),
        None => paste_choice(content),
    }
}

/// A mode as two switches: paste at all, and paste through the portal.
pub fn paste_flags(mode: &str) -> (r: (bool, bool))
    ensures
        r.0 == (mode@ == "portal"@ || mode@ == "paste"@),
        r.1 == (mode@ == "portal"@),
{
    proof {
        reveal_strlit("portal");
        reveal_strlit("paste");
    }
    if text::same_text(mode, "portal") {
        (true, true)
    } else if text::same_text(mode, "paste") {
        (true, false)
    } else {
        (false, false)
    }
}

/// What the environment variable asks for where no settings file is in play.
pub fn paste_mode(var: Option<&str>) -> (r: (bool, bool))
    ensures
        r.0 == (chars_of_ref(var) == Some("portal"@) || chars_of_ref(var) == Some("1"@)
            || chars_of_ref(var) == Some("true"@)),
        r.1 == (chars_of_ref(var) == Some("portal"@)),
{
    proof {
        reveal_strlit("portal");
        reveal_strlit("1");
        reveal_strlit("true");
    }
    match var {
        Some(v) => {
            if text::same_text(v, "portal") {
                (true, true)
            } else if text::same_text(v, "1") || text::same_text(v, "true") {
                (true, false)
            } else {
                (false, false)
            }
        },
        None => (false, false),
    }
}

/// A stored key combination, given whether it can be bound at all; else the default.
pub fn known_hotkey(value: Option<&str>, usable: bool, macos: bool) -> (r: String)
    ensures
        r@ == hotkey_or_default(chars_of_ref(value), usable, macos),
{
    match value {
        Some(v) => {
            if usable {
                return v.to_owned();
            }
        },
        None => {},
    }
    if macos {
        "Alt+Shift+D".to_owned()
    } else {
        "F9".to_owned()
    }
}

/// The stored key combination. Junk in the file falls back to the default.
pub fn hotkey_choice(content: Option<&str>, macos: bool) -> (r: String)
    ensures
        ({
            let value = text_setting(stored(chars_of_ref(content)), "hotkey"@);
            r@ == hotkey_or_default(value, value.is_some() && is_hotkey(value.unwrap()), macos)
        }),
{
    match setting(content, "hotkey") {
        Some(v) => {
            let usable: bool = usable_hotkey(v.as_str());
            known_hotkey(Some(v.as_str()), usable, macos)
        },
        None => known_hotkey(None, false, macos),
    }
}

/// What is saved is what is read back, and saving one setting leaves every other one as it was,
/// members of other kinds among them. `saved` is the file after `key` was set to `value` in a file
/// that held `before`.
pub proof fn law_settings_round_trip(
    before: Map<Seq<char>, Member>,
    saved: Seq<char>,
    key: Seq<char>,
    value: Seq<char>,
    other: Seq<char>,
)
    requires
        json_object(saved).is_some(),
        kept(before.insert(key, Member::Text(value)), json_object(saved).unwrap()),
    ensures
        text_setting(stored(Some(saved)), key) == Some(value),
        other != key ==> {
            &&& text_setting(stored(Some(saved)), other) == text_setting(before, other)
            &&& stored(Some(saved)).dom().contains(other) == before.dom().contains(other)
            &&& before.dom().contains(other) && before[other] is Value ==> stored(
                Some(saved),
            )[other] == before[other]
        },
{
    let with = before.insert(key, Member::Text(value));
    let after = json_object(saved).unwrap();
    assert(with[key] == Member::Text(value));
    assert(member_kept(with[key], after[key]));
    if other != key {
        assert(with.dom().contains(other) == before.dom().contains(other));
        if before.dom().contains(other) {
            assert(member_kept(with[other], after[other]));
        }
    }
}

/// A file that can be saved can be saved again and again: what comes out of it is such a file too.
pub proof fn law_readable_stays_readable(
    before: Map<Seq<char>, Member>,
    after: Map<Seq<char>, Member>,
    key: Seq<char>,
    value: Seq<char>,
)
    requires
        readable(before),
        kept(before.insert(key, Member::Text(value)), after),
    ensures
        readable(after),
{
    let with = before.insert(key, Member::Text(value));
    assert forall|k: Seq<char>| after.dom().contains(k) implies !(#[trigger] after[k] is Other) by {
        assert(member_kept(with[k], after[k]));
    }
}

/// The settings that are saved one after the other are all there: what was saved first is still
/// there after another one was saved. `once` is the file after the first, `twice` after the second.
pub proof fn law_saved_settings_last(
    before: Map<Seq<char>, Member>,
    once: Seq<char>,
    twice: Seq<char>,
    first: (Seq<char>, Seq<char>),
    second: (Seq<char>, Seq<char>),
)
    requires
        first.0 != second.0,
        json_object(once).is_some(),
        kept(before.insert(first.0, Member::Text(first.1)), json_object(once).unwrap()),
        json_object(twice).is_some(),
        kept(
            stored(Some(once)).insert(second.0, Member::Text(second.1)),
            json_object(twice).unwrap(),
        ),
    ensures
        text_setting(stored(Some(twice)), first.0) == Some(first.1),
        text_setting(stored(Some(twice)), second.0) == Some(second.1),
{
    law_settings_round_trip(before, once, first.0, first.1, second.0);
    law_settings_round_trip(stored(Some(once)), twice, second.0, second.1, first.0);
}

/// Junk is no obstacle: what is saved over a file that is missing or cannot be read can be read,
/// and holds that one setting.
pub proof fn law_junk_is_started_over(content: Option<Seq<char>>)
    requires
        content.is_none() || json_object(content.unwrap()).is_none(),
    ensures
        stored(content) == no_members(),
        readable(stored(content)),
{
}

/// A file that is missing or cannot be read leaves every setting at its default.
pub proof fn law_junk_falls_back(content: Option<Seq<char>>, usable: bool, macos: bool)
    requires
        content.is_none() || json_object(content.unwrap()).is_none(),
    ensures
        mode_in_force(None, text_setting(stored(content), "paste"@)) == "copy"@,
        hotkey_or_default(text_setting(stored(content), "hotkey"@), usable, macos)
            == default_hotkey(macos),
{
}

/// The mode in force is always one of the three.
pub proof fn law_mode_is_known(var: Option<Seq<char>>, value: Option<Seq<char>>)
    ensures
        is_mode(mode_in_force(var, value)),
{
}

/// A text member of a settings file that can be read is what is read of it; a member of another kind,
/// and one that is not there, is none.
pub proof fn law_text_members_are_read(content: Seq<char>, key: Seq<char>)
    requires
        json_object(content).is_some(),
    ensures
        ({
            let m = json_object(content).unwrap();
            let read = text_setting(stored(Some(content)), key);
            &&& m.dom().contains(key) && m[key] is Text ==> m[key] == Member::Text(read.unwrap())
                && read.is_some()
            &&& !m.dom().contains(key) || !(m[key] is Text) ==> read.is_none()
        }),
{
}

/// A mode that was stored is the one in force, where the environment forces none; anything else that
/// was stored, and nothing, means clipboard only.
pub proof fn law_stored_mode_is_in_force(value: Seq<char>)
    ensures
        mode_in_force(None, Some("copy"@)) == "copy"@,
        mode_in_force(None, Some("paste"@)) == "paste"@,
        mode_in_force(None, Some("portal"@)) == "portal"@,
        value != "copy"@ && value != "paste"@ && value != "portal"@ ==> mode_in_force(
            None,
            Some(value),
        ) == "copy"@,
        mode_in_force(None, None) == "copy"@,
{
}

/// The environment wins over whatever is stored: `portal` asks for the portal, `1` and `true` for a
/// paste, and anything else for the clipboard only.
pub proof fn law_environment_wins(var: Seq<char>, value: Option<Seq<char>>)
    ensures
        var == "portal"@ ==> mode_in_force(Some(var), value) == "portal"@,
        var == "1"@ || var == "true"@ ==> mode_in_force(Some(var), value) == "paste"@,
        var != "portal"@ && var != "1"@ && var != "true"@ ==> mode_in_force(Some(var), value)
            == "copy"@,
        forced_mode(Some(var)) == Some(mode_in_force(Some(var), value)),
        forced_mode(None).is_none(),
{
    reveal_strlit("portal");
    reveal_strlit("1");
    reveal_strlit("true");
}

/// A key combination that was stored and can be bound is the one in force; any other, and none,
/// leaves the default: F9, or on a Mac Alt, Shift and D.
pub proof fn law_usable_hotkey_is_in_force(value: Seq<char>, macos: bool)
    ensures
        hotkey_or_default(Some(value), true, macos) == value,
        hotkey_or_default(Some(value), false, true) == "Alt+Shift+D"@,
        hotkey_or_default(Some(value), false, false) == "F9"@,
        hotkey_or_default(None, true, true) == "Alt+Shift+D"@,
        hotkey_or_default(None, true, false) == "F9"@,
        hotkey_or_default(None, false, true) == "Alt+Shift+D"@,
        hotkey_or_default(None, false, false) == "F9"@,
{
}

/// An optional text is looked at as it is.
pub proof fn law_optional_texts(s: String, r: &str)
    ensures
        chars_of_string(Some(s)) == Some(s@),
        chars_of_string(None).is_none(),
        chars_of_ref(Some(r)) == Some(r@),
        chars_of_ref(None).is_none(),
{
}

/// The ways that text can leave are three.
pub proof fn law_three_modes(m: Seq<char>)
    ensures
        is_mode(m) <==> m == "copy"@ || m == "paste"@ || m == "portal"@,
        mode_or_copy(Some(m)) == if m == "copy"@ || m == "paste"@ || m == "portal"@ {
            m
        } else {
            "copy"@
        },
        mode_or_copy(None) == "copy"@,
{
}

} // verus!
