use kotha::settings::{
    hotkey_choice, known_hotkey, known_mode, paste_choice, paste_env, paste_flags, paste_mode,
    paste_setting, save_setting, setting,
};
use kotha::tray::{
    after_prefix, hotkey_label, hotkeys, label_for, offered, rebind_first, rebind_next, ticks,
    tray_action, tray_menu, RebindStep, TrayAction,
};

#[test]
fn settings_round_trip_and_survive_junk() {
    let mut file: Option<String> = None;
    assert_eq!(paste_choice(file.as_deref()), "copy", "no file means clipboard only");

    file = Some(save_setting(file.as_deref(), "paste", "portal"));
    assert_eq!(paste_choice(file.as_deref()), "portal");
    assert_eq!(paste_flags("portal"), (true, true));

    file = Some(r#"{"paste":"telepathy"}"#.to_string());
    assert_eq!(paste_choice(file.as_deref()), "copy", "an unknown mode must fall back");

    file = Some("3".to_string());
    file = Some(save_setting(file.as_deref(), "paste", "paste"));
    assert_eq!(paste_choice(file.as_deref()), "paste");

    file = Some(save_setting(file.as_deref(), "hotkey", "F9"));
    assert_eq!(hotkey_choice(file.as_deref(), false), "F9");
    assert_eq!(
        paste_choice(file.as_deref()),
        "paste",
        "saving the hotkey dropped the paste mode"
    );

    file = Some(r#"{"hotkey":"Ctrl+Banana"}"#.to_string());
    for macos in [false, true] {
        assert_eq!(hotkey_choice(file.as_deref(), macos), hotkeys(macos)[0]);
        for k in hotkeys(macos) {
            let saved = save_setting(None, "hotkey", &k);
            assert_eq!(
                hotkey_choice(Some(&saved), macos),
                k,
                "{k} is not a usable accelerator"
            );
        }
    }
}

#[test]
fn saving_keeps_members_of_every_kind() {
    let file = r#"{"a":1,"b":[1,{"c":null}],"s":"x \" y\n","paste":7}"#;
    let saved = save_setting(Some(file), "hotkey", "ক\"\\");
    assert_eq!(setting(Some(&saved), "hotkey"), Some("ক\"\\".to_string()));
    assert_eq!(setting(Some(&saved), "s"), Some("x \" y\n".to_string()));
    assert_eq!(setting(Some(&saved), "a"), None);
    assert_eq!(setting(Some(&saved), "paste"), None);
    assert!(saved.contains(r#""b":[1,{"c":null}]"#));
    assert!(saved.contains(r#""a":1"#));
    let again = save_setting(Some(&saved), "a", "text now");
    assert_eq!(setting(Some(&again), "a"), Some("text now".to_string()));
    assert_eq!(setting(Some(&again), "s"), Some("x \" y\n".to_string()));
    assert_eq!(save_setting(None, "k", "v"), r#"{"k":"v"}"#);
}

#[test]
fn what_is_saved_can_be_read_again() {
    let deep = format!("{{\"d\":{}{},\"t\":\"x\"}}", "[".repeat(126), "]".repeat(126));
    for file in [
        r#"{"t":"x","n":null,"b":true,"i":-9223372036854775808,"u":18446744073709551615}"#,
        r#"{"t":"x","l":[],"o":{"p":{"q":["r",7,null]}}}"#,
        deep.as_str(),
        r#"{"t":"x","f":[0.1,-0.0,1e-320,1.7976931348623157e308,99999999999999999999]}"#,
    ] {
        assert_eq!(setting(Some(file), "t"), Some("x".to_string()));
        let mut saved = save_setting(Some(file), "paste", "portal");
        for k in ["a", "b", "n"] {
            saved = save_setting(Some(&saved), k, "");
        }
        assert_eq!(setting(Some(&saved), "paste"), Some("portal".to_string()));
        assert_eq!(setting(Some(&saved), "t"), Some("x".to_string()));
        assert_eq!(setting(Some(&saved), "n"), Some(String::new()));
    }
    // One level more, and the file cannot be read: it is started over.
    let too_deep = format!("{{\"d\":{}{},\"t\":\"x\"}}", "[".repeat(127), "]".repeat(127));
    assert_eq!(setting(Some(&too_deep), "t"), None);
    assert_eq!(save_setting(Some(&too_deep), "k", "v"), r#"{"k":"v"}"#);
}

#[test]
fn saving_keeps_the_values_of_other_members() {
    let members = [
        ("n", "null"),
        ("b", "false"),
        ("i", "-42"),
        ("u", "18446744073709551615"),
        ("h", "0.5"),
        ("m", "1.7976931348623157e+308"),
        ("l", r#"[1,"two",[]]"#),
        ("o", r#"{"p":{"q":"\\"}}"#),
    ];
    let list: Vec<String> = members.iter().map(|(k, v)| format!("\"{k}\":{v}")).collect();
    let mut file = format!("{{{}}}", list.join(","));
    for mode in ["paste", "copy", "portal"] {
        file = save_setting(Some(&file), "paste", mode);
        assert_eq!(setting(Some(&file), "paste").as_deref(), Some(mode));
        for member in &list {
            assert!(file.contains(member.as_str()), "{member} in {file}");
        }
    }
    // The two largest numbers there are.
    for largest in [f64::MAX, f64::from_bits(f64::MAX.to_bits() - 1)] {
        let file = format!("{{\"f\":[{largest:e},{:e}],\"t\":\"x\"}}", -largest);
        let saved = save_setting(Some(&file), "k", "v");
        assert_eq!(setting(Some(&save_setting(Some(&saved), "k", "w")), "t").as_deref(), Some("x"));
    }
}

#[test]
fn unreadable_files_say_nothing() {
    for junk in ["", "{", "[]", "\"paste\"", "null", "{\"paste\":3}", "{}"] {
        assert_eq!(setting(Some(junk), "paste"), None, "{junk}");
        assert_eq!(paste_choice(Some(junk)), "copy");
        assert_eq!(hotkey_choice(Some(junk), false), "F9");
        assert_eq!(hotkey_choice(Some(junk), true), "Alt+Shift+D");
    }
    assert_eq!(setting(None, "paste"), None);
}

#[test]
fn the_environment_wins_over_the_file() {
    let file = Some(r#"{"paste":"paste"}"#);
    assert_eq!(paste_setting(None, file), "paste");
    assert_eq!(paste_setting(Some("portal"), file), "portal");
    assert_eq!(paste_setting(Some("no"), file), "copy");
    assert_eq!(paste_setting(Some("1"), None), "paste");
    assert_eq!(paste_setting(Some("true"), None), "paste");
    assert_eq!(paste_setting(None, None), "copy");
    assert_eq!(paste_env(None), None);
    assert_eq!(paste_env(Some("")), Some("copy"));
    assert_eq!(paste_env(Some("true")), Some("paste"));
    assert_eq!(paste_env(Some("portal")), Some("portal"));
}

#[test]
fn modes_are_two_switches() {
    assert_eq!(paste_flags("copy"), (false, false));
    assert_eq!(paste_flags("paste"), (true, false));
    assert_eq!(paste_flags("telepathy"), (false, false));
    assert_eq!(paste_mode(None), (false, false));
    assert_eq!(paste_mode(Some("0")), (false, false));
    assert_eq!(paste_mode(Some("1")), (true, false));
    assert_eq!(paste_mode(Some("true")), (true, false));
    assert_eq!(paste_mode(Some("portal")), (true, true));
    // A mode's name is not what the variable expects.
    assert_eq!(paste_mode(Some("paste")), (false, false));
    assert_eq!(known_mode(Some("portal")), "portal");
    assert_eq!(known_mode(Some("x")), "copy");
    assert_eq!(known_mode(None), "copy");
}

#[test]
fn hotkeys_fall_back_where_they_cannot_be_bound() {
    assert_eq!(known_hotkey(Some("Ctrl+K"), true, false), "Ctrl+K");
    assert_eq!(known_hotkey(Some("Ctrl+K"), false, false), "F9");
    assert_eq!(known_hotkey(None, true, true), "Alt+Shift+D");
    let file = r#"{"hotkey":"Ctrl+Shift+K"}"#;
    assert_eq!(hotkey_choice(Some(file), false), "Ctrl+Shift+K");
    for bad in ["", "Ctrl+", "Ctrl", "K+Ctrl", "A+B"] {
        let saved = save_setting(None, "hotkey", bad);
        assert_eq!(hotkey_choice(Some(&saved), false), "F9", "{bad}");
    }
}

#[test]
fn the_menu_offers_what_is_bound() {
    assert_eq!(
        offered("F9", false),
        vec!["F9", "Ctrl+Shift+Space", "Alt+Shift+D", "Ctrl+Alt+Space"]
    );
    assert_eq!(
        offered("Ctrl+K", true),
        vec!["Alt+Shift+D", "Ctrl+Shift+Space", "Ctrl+Alt+Space", "F9", "Ctrl+K"]
    );

    let menu = tray_menu("Ctrl+K", "paste", false, false);
    assert_eq!(menu.dictate, "Dictate  Ctrl+K");
    assert_eq!(menu.quit, "Quit Kotha");
    assert_eq!(menu.output_title, "Text output");
    assert_eq!(menu.keys.len(), 5);
    let ticked: Vec<&str> =
        menu.keys.iter().filter(|k| k.checked).map(|k| k.label.as_str()).collect();
    assert_eq!(ticked, vec!["Ctrl+K"]);
    assert_eq!(menu.keys[4].id, "key:Ctrl+K");
    let modes: Vec<(&str, &str, bool, bool)> = menu
        .modes
        .iter()
        .map(|m| (m.id.as_str(), m.label.as_str(), m.enabled, m.checked))
        .collect();
    assert_eq!(
        modes,
        vec![
            ("paste:copy", "Clipboard only", true, false),
            ("paste:paste", "Paste at the cursor", true, true),
            ("paste:portal", "Paste at the cursor (portal)", true, false),
        ]
    );

    let forced = tray_menu("F9", "portal", true, false);
    assert_eq!(forced.output_title, "Text output  (KOTHA_PASTE)");
    assert!(forced.modes.iter().all(|m| !m.enabled));
    assert!(forced.modes[2].checked);
}

#[test]
fn clicks_mean_what_the_entries_say() {
    assert!(matches!(tray_action("dictate"), TrayAction::Toggle));
    assert!(matches!(tray_action("quit"), TrayAction::Quit));
    assert!(matches!(tray_action("key:Ctrl+K"), TrayAction::Rebind(k) if k == "Ctrl+K"));
    assert!(matches!(tray_action("key:"), TrayAction::Rebind(k) if k.is_empty()));
    assert!(matches!(tray_action("paste:portal"), TrayAction::SetMode(m) if m == "portal"));
    assert!(matches!(tray_action("paste"), TrayAction::Ignore));
    assert!(matches!(tray_action(""), TrayAction::Ignore));
    assert_eq!(after_prefix("key:F9", "key:"), Some("F9".to_string()));
    assert_eq!(after_prefix("ke", "key:"), None);
    assert_eq!(label_for("F9"), "Dictate  F9");
    assert_eq!(ticks(&vec!["a".to_string(), "b".to_string()], "b"), vec![false, true]);
    assert_eq!(hotkey_label("F9", true), Some("F9".to_string()));
    assert_eq!(hotkey_label("F9", false), None);
}

#[test]
fn a_refused_key_is_taken_back() {
    assert!(rebind_first("F9", "F9") == RebindStep::Leave);
    let bind = rebind_first("Ctrl+K", "F9");
    assert!(bind == RebindStep::Bind);
    assert!(rebind_next(bind, true) == RebindStep::Save);
    let back = rebind_next(bind, false);
    assert!(back == RebindStep::TakeBack);
    assert!(rebind_next(back, true) == RebindStep::Kept);
    assert!(rebind_next(back, false) == RebindStep::Lost);
}
