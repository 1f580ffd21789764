use kotha::checksum::{sha256, to_hex, Checksum};
use kotha::download::{
    already, complete, failure_message, file_url, manifest_url, model_files, model_place,
    model_ready, plan, range_header, total_size, write_plan, Failure, Fetch, FetchAction,
    ManifestError, ManifestRow, ModelPlace, Throttle, Want, BAR_STEP, LOG_STEP,
};
use kotha::manifest::{manifest_rows, plan_from};

fn row(path: &str, size: Option<u64>, sha: Option<&str>) -> ManifestRow {
    ManifestRow { path: Some(path.to_string()), size, sha: sha.map(str::to_string) }
}

fn manifest() -> Vec<ManifestRow> {
    vec![
        ManifestRow { path: None, size: Some(1), sha: None },
        row(".gitattributes", Some(10), None),
        row("config.json", Some(4), None),
        row("model.bin", Some(100), Some("abc")),
        row("preprocessor_config.json", Some(5), None),
        row("tokenizer.json", Some(2), None),
        row("vocabulary.json", Some(3), None),
        row("model.bin", Some(999), Some("zzz")),
    ]
}

fn want(name: &str, size: u64, sha: Option<&str>) -> Want {
    Want { name: name.to_string(), size, sha: sha.map(str::to_string) }
}

#[test]
fn the_manifest_says_what_to_fetch() {
    let wants = plan(&manifest()).ok().expect("complete manifest");
    let got: Vec<(&str, u64, Option<&str>)> =
        wants.iter().map(|w| (w.name.as_str(), w.size, w.sha.as_deref())).collect();
    assert_eq!(
        got,
        vec![
            ("model.bin", 100, Some("abc")),
            ("tokenizer.json", 2, None),
            ("vocabulary.json", 3, None),
            ("config.json", 4, None),
            ("preprocessor_config.json", 5, None),
        ]
    );
    assert_eq!(model_files().len(), 5);
    assert_eq!(total_size(&wants), Some(114));
    assert_eq!(already(&wants, &vec![40, 9, 0, 4, 0]), 46);
    assert!(!complete(&wants, &vec![100, 2, 3, 4, 6]));
    assert!(complete(&wants, &vec![100, 2, 3, 4, 5]));
    assert_eq!(total_size(&vec![want("a", u64::MAX, None), want("b", 1, None)]), None);
    assert_eq!(total_size(&vec![]), Some(0));
}

#[test]
fn gaps_in_the_manifest_are_named() {
    match plan(&vec![]) {
        Err(e) => {
            assert!(matches!(&e, ManifestError::Missing(n) if n == "model.bin"));
            assert_eq!(
                e.message(),
                "model.bin is not in the kayees/whisper-medium-bn-en-cs-faster manifest"
            );
        }
        Ok(_) => panic!("an empty manifest was accepted"),
    }
    let mut rows = manifest();
    rows[5].size = None;
    match plan(&rows) {
        Err(e) => {
            assert!(matches!(&e, ManifestError::NoSize(n) if n == "tokenizer.json"));
            assert_eq!(e.message(), "tokenizer.json has no size in the manifest");
        }
        Ok(_) => panic!("a manifest without sizes was accepted"),
    }
}

#[test]
fn a_download_goes_file_by_file() {
    let mut f = Fetch::new(vec![want("big", 100, Some("abc")), want("small", 5, None)]);
    assert_eq!(f.current().name, "big");
    // Longer than it should be: junk, to be deleted.
    assert!(f.measured(101) == FetchAction::Transfer { discard: true });
    assert_eq!(f.progress(30), Some(30));
    assert!(f.transferred(false) == FetchAction::Retry { attempt: 1 });
    assert!(f.measured(60) == FetchAction::Transfer { discard: false });
    assert!(f.transferred(true) == FetchAction::Measure);
    assert!(f.measured(100) == FetchAction::Hash);
    assert!(f.hashed("abc") == FetchAction::Measure);
    assert_eq!(f.current().name, "small");
    assert_eq!(f.progress(3), Some(103));
    assert_eq!(f.progress(u64::MAX), None);
    // Already there: looked at once more, then done, as it has no checksum.
    assert!(f.measured(5) == FetchAction::Measure);
    assert!(f.measured(5) == FetchAction::Done);
    assert_eq!(f.progress(0), Some(105));
}

#[test]
fn a_download_fails_in_three_ways() {
    let mut f = Fetch::new(vec![want("big", 100, Some("abc"))]);
    for attempt in 1..6 {
        assert!(f.measured(0) == FetchAction::Transfer { discard: false });
        assert!(f.transferred(false) == FetchAction::Retry { attempt });
    }
    assert!(f.measured(0) == FetchAction::Transfer { discard: false });
    assert!(f.transferred(false) == FetchAction::Fail(Failure::GaveUp));
    assert_eq!(
        failure_message(Failure::GaveUp, f.current(), ""),
        "gave up on big after 6 attempts"
    );

    let mut f = Fetch::new(vec![want("big", 100, Some("abc"))]);
    f.measured(0);
    f.transferred(true);
    assert!(f.measured(99) == FetchAction::Fail(Failure::Incomplete { got: 99 }));
    assert_eq!(
        failure_message(Failure::Incomplete { got: 99 }, f.current(), ""),
        "big is 99 bytes, expected 100 — the download is incomplete"
    );

    let mut f = Fetch::new(vec![want("big", 100, Some("abc"))]);
    f.measured(100);
    assert!(f.measured(100) == FetchAction::Hash);
    assert!(f.hashed("abd") == FetchAction::Fail(Failure::Mismatch));
    assert_eq!(
        failure_message(Failure::Mismatch, f.current(), "abd"),
        "big sha256 does not match HuggingFace, so it has been deleted.\n    expected abc\n    actual   abd\n    Start a dictation again to re-fetch it."
    );
}

#[test]
fn a_resumed_transfer_gives_the_same_bytes() {
    let whole: Vec<u8> = (0..=255u8).cycle().take(1400).collect();
    for honours_range in [true, false] {
        for half in [0usize, 1, 700, 1399] {
            let mut disk = whole[..half].to_vec();
            let from = disk.len() as u64;
            let partial = range_header(from).is_some() && honours_range;
            let (status, body) = if partial { (206, &whole[half..]) } else { (200, &whole[..]) };
            let plan = write_plan(from, status);
            if !plan.append {
                disk.clear();
            }
            assert_eq!(plan.start, disk.len() as u64);
            disk.extend_from_slice(body);
            assert_eq!(disk, whole);
            assert_eq!(plan.start + body.len() as u64, whole.len() as u64);
        }
    }
    assert!(!write_plan(0, 206).append);
    assert_eq!(range_header(0), None);
    assert_eq!(range_header(226_000_000), Some("bytes=226000000-".to_string()));
}

#[test]
fn progress_is_reported_in_steps() {
    let mut t = Throttle::new();
    assert!(!t.due(BAR_STEP - 1, 1 << 30, BAR_STEP));
    assert!(t.due(BAR_STEP, 1 << 30, BAR_STEP));
    assert!(!t.due(BAR_STEP + 1, 1 << 30, BAR_STEP));
    // A restart goes backwards and is not reported until it has caught up.
    assert!(!t.due(0, 1 << 30, BAR_STEP));
    assert!(t.due(1 << 30, 1 << 30, BAR_STEP));
    assert_eq!(LOG_STEP, 16 << 20);
    assert!(Throttle::new().due(0, 0, LOG_STEP));
}

#[test]
fn checksums_are_lowercase_hexadecimal() {
    assert_eq!(
        sha256(b"abc"),
        "ba7816bf8f01cfea414140de5dae2223b00361a396177a9cb410ff61f20015ad"
    );
    assert_eq!(
        sha256(b""),
        "e3b0c44298fc1c149afbf4c8996fb92427ae41e4649b934ca495991b7852b855"
    );
    let data: Vec<u8> = (0..=255u8).cycle().take(100_000).collect();
    for size in [1usize, 63, 64, 65, 65_536, 200_000] {
        let mut sum = Checksum::new();
        for piece in data.chunks(size) {
            sum.take(piece);
        }
        assert_eq!(sum.finish(), sha256(&data), "pieces of {size}");
    }
    assert_eq!(Checksum::new().finish(), sha256(b""));
    assert_eq!(to_hex(&vec![0, 9, 10, 15, 16, 255]), "00090a0f10ff");
    assert_eq!(to_hex(&vec![]), "");
}

#[test]
fn the_model_is_looked_for_in_three_places() {
    assert!(model_place(true, true) == ModelPlace::Environment);
    assert!(model_place(false, true) == ModelPlace::Development);
    assert!(model_place(false, false) == ModelPlace::AppData);
    assert!(model_ready(&vec![1, 2, 3, 4, 5]));
    assert!(!model_ready(&vec![1, 2, 0, 4, 5]));
    assert_eq!(
        manifest_url(),
        "https://huggingface.co/api/models/kayees/whisper-medium-bn-en-cs-faster/tree/main"
    );
    assert_eq!(
        file_url("config.json"),
        "https://huggingface.co/kayees/whisper-medium-bn-en-cs-faster/resolve/main/config.json"
    );
}

/// One entry as the hub writes it: the entry's own `oid` comes before the file's checksum.
fn entry(path: &str, size: u64, sha: Option<&str>) -> String {
    let lfs = match sha {
        Some(sha) => format!(r#","lfs":{{"oid":"{sha}","size":{size},"pointerSize":135}}"#),
        None => String::new(),
    };
    format!(r#"{{"type":"file","oid":"git-{path}","size":{size}{lfs},"path":"{path}"}}"#)
}

fn hub_manifest() -> String {
    let entries = [
        entry(".gitattributes", 10, None),
        entry("config.json", 4, None),
        entry("model.bin", 1527906378, Some("9f86d0")),
        entry("preprocessor_config.json", 5, None),
        entry("tokenizer.json", 2, None),
        entry("vocabulary.json", 3, None),
    ];
    format!("[{}]", entries.join(",\n"))
}

#[test]
fn a_manifest_is_read_from_its_text() {
    let rows = manifest_rows(&hub_manifest()).expect("JSON");
    assert_eq!(rows.len(), 6);
    assert_eq!(rows[2].path.as_deref(), Some("model.bin"));
    assert_eq!(rows[2].size, Some(1527906378));
    assert_eq!(rows[2].sha.as_deref(), Some("9f86d0"));
    assert_eq!(rows[1].path.as_deref(), Some("config.json"));
    assert_eq!(rows[1].sha, None);

    let wants = plan_from(&hub_manifest()).ok().expect("complete manifest");
    let got: Vec<(&str, u64, Option<&str>)> =
        wants.iter().map(|w| (w.name.as_str(), w.size, w.sha.as_deref())).collect();
    assert_eq!(
        got,
        vec![
            ("model.bin", 1527906378, Some("9f86d0")),
            ("tokenizer.json", 2, None),
            ("vocabulary.json", 3, None),
            ("config.json", 4, None),
            ("preprocessor_config.json", 5, None),
        ]
    );
}

#[test]
fn entries_past_the_tenth_are_found() {
    let mut entries: Vec<String> =
        (0..12).map(|i| entry(&format!("extra-{i}"), i, None)).collect();
    entries.extend(model_files().iter().map(|f| entry(f, 7, None)));
    let rows = manifest_rows(&format!("[{}]", entries.join(","))).expect("JSON");
    assert_eq!(rows.len(), 17);
    assert_eq!(rows[11].path.as_deref(), Some("extra-11"));
    assert_eq!(rows[11].size, Some(11));
    let wants = plan_from(&format!("[{}]", entries.join(","))).ok().expect("complete manifest");
    assert_eq!(total_size(&wants), Some(35));
}

#[test]
fn odd_manifests_are_read_as_far_as_they_go() {
    // No list: nothing is in it.
    for text in [r#"{"0":{"path":"model.bin","size":1}}"#, "null", "7", r#""model.bin""#] {
        assert_eq!(manifest_rows(text).expect("JSON").len(), 0);
        let err = plan_from(text).err().expect("nothing in it");
        assert!(matches!(&err, ManifestError::Missing(n) if n == "model.bin"));
    }
    // Entries that are something else, or hold something else where a field should be.
    let rows = manifest_rows(
        r#"[null, 3, "model.bin", ["model.bin"], {}, {"path":5,"size":-1,"lfs":"x"},
            {"path":"a","size":1.5,"lfs":{"oid":7}}, {"path":"b","size":"9","lfs":["c"]}]"#,
    )
    .expect("JSON");
    assert_eq!(rows.len(), 8);
    for row in &rows[..6] {
        assert!(row.path.is_none() && row.size.is_none() && row.sha.is_none());
    }
    assert_eq!(rows[6].path.as_deref(), Some("a"));
    assert!(rows[6].size.is_none() && rows[6].sha.is_none());
    assert_eq!(rows[7].path.as_deref(), Some("b"));
    assert!(rows[7].size.is_none() && rows[7].sha.is_none());

    let err = plan_from(r#"[{"path":"model.bin","size":null}]"#).err().expect("no size");
    assert!(matches!(&err, ManifestError::NoSize(n) if n == "model.bin"));
}

#[test]
fn a_manifest_that_is_no_json_cannot_be_read() {
    for text in ["", "<html>429 Too Many Requests</html>", "[{\"path\":\"model.bin\"", "[] []"] {
        assert!(manifest_rows(text).is_none());
        let err = plan_from(text).err().expect("no JSON");
        assert!(matches!(&err, ManifestError::Unreadable));
        assert_eq!(err.message(), "could not read the model manifest from HuggingFace");
    }
}
