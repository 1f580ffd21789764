//! The model's manifest: a JSON list with an object for each file.

use crate::download::{plan, ManifestError, ManifestRow, Want};
use crate::number;
use crate::settings;
use vstd::prelude::*;

verus! {

/// What a text is as JSON: `None` where it is none, `Some(None)` where it is no list, else how
/// long the list is.
pub uninterp spec fn json_len(content: Seq<char>) -> Option<Option<usize>>;

/// The string at a place in a JSON text; `None` where the text is no JSON, the place is not there,
/// or something else is in it.
pub uninterp spec fn json_text(content: Seq<char>, place: Seq<char>) -> Option<Seq<char>>;

/// The unsigned 64-bit number at a place in a JSON text; `None` where the text is no JSON, the
/// place is not there, or something else is in it.
pub uninterp spec fn json_u64(content: Seq<char>, place: Seq<char>) -> Option<u64>;

/// `serde_json::from_str`, asked for any value: whether the text is JSON, whether it is a list, and
/// how long that is, all of it a function of the text alone.
#[verifier::external_body]
fn list_len(content: &str) -> (r: Option<Option<usize>>)
    ensures
        r == json_len(content@),
{
    match serde_json::from_str::<serde_json::Value>(content) {
        Ok(serde_json::Value::Array(list)) => Some(Some(list.len())),
        Ok(_) => Some(None),
        Err(_) => None,
    }
}

/// `serde_json::Value::pointer` into the value that `serde_json::from_str` reads, handed out where
/// `serde_json::Value::as_str` says that a string is there: a function of the two texts alone.
#[verifier::external_body]
fn text_at(content: &str, place: &str) -> (r: Option<String>)
    ensures
        settings::chars_of_string(r) == json_text(content@, place@),
{
    match serde_json::from_str::<serde_json::Value>(content) {
        Ok(v) => v.pointer(place).and_then(|at| at.as_str()).map(|s| s.to_owned()),
        Err(_) => None,
    }
}

/// `serde_json::Value::pointer` into the value that `serde_json::from_str` reads, handed out where
/// `serde_json::Value::as_u64` says that an unsigned number is there: a function of the two texts
/// alone.
#[verifier::external_body]
fn number_at(content: &str, place: &str) -> (r: Option<u64>)
    ensures
        r == json_u64(content@, place@),
{
    match serde_json::from_str::<serde_json::Value>(content) {
        Ok(v) => v.pointer(place).and_then(|at| at.as_u64()),
        Err(_) => None,
    }
}

/// The place of a field in the entry at a position of the list. The field is written with a slash
/// in front, and another for each step down.
pub open spec fn place_of(entry: int, field: Seq<char>) -> Seq<char> {
    "/"@ + number::decimal(entry as nat) + field
}

/// What is read of the entry at a position: its path, its size, and the checksum of the file that
/// it stands for. That one is in the entry's `lfs` part: the `oid` beside it is of the entry itself.
pub open spec fn reads_row(content: Seq<char>, entry: int, row: ManifestRow) -> bool {
    &&& settings::chars_of_string(row.path) == json_text(content, place_of(entry, "/path"@))
    &&& row.size == json_u64(content, place_of(entry, "/size"@))
    &&& settings::chars_of_string(row.sha) == json_text(content, place_of(entry, "/lfs/oid"@))
}

/// What is read of a manifest: one row for each entry, in order; none where it is no list.
pub open spec fn reads_manifest(content: Seq<char>, rows: Seq<ManifestRow>) -> bool {
    match json_len(content) {
        Some(Some(n)) => {
            &&& rows.len() == n
            &&& forall|i: int| 0 <= i < rows.len() ==> reads_row(content, i, #[trigger] rows[i])
        },
        Some(None) => rows.len() == 0,
        None => false,
    }
}

/// The place of a field in the entry at a position.
fn place(entry: usize, field: &str) -> (r: String)
    ensures
        r@ == place_of(entry as int, field@),
{
    let mut out = "/".to_owned();
    let digits = number::to_decimal(entry as u64);
    out.append(digits.as_str());
    out.append(field);
    out
}

/// The entries of a manifest, each as far as it can be read; `None` where the text is no JSON.
pub fn manifest_rows(content: &str) -> (r: Option<Vec<ManifestRow>>)
    ensures
        match r {
            Some(rows) => reads_manifest(content@, rows@),
            None => json_len(content@).is_none(),
        },
{
    let len: usize = match list_len(content) {
        None => {
            return None;
        },
        Some(None) => 0,
        Some(Some(n)) => n,
    };
    let mut rows: Vec<ManifestRow> = Vec::new();
    for i in 0..len
        invariant
            rows@.len() == i,
            forall|k: int| 0 <= k < i ==> reads_row(content@, k, #[trigger] rows@[k]),
    {
        let path_at = place(i, "/path");
        let size_at = place(i, "/size");
        let sha_at = place(i, "/lfs/oid");
        rows.push(
            ManifestRow {
                path: text_at(content, path_at.as_str()),
                size: number_at(content, size_at.as_str()),
                sha: text_at(content, sha_at.as_str()),
            },
        );
    }
    Some(rows)
}

/// What the text of a manifest asks for: size and checksum of every file of the model. A text that
/// is no JSON is an error of its own; any other says what its entries say.
pub fn plan_from(content: &str) -> (r: Result<Vec<Want>, ManifestError>)
    ensures
        r matches Err(ManifestError::Unreadable) <==> json_len(content@).is_none(),
        json_len(content@).is_some() ==> exists|rows: Seq<ManifestRow>|
            #[trigger] reads_manifest(content@, rows) && crate::download::planned(
                r,
                rows,
                crate::download::model_file_names(),
            ),
{
    match manifest_rows(content) {
        Some(rows) => plan(&rows),
        None => Err(ManifestError::Unreadable),
    }
}

/// A manifest says one thing: whatever is read of a text twice is the same, entry by entry.
pub proof fn law_manifest_is_read_one_way(
    content: Seq<char>,
    one: Seq<ManifestRow>,
    other: Seq<ManifestRow>,
)
    requires
        reads_manifest(content, one),
        reads_manifest(content, other),
    ensures
        one.len() == other.len(),
        forall|i: int|
            0 <= i < one.len() ==> {
                &&& settings::chars_of_string((#[trigger] one[i]).path)
                    == settings::chars_of_string(other[i].path)
                &&& one[i].size == other[i].size
                &&& settings::chars_of_string(one[i].sha) == settings::chars_of_string(other[i].sha)
            },
{
    assert forall|i: int| 0 <= i < one.len() implies reads_row(content, i, #[trigger] one[i])
        && reads_row(content, i, other[i]) by {
        assert(reads_row(content, i, other[i]));
    }
}

/// Each entry of a list is read, as many as there are, and each field from its own place: the path,
/// the size, and the checksum from the `lfs` part.
pub proof fn law_every_entry_is_read(content: Seq<char>, rows: Seq<ManifestRow>, n: usize, i: int)
    requires
        reads_manifest(content, rows),
        json_len(content) == Some(Some(n)),
        0 <= i < n,
    ensures
        rows.len() == n,
        settings::chars_of_string(rows[i].path) == json_text(
            content,
            "/"@ + number::decimal(i as nat) + "/path"@,
        ),
        rows[i].size == json_u64(content, "/"@ + number::decimal(i as nat) + "/size"@),
        settings::chars_of_string(rows[i].sha) == json_text(
            content,
            "/"@ + number::decimal(i as nat) + "/lfs/oid"@,
        ),
{
    assert(reads_row(content, i, rows[i]));
}

/// What is no list has no entries, and what is no JSON is not read.
pub proof fn law_no_list_no_entries(content: Seq<char>, rows: Seq<ManifestRow>)
    requires
        reads_manifest(content, rows),
    ensures
        json_len(content).is_some(),
        json_len(content) == Some(None::<usize>) ==> rows.len() == 0,
{
}

} // verus!
