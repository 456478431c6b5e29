//! The recognition model catalogue: known models, their file names and
//! download addresses, and the pacing of download progress reports.
use vstd::prelude::*;

use crate::text::{chars_of, push_str, str_eq, string_of};

verus! {

/// A model of the catalogue and whether it is on disk.
pub struct ModelInfo {
    pub id: String,
    pub description: String,
    pub size_mb: u64,
    pub downloaded: bool,
}

/// The catalogue: identifier, description and approximate size in MB.
pub open spec fn catalog() -> Seq<(Seq<char>, Seq<char>, u64)> {
    seq![
        ("tiny"@, "最小・最速(精度は低め)"@, 78u64),
        ("base"@, "軽量・高速"@, 148u64),
        ("small"@, "バランス型(まずはこれ)"@, 488u64),
        ("medium"@, "高精度(やや重い)"@, 1530u64),
        ("large-v3-turbo"@, "高精度かつ高速化版(おすすめ)"@, 1620u64),
        ("large-v3"@, "最高精度(重い)"@, 3100u64),
    ]
}

pub open spec fn is_known_model_id(id: Seq<char>) -> bool {
    exists|i: int| 0 <= i < catalog().len() && #[trigger] catalog()[i].0 == id
}

/// Number of models in the catalogue.
pub fn catalog_len() -> (r: usize)
    ensures
        r == catalog().len(),
{
    6
}

/// Entry `i` of the catalogue.
fn catalog_entry(i: usize) -> (r: (&'static str, &'static str, u64))
    requires
        i < 6,
    ensures
        r.0@ == catalog()[i as int].0,
        r.1@ == catalog()[i as int].1,
        r.2 == catalog()[i as int].2,
{
    if i == 0 {
        ("tiny", "最小・最速(精度は低め)", 78)
    } else if i == 1 {
        ("base", "軽量・高速", 148)
    } else if i == 2 {
        ("small", "バランス型(まずはこれ)", 488)
    } else if i == 3 {
        ("medium", "高精度(やや重い)", 1530)
    } else if i == 4 {
        ("large-v3-turbo", "高精度かつ高速化版(おすすめ)", 1620)
    } else {
        ("large-v3", "最高精度(重い)", 3100)
    }
}

/// Whether `model_id` names a model of the catalogue.
pub fn is_known_model(model_id: &str) -> (r: bool)
    ensures
        r == is_known_model_id(model_id@),
{
    let mut i: usize = 0;
    while i < 6
        invariant
            i <= 6,
            forall|k: int| 0 <= k < i ==> #[trigger] catalog()[k].0 != model_id@,
        decreases 6 - i,
    {
        let (id, _, _) = catalog_entry(i);
        if str_eq(id, model_id) {
            return true;
        }
        i = i + 1;
    }
    false
}

/// The file name of a catalogue model (`ggml-<id>.bin`), or an error for an
/// unknown identifier.
pub fn model_file_name(model_id: &str) -> (r: Result<String, String>)
    ensures
        is_known_model_id(model_id@) ==> (r matches Ok(f) && f@ == "ggml-"@ + model_id@
            + ".bin"@),
        !is_known_model_id(model_id@) ==> (r matches Err(m) && m@ == "不明なモデルです: "@
            + model_id@),
{
    let mut out: Vec<char> = Vec::new();
    if !is_known_model(model_id) {
        push_str(&mut out, "不明なモデルです: ");
        push_str(&mut out, model_id);
        return Err(string_of(out.as_slice()));
    }
    push_str(&mut out, "ggml-");
    push_str(&mut out, model_id);
    push_str(&mut out, ".bin");
    Ok(string_of(out.as_slice()))
}

/// The message for a transcription asked of a model not downloaded yet.
pub fn model_not_downloaded_message(model_id: &str) -> (r: String)
    ensures
        r@ == "モデル「"@ + model_id@
            + "」が未ダウンロードです。「モデルの管理」からダウンロードしてください。"@,
{
    let mut out: Vec<char> = Vec::new();
    push_str(&mut out, "モデル「");
    push_str(&mut out, model_id);
    push_str(&mut out, "」が未ダウンロードです。「モデルの管理」からダウンロードしてください。");
    string_of(out.as_slice())
}

/// Where a model is downloaded from.
pub fn model_download_url(model_id: &str) -> (r: String)
    ensures
        r@ == "https://huggingface.co/ggerganov/whisper.cpp/resolve/main/ggml-"@ + model_id@
            + ".bin"@,
{
    let mut out: Vec<char> = Vec::new();
    push_str(&mut out, "https://huggingface.co/ggerganov/whisper.cpp/resolve/main/ggml-");
    push_str(&mut out, model_id);
    push_str(&mut out, ".bin");
    string_of(out.as_slice())
}

/// The catalogue with, for each model, whether its file is on disk.
pub fn list_model_infos(downloaded: &[bool]) -> (r: Vec<ModelInfo>)
    requires
        downloaded@.len() == catalog().len(),
    ensures
        r@.len() == catalog().len(),
        forall|i: int|
            0 <= i < catalog().len() ==> {
                &&& (#[trigger] r@[i]).id@ == catalog()[i].0
                &&& r@[i].description@ == catalog()[i].1
                &&& r@[i].size_mb == catalog()[i].2
                &&& r@[i].downloaded == downloaded@[i]
            },
{
    let mut out: Vec<ModelInfo> = Vec::new();
    let mut i: usize = 0;
    while i < 6
        invariant
            i <= 6,
            downloaded@.len() == 6,
            out@.len() == i,
            forall|k: int|
                0 <= k < i ==> {
                    &&& (#[trigger] out@[k]).id@ == catalog()[k].0
                    &&& out@[k].description@ == catalog()[k].1
                    &&& out@[k].size_mb == catalog()[k].2
                    &&& out@[k].downloaded == downloaded@[k]
                },
        decreases 6 - i,
    {
        let (id, desc, size) = catalog_entry(i);
        out.push(
            ModelInfo {
                id: string_of(chars_of(id).as_slice()),
                description: string_of(chars_of(desc).as_slice()),
                size_mb: size,
                downloaded: downloaded[i],
            },
        );
        i = i + 1;
    }
    out
}

// ---------------------------------------------------------------------------
// Download progress
// ---------------------------------------------------------------------------

/// Bytes received so far and the whole mebibytes last reported.
pub struct DownloadProgress {
    pub downloaded: u64,
    pub last_reported_mb: u64,
}

impl DownloadProgress {
    pub fn new() -> (r: DownloadProgress)
        ensures
            r.downloaded == 0,
            r.last_reported_mb == 0,
    {
        DownloadProgress { downloaded: 0, last_reported_mb: 0 }
    }

    /// Counts a received chunk; returns whether a progress report is due,
    /// which is when the count of whole mebibytes received has changed.
    pub fn record_chunk(&mut self, len: u64) -> (report: bool)
        requires
            old(self).downloaded + len <= u64::MAX,
        ensures
            final(self).downloaded == old(self).downloaded + len,
            report == (final(self).downloaded / 1048576 != old(self).last_reported_mb),
            final(self).last_reported_mb == if report {
                final(self).downloaded / 1048576
            } else {
                old(self).last_reported_mb
            },
    {
        let total: u64 = self.downloaded + len;
        self.downloaded = total;
        let mb: u64 = total >> 20;
        proof {
            assert(total >> 20 == total / 1048576) by (bit_vector);
        }
        if mb != self.last_reported_mb {
            self.last_reported_mb = mb;
            true
        } else {
            false
        }
    }
}

/// The total reported when a download ends: the announced size, or the
/// bytes received when no size was announced.
pub fn completion_total(total: u64, downloaded: u64) -> (r: u64)
    ensures
        r == if total > 0 {
            total
        } else {
            downloaded
        },
{
    if total > 0 {
        total
    } else {
        downloaded
    }
}

} // verus!
