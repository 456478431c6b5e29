use koemoji::clock::{format_jst_datetime, is_leap};
use koemoji::gpu::{
    gpu_exit_message, gpu_support, is_cuda_runtime_library, is_gpu_available, parse_i32,
    parse_progress, reads_directly,
};
use koemoji::history::{
    first_free_id, history_id_of_file_name, duration_ms, history_entry_file_name, history_file_name, new_history_entry,
    summarize_history,
};
use koemoji::model::{
    completion_total, list_model_infos, model_download_url, model_file_name, DownloadProgress,
};
use koemoji::ocr::{
    clamp_interval, cumulative_ocr_result, ensure_ocr_support, frame_progress,
    ocr_failure_message, ocr_support_from, render_cumulative_ocr_text, OcrSnapshot,
    OcrTimeline,
};
use koemoji::similarity::levenshtein;
use koemoji::text::{collapse_whitespace, decimal_string, split_lines, trim_string};
use koemoji::transcript::{
    centisecond_offset, detection_step, detection_window_count, group_languages,
    merge_segments, segments_from_items, speech_segment, uses_mixed_mode, whisper_language,
    whisper_segment, DetectionStep, Segment, TranscriptionItem,
};

fn seg(start: i64, end: i64, text: &str, source: &str) -> Segment {
    Segment { start_ms: start, end_ms: end, text: text.to_string(), source: source.to_string() }
}

fn key(s: &Segment) -> (i64, String, String) {
    (s.start_ms, s.source.clone(), s.text.clone())
}

// ---- text primitives agree with std -------------------------------------

#[test]
fn split_lines_agrees_with_str_lines() {
    for text in ["", "a", "a\n", "a\nb", "a\r\nb\r\n", "\n", "\n\n", "x\r", "a\n\r\nb", "末尾\n改行"] {
        let chars: Vec<char> = text.chars().collect();
        let ours: Vec<String> = split_lines(&chars).iter().map(|l| l.iter().collect()).collect();
        let std_lines: Vec<String> = text.lines().map(|l| l.to_string()).collect();
        assert_eq!(ours, std_lines, "input {:?}", text);
    }
}

#[test]
fn collapse_whitespace_agrees_with_split_whitespace() {
    for text in ["", "  a  b ", "a\tb\u{3000}c", "\u{a0}x\u{2003}y\n", "one", "   "] {
        let chars: Vec<char> = text.chars().collect();
        let ours: String = collapse_whitespace(&chars).iter().collect();
        let std_words = text.split_whitespace().collect::<Vec<_>>().join(" ");
        assert_eq!(ours, std_words, "input {:?}", text);
    }
}

#[test]
fn trim_agrees_with_str_trim() {
    for text in ["", "  a b  ", "\u{3000}全角\u{3000}", "x", " \n\t "] {
        assert_eq!(trim_string(text), text.trim());
    }
}

#[test]
fn decimal_rendering() {
    assert_eq!(decimal_string(0), "0");
    assert_eq!(decimal_string(42), "42");
    assert_eq!(decimal_string(u64::MAX), u64::MAX.to_string());
}

// ---- clock ---------------------------------------------------------------

#[test]
fn jst_timestamps() {
    assert_eq!(format_jst_datetime(0), "1970-01-01 09:00:00");
    assert_eq!(format_jst_datetime(1_700_000_000), "2023-11-15 07:13:20");
    // 2000-02-29 00:00:00 UTC
    assert_eq!(format_jst_datetime(951_782_400), "2000-02-29 09:00:00");
    // 2023-12-31 15:00:00 UTC is new year in Japan
    assert_eq!(format_jst_datetime(1_704_034_800), "2024-01-01 00:00:00");
    // 2024-12-31 14:59:59 UTC: last second of a leap year in Japan
    assert_eq!(format_jst_datetime(1_735_657_199), "2024-12-31 23:59:59");
}

#[test]
fn leap_years() {
    assert!(is_leap(2000));
    assert!(is_leap(2024));
    assert!(!is_leap(1900));
    assert!(!is_leap(2023));
}

// ---- cumulative slide text ------------------------------------------------

#[test]
fn cumulative_text_layout() {
    let snaps = vec![
        OcrSnapshot { start_ms: 0, text: "Title\nBody".into(), is_new_slide: true },
        OcrSnapshot { start_ms: 3_725_000, text: "Added".into(), is_new_slide: false },
    ];
    let out = render_cumulative_ocr_text(&snaps, "lecture.mp4", "2024-01-01 00:00:00");
    let expected = "# OCR Slide Text: lecture.mp4\n# Generated: 2024-01-01 00:00:00\n\n---\n\n\
## [00:00:00] ← Slide\nTitle\nBody\n\n---\n\n\
## [01:02:05] +\n+ Added\n\n---\n\n";
    assert_eq!(out, expected);
}

#[test]
fn cumulative_text_negative_start_matches_rust_formatting() {
    let snaps = vec![OcrSnapshot { start_ms: -5_000, text: "x".into(), is_new_slide: true }];
    let out = render_cumulative_ocr_text(&snaps, "a", "b");
    let secs: i64 = -5;
    let ts = format!("{:02}:{:02}:{:02}", secs / 3600, (secs % 3600) / 60, secs % 60);
    assert!(out.contains(&format!("## [{ts}] ← Slide\n")), "{out}");
}

#[test]
fn cumulative_result_unavailable_without_snapshots() {
    let r = cumulative_ocr_result(&[], "video");
    assert!(!r.available);
    assert!(r.text.is_empty());
    let snaps = vec![OcrSnapshot { start_ms: 0, text: "x".into(), is_new_slide: true }];
    let r = cumulative_ocr_result(&snaps, "video");
    assert!(r.available);
    assert!(r.text.starts_with("# OCR Slide Text: video\n# Generated: "));
}

// ---- OCR timeline ----------------------------------------------------------

#[test]
fn timeline_records_new_slides_and_additions() {
    let mut t = OcrTimeline::new(5);
    t.record_frame(0, "Slide one\nFirst point\n".as_bytes());
    t.record_frame(1, "Slide one\nFirst point\n".as_bytes());
    t.record_frame(2, "Slide one\nFirst point\nSecond point\n".as_bytes());
    t.record_frame(3, "Another deck\nTotally new\n".as_bytes());
    let (segments, snapshots) = t.finish();
    assert_eq!(segments.len(), 3);
    assert_eq!(snapshots.len(), 3);
    assert_eq!(key(&segments[0]), (0, "ocr".into(), "Slide one\nFirst point".into()));
    assert_eq!(segments[0].end_ms, 5_000);
    assert!(snapshots[0].is_new_slide);
    assert_eq!(key(&segments[1]), (10_000, "ocr".into(), "Second point".into()));
    assert!(!snapshots[1].is_new_slide);
    assert_eq!(snapshots[1].text, "Second point");
    assert_eq!(segments[2].start_ms, 15_000);
    assert!(snapshots[2].is_new_slide);
    assert_eq!(snapshots[2].text, "Another deck\nTotally new");
}

#[test]
fn interval_is_clamped() {
    assert_eq!(clamp_interval(0), 1);
    assert_eq!(clamp_interval(5), 5);
    assert_eq!(clamp_interval(600), 60);
    assert_eq!(OcrTimeline::new(0).interval_secs, 1);
}

#[test]
fn frame_progress_percent() {
    assert_eq!(frame_progress(0, 4), 25);
    assert_eq!(frame_progress(3, 4), 100);
    assert_eq!(frame_progress(0, 3), 33);
}

#[test]
fn ocr_failure_messages() {
    assert_eq!(ocr_failure_message(b"  \n"), "Tesseract OCR に失敗しました");
    assert_eq!(
        ocr_failure_message(b" bad image\n"),
        "Tesseract OCR に失敗しました: bad image"
    );
}

#[test]
fn ocr_support_reports() {
    let ok = ocr_support_from(true, true, Some((b"List of available languages (3):\neng\njpn\nosd\n".to_vec(), Vec::new())));
    assert!(ok.available && ok.japanese_found && ok.english_found);
    assert_eq!(ok.message, "画面OCRを利用できます(Tesseract: 日本語 + 英語)");
    assert!(ensure_ocr_support(&ok).is_ok());

    let no_tools = ocr_support_from(false, false, None);
    assert!(!no_tools.available);
    assert_eq!(
        no_tools.message,
        "画面OCRには ffmpeg / Tesseract が必要です。インストール後にアプリを再起動してください。"
    );
    assert_eq!(ensure_ocr_support(&no_tools), Err(no_tools.message.clone()));

    let no_jpn = ocr_support_from(true, true, Some((Vec::new(), b"  eng \r\n".to_vec())));
    assert!(!no_jpn.japanese_found && no_jpn.english_found);
    assert_eq!(
        no_jpn.message,
        "画面OCRには Tesseract日本語データ(jpn) が必要です。インストール後にアプリを再起動してください。"
    );
}

// ---- timeline merging ----------------------------------------------------

#[test]
fn merge_orders_by_start_with_speech_first() {
    let speech = vec![seg(0, 500, "a", "speech"), seg(1000, 2000, "b", "speech")];
    let screen = vec![seg(1000, 6000, "slide", "ocr"), seg(0, 5000, "title", "ocr")];
    let merged = merge_segments(speech, screen);
    let keys: Vec<_> = merged.iter().map(key).collect();
    assert_eq!(
        keys,
        vec![
            (0, "speech".into(), "a".into()),
            (0, "ocr".into(), "title".into()),
            (1000, "speech".into(), "b".into()),
            (1000, "ocr".into(), "slide".into()),
        ]
    );
}

#[test]
fn merge_is_stable_for_equal_keys() {
    let speech = vec![seg(0, 1, "first", "speech"), seg(0, 1, "second", "speech")];
    let merged = merge_segments(speech, Vec::new());
    assert_eq!(merged[0].text, "first");
    assert_eq!(merged[1].text, "second");
}

// ---- speech ---------------------------------------------------------------

#[test]
fn speech_segments_are_trimmed_and_blank_ones_dropped() {
    let s = speech_segment(10, 20, "  hello ").unwrap();
    assert_eq!(key(&s), (10, "speech".into(), "hello".into()));
    assert!(speech_segment(0, 1, " \n ").is_none());
    let w = whisper_segment(5, 7, centisecond_offset(160_000), "x").unwrap();
    assert_eq!((w.start_ms, w.end_ms), (10_050, 10_070));
}

#[test]
fn gpu_items_become_segments() {
    let items = vec![
        TranscriptionItem { text: " one ".into(), from_ms: 0, to_ms: 100 },
        TranscriptionItem { text: "   ".into(), from_ms: 100, to_ms: 200 },
        TranscriptionItem { text: "two".into(), from_ms: 200, to_ms: 300 },
    ];
    let segs = segments_from_items(&items).unwrap();
    assert_eq!(segs.len(), 2);
    assert_eq!(key(&segs[1]), (200, "speech".into(), "two".into()));
    let blank = vec![TranscriptionItem { text: " ".into(), from_ms: 0, to_ms: 1 }];
    assert_eq!(segments_from_items(&blank).err().unwrap(), "文字起こし結果が空です");
}

#[test]
fn mixed_mode_decisions() {
    assert_eq!(whisper_language("mixed"), "auto");
    assert_eq!(whisper_language("ja"), "ja");
    assert!(uses_mixed_mode("mixed", 32_000));
    assert!(!uses_mixed_mode("mixed", 31_999));
    assert!(!uses_mixed_mode("ja", 1_000_000));
    assert_eq!(detection_window_count(160_000), 1);
    assert_eq!(detection_window_count(160_001), 2);
    assert_eq!(detection_window_count(0), 0);
}

#[test]
fn short_tail_window_inherits_language() {
    let detected = vec![3];
    match detection_step(1, 170_000, &detected) {
        DetectionStep::Inherit(l) => assert_eq!(l, 3),
        DetectionStep::Detect(..) => panic!("expected inherit"),
    }
    match detection_step(1, 200_000, &detected) {
        DetectionStep::Detect(s, e) => assert_eq!((s, e), (160_000, 200_000)),
        DetectionStep::Inherit(_) => panic!("expected detect"),
    }
    match detection_step(0, 5_000, &Vec::new()) {
        DetectionStep::Detect(s, e) => assert_eq!((s, e), (0, 5_000)),
        DetectionStep::Inherit(_) => panic!("expected detect"),
    }
}

#[test]
fn language_windows_are_grouped() {
    let groups = group_languages(&vec![1, 1, 2, 2, 1], 700_000);
    let g: Vec<_> = groups.iter().map(|g| (g.start, g.end, g.lang)).collect();
    assert_eq!(g, vec![(0, 320_000, 1), (320_000, 640_000, 2), (640_000, 700_000, 1)]);
}

// ---- GPU -------------------------------------------------------------------

#[test]
fn progress_is_read_from_words() {
    assert_eq!(parse_progress("whisper_print_progress_callback: progress =  45%"), vec![45]);
    assert_eq!(parse_progress("100% 120%% -5% abc 7"), vec![100, 100, -5, 7]);
    assert_eq!(parse_progress(""), Vec::<i32>::new());
}

#[test]
fn i32_parsing_agrees_with_std() {
    for s in ["0", "+12", "-12", "2147483647", "2147483648", "-2147483648", "-2147483649", "", "+", "-", "1a", "00012", "99999999999999999999"] {
        let chars: Vec<char> = s.chars().collect();
        assert_eq!(parse_i32(&chars), s.parse::<i32>().ok(), "input {s:?}");
    }
}

#[test]
fn gpu_reports() {
    assert_eq!(gpu_support(true, true).message, "GPU アクセラレーション有効");
    assert_eq!(gpu_support(true, false).message, "GPU を検出。ビルド時に whisper-cli-gpu が生成されます。");
    assert_eq!(gpu_support(false, false).message, "GPU は検出されませんでした（CPU で動作します）。");
    assert!(is_gpu_available(Some("/opt/whisper-cli-gpu")));
    assert!(!is_gpu_available(None));
    assert_eq!(gpu_exit_message(Some(3)), "whisper-cli-gpu 異常終了 (exit: 3)");
    assert_eq!(gpu_exit_message(None), "whisper-cli-gpu 異常終了 (exit: -1)");
}

#[test]
fn direct_formats_and_cuda_libraries() {
    assert!(reads_directly("MP3"));
    assert!(reads_directly("flac"));
    assert!(!reads_directly("mp4"));
    assert!(!reads_directly(""));
    assert!(is_cuda_runtime_library("CUDART64_12.DLL"));
    assert!(is_cuda_runtime_library("cublas64_11.dll"));
    assert!(!is_cuda_runtime_library("cudnn64_8.dll"));
    assert!(!is_cuda_runtime_library("cudart64_.so"));
}

// ---- history ---------------------------------------------------------------

#[test]
fn history_ids_must_be_digits() {
    assert_eq!(history_file_name("1700000000123"), Ok("1700000000123.json".to_string()));
    assert_eq!(history_file_name(""), Err("不正な履歴IDです".to_string()));
    assert_eq!(history_file_name("../x"), Err("不正な履歴IDです".to_string()));
    assert_eq!(history_file_name("12a"), Err("不正な履歴IDです".to_string()));
}

#[test]
fn saved_ids_can_be_loaded() {
    let entry = new_history_entry(1_700_000_000_123, "a.mp4", "small", "ja", &[]);
    assert_eq!(entry.id, "1700000000123");
    assert_eq!(history_file_name(&entry.id).unwrap(), history_entry_file_name(1_700_000_000_123));
}

#[test]
fn history_summaries_newest_first() {
    let segs = vec![seg(0, 900, "a", "speech"), seg(500, 1500, "b", "ocr"), seg(100, 200, "c", "speech")];
    let entries = vec![
        new_history_entry(10, "old.mp3", "tiny", "ja", &segs),
        new_history_entry(30, "new.mp3", "base", "en", &[]),
        new_history_entry(20, "mid.mp3", "small", "mixed", &segs[..1]),
    ];
    let list = summarize_history(&entries);
    let ids: Vec<_> = list.iter().map(|s| s.id.clone()).collect();
    assert_eq!(ids, vec!["30", "20", "10"]);
    assert_eq!(list[2].segment_count, 3);
    assert_eq!(list[2].duration_ms, 1500);
    assert_eq!(list[0].duration_ms, 0);
}

#[test]
fn duration_is_the_largest_end() {
    assert_eq!(duration_ms(&[]), 0);
    assert_eq!(duration_ms(&[seg(0, -5, "x", "speech")]), -5);
    assert_eq!(duration_ms(&[seg(0, 5, "x", "speech"), seg(0, 3, "y", "speech")]), 5);
}

// ---- models ----------------------------------------------------------------

#[test]
fn model_names_and_urls() {
    assert_eq!(model_file_name("small"), Ok("ggml-small.bin".to_string()));
    assert_eq!(model_file_name("huge"), Err("不明なモデルです: huge".to_string()));
    assert_eq!(
        model_download_url("tiny"),
        "https://huggingface.co/ggerganov/whisper.cpp/resolve/main/ggml-tiny.bin"
    );
    let infos = list_model_infos(&[true, false, false, false, false, true]);
    assert_eq!(infos.len(), 6);
    assert_eq!(infos[4].id, "large-v3-turbo");
    assert_eq!(infos[4].size_mb, 1620);
    assert!(infos[5].downloaded && !infos[4].downloaded);
}

#[test]
fn download_progress_reports_each_mebibyte() {
    let mut p = DownloadProgress::new();
    assert!(!p.record_chunk(1000));
    assert!(p.record_chunk(1 << 20));
    assert!(!p.record_chunk(10));
    assert_eq!(p.downloaded, 1000 + (1 << 20) + 10);
    assert_eq!(completion_total(0, 55), 55);
    assert_eq!(completion_total(70, 55), 70);
}

// ---- additions ---------------------------------------------------------------

#[test]
fn character_classes_agree_with_std() {
    for u in 0u32..0x11000 {
        if let Some(c) = char::from_u32(u) {
            assert_eq!(koemoji::text::char_is_whitespace(c), c.is_whitespace(), "U+{u:04X}");
            assert_eq!(
                koemoji::text::char_is_ascii_punctuation(c),
                c.is_ascii_punctuation(),
                "U+{u:04X}"
            );
        }
    }
}

#[test]
fn whisper_cli_argument_list() {
    assert_eq!(
        koemoji::gpu::whisper_cli_args("m.bin", "ja", false, "in.wav"),
        vec!["-m", "m.bin", "-l", "ja", "-oj", "-pp", "in.wav"]
    );
    assert_eq!(
        koemoji::gpu::whisper_cli_args("m.bin", "auto", true, "in.wav"),
        vec!["-m", "m.bin", "-l", "auto", "-oj", "-pp", "-tr", "in.wav"]
    );
}

#[test]
fn history_file_names_read_back_as_ids() {
    assert_eq!(history_id_of_file_name("1700000000123.json"), Some(1_700_000_000_123));
    assert_eq!(history_id_of_file_name(&history_entry_file_name(42)), Some(42));
    assert_eq!(history_id_of_file_name("0.json"), Some(0));
    assert_eq!(history_id_of_file_name("007.json"), None);
    assert_eq!(history_id_of_file_name("12.txt"), None);
    assert_eq!(history_id_of_file_name(".json"), None);
    assert_eq!(history_id_of_file_name("99999999999999999999.json"), None);
    assert_eq!(first_free_id(10, &vec![10, 11, 13]), Some(12));
    assert_eq!(first_free_id(10, &vec![9, 11]), Some(10));
    assert_eq!(first_free_id(u64::MAX, &vec![u64::MAX]), None);
}

#[test]
fn levenshtein_triangle_and_length_bounds() {
    let words = ["", "a", "kitten", "sitting", "mitten", "会議", "会議室", "abcabc"];
    for a in words {
        for b in words {
            let (la, lb) = (a.chars().count(), b.chars().count());
            let d = levenshtein(a, b);
            assert!(la.abs_diff(lb) <= d && d <= la.max(lb));
            for c in words {
                assert!(levenshtein(a, c) <= d + levenshtein(b, c));
            }
        }
    }
}
