//! GPU recogniser support: the status report, progress read from the
//! recogniser's error stream, the formats it reads directly and the
//! recognition of CUDA runtime libraries.
use vstd::prelude::*;

use crate::text::{
    char_is_whitespace, chars_eq, chars_of, push_signed_padded, push_str,
    signed_padded, str_lowercase, string_of, string_to_lowercase, words,
};

verus! {

/// Whether GPU transcription is possible and the message shown about it.
pub struct GpuSupport {
    pub gpu_available: bool,
    pub gpu_cli_found: bool,
    pub message: String,
}

/// The report for a detected GPU runtime and a found GPU recogniser.
pub fn gpu_support(gpu_available: bool, cli_found: bool) -> (r: GpuSupport)
    ensures
        r.gpu_available == gpu_available,
        r.gpu_cli_found == cli_found,
        r.message@ == if cli_found {
            "GPU アクセラレーション有効"@
        } else if gpu_available {
            "GPU を検出。ビルド時に whisper-cli-gpu が生成されます。"@
        } else {
            "GPU は検出されませんでした（CPU で動作します）。"@
        },
{
    let message = if cli_found {
        string_of(chars_of("GPU アクセラレーション有効").as_slice())
    } else if gpu_available {
        string_of(chars_of("GPU を検出。ビルド時に whisper-cli-gpu が生成されます。").as_slice())
    } else {
        string_of(chars_of("GPU は検出されませんでした（CPU で動作します）。").as_slice())
    };
    GpuSupport { gpu_available, gpu_cli_found: cli_found, message }
}

/// GPU transcription is used exactly when the GPU recogniser was found.
pub fn is_gpu_available(whisper_cli_gpu: Option<&str>) -> (r: bool)
    ensures
        r == whisper_cli_gpu.is_some(),
{
    whisper_cli_gpu.is_some()
}

/// The arguments of a GPU recogniser run: model, language, JSON output,
/// progress on the error stream, translation when asked, then the input.
pub open spec fn whisper_cli_args_spec(
    model_path: Seq<char>,
    language: Seq<char>,
    translate: bool,
    input_path: Seq<char>,
) -> Seq<Seq<char>> {
    seq!["-m"@, model_path, "-l"@, language, "-oj"@, "-pp"@] + (if translate {
        seq!["-tr"@]
    } else {
        Seq::empty()
    }) + seq![input_path]
}

/// The argument list for the GPU recogniser.
pub fn whisper_cli_args(model_path: &str, language: &str, translate: bool, input_path: &str) -> (r:
    Vec<String>)
    ensures
        crate::text::views(r@) == whisper_cli_args_spec(
            model_path@,
            language@,
            translate,
            input_path@,
        ),
{
    let mut args: Vec<String> = Vec::new();
    args.push(string_of(chars_of("-m").as_slice()));
    args.push(string_of(chars_of(model_path).as_slice()));
    args.push(string_of(chars_of("-l").as_slice()));
    args.push(string_of(chars_of(language).as_slice()));
    args.push(string_of(chars_of("-oj").as_slice()));
    args.push(string_of(chars_of("-pp").as_slice()));
    if translate {
        args.push(string_of(chars_of("-tr").as_slice()));
    }
    args.push(string_of(chars_of(input_path).as_slice()));
    proof {
        assert(crate::text::views(args@) =~= whisper_cli_args_spec(
            model_path@,
            language@,
            translate,
            input_path@,
        ));
    }
    args
}

// ---------------------------------------------------------------------------
// Integers in text
// ---------------------------------------------------------------------------

pub open spec fn digit_value(c: char) -> int {
    (c as u32) - 48
}

/// The value of a run of decimal digits.
pub open spec fn digits_value(d: Seq<char>) -> int
    decreases d.len(),
{
    if d.len() == 0 {
        0
    } else {
        digits_value(d.drop_last()) * 10 + digit_value(d.last())
    }
}

pub open spec fn all_digits(d: Seq<char>) -> bool {
    forall|i: int| 0 <= i < d.len() ==> '0' <= #[trigger] d[i] <= '9'
}

/// The `i32` a text denotes as `str::parse::<i32>` reads it: an optional
/// `+` or `-`, then one or more decimal digits, the value within `i32`.
pub open spec fn i32_of_text(s: Seq<char>) -> Option<int> {
    let neg = s.len() > 0 && s[0] == '-';
    let body = if s.len() > 0 && (s[0] == '-' || s[0] == '+') {
        s.drop_first()
    } else {
        s
    };
    let v = if neg {
        -digits_value(body)
    } else {
        digits_value(body)
    };
    if body.len() == 0 || !all_digits(body) || v < i32::MIN || v > i32::MAX {
        None
    } else {
        Some(v)
    }
}

pub(crate) proof fn lemma_digits_value_monotone(d: Seq<char>, k: int)
    requires
        all_digits(d),
        0 <= k <= d.len(),
    ensures
        digits_value(d.take(k)) <= digits_value(d),
        digits_value(d.take(k)) >= 0,
    decreases d.len() - k,
{
    if k < d.len() {
        lemma_digits_value_monotone(d, k + 1);
        assert(d.take(k + 1).drop_last() =~= d.take(k));
        assert(d.take(k + 1).last() == d[k]);
    } else {
        assert(d.take(k) =~= d);
    }
    lemma_digits_value_nonneg(d.take(k));
}

proof fn lemma_digits_value_nonneg(d: Seq<char>)
    requires
        all_digits(d),
    ensures
        digits_value(d) >= 0,
    decreases d.len(),
{
    if d.len() > 0 {
        assert(all_digits(d.drop_last())) by {
            assert forall|i: int| 0 <= i < d.drop_last().len() implies '0' <= #[trigger] d.drop_last()[i] <= '9' by {
                assert(d.drop_last()[i] == d[i]);
            }
        }
        lemma_digits_value_nonneg(d.drop_last());
        assert(d[d.len() - 1] == d.last());
    }
}

/// Reads an `i32` as `str::parse::<i32>` does (see `i32_of_text`).
pub fn parse_i32(s: &[char]) -> (r: Option<i32>)
    ensures
        r matches Some(v) ==> i32_of_text(s@) == Some(v as int),
        r is None ==> i32_of_text(s@) is None,
{
    let n = s.len();
    let neg = n > 0 && s[0] == '-';
    let skip: usize = if n > 0 && (s[0] == '-' || s[0] == '+') {
        1
    } else {
        0
    };
    let ghost body = if s@.len() > 0 && (s@[0] == '-' || s@[0] == '+') {
        s@.drop_first()
    } else {
        s@
    };
    if skip == n {
        return None;
    }
    let mut value: i64 = 0;
    let mut k: usize = skip;
    proof {
        assert(body =~= s@.subrange(skip as int, n as int));
        assert(body.take(0) =~= Seq::<char>::empty());
    }
    while k < n
        invariant
            skip <= k <= n == s@.len(),
            body == s@.subrange(skip as int, n as int),
            body == if s@.len() > 0 && (s@[0] == '-' || s@[0] == '+') {
                s@.drop_first()
            } else {
                s@
            },
            all_digits(body.take(k - skip)),
            value == digits_value(body.take(k - skip)),
            0 <= value <= 2147483648,
        decreases n - k,
    {
        let c = s[k];
        let ghost j = k - skip;
        proof {
            assert(body[j] == c);
            assert(body.take(j + 1).drop_last() =~= body.take(j));
            assert(body.take(j + 1).last() == c);
        }
        if c < '0' || c > '9' {
            proof {
                assert(!('0' <= body[j] <= '9'));
                assert(!all_digits(body));
                assert(i32_of_text(s@) is None);
            }
            return None;
        }
        let d: i64 = if c == '0' { 0 } else if c == '1' { 1 } else if c == '2' { 2 }
            else if c == '3' { 3 } else if c == '4' { 4 } else if c == '5' { 5 }
            else if c == '6' { 6 } else if c == '7' { 7 } else if c == '8' { 8 } else { 9 };
        proof {
            assert(d == digit_value(c));
            assert(all_digits(body.take(j + 1))) by {
                assert forall|i: int| 0 <= i < body.take(j + 1).len() implies '0' <= #[trigger] body.take(j + 1)[i] <= '9' by {
                    if i < j {
                        assert(body.take(j + 1)[i] == body.take(j)[i]);
                    }
                }
            }
        }
        value = value * 10 + d;
        k = k + 1;
        proof {
            assert(digits_value(body.take(j + 1)) == digits_value(body.take(j)) * 10 + digit_value(c));
            assert(value == digits_value(body.take(j + 1)));
        }
        if value > 2147483648 {
            proof {
                if all_digits(body) {
                    lemma_digits_value_monotone(body, (k - skip) as int);
                    assert(digits_value(body) > 2147483648);
                }
                assert(i32_of_text(s@) is None);
            }
            return None;
        }
    }
    proof {
        assert(body.take(n - skip) =~= body);
    }
    if neg {
        Some((-value) as i32)
    } else if value > 2147483647 {
        None
    } else {
        Some(value as i32)
    }
}

// ---------------------------------------------------------------------------
// Progress read from the recogniser's error stream
// ---------------------------------------------------------------------------

/// `w` without its trailing `%` signs.
pub open spec fn strip_percent(w: Seq<char>) -> Seq<char>
    decreases w.len(),
{
    if w.len() > 0 && w.last() == '%' {
        strip_percent(w.drop_last())
    } else {
        w
    }
}

/// The progress values of a list of words: every word that reads as an
/// integer once its trailing `%` signs are removed, capped at 100.
pub open spec fn progress_of_words(ws: Seq<Seq<char>>) -> Seq<int>
    decreases ws.len(),
{
    if ws.len() == 0 {
        Seq::empty()
    } else {
        let r = progress_of_words(ws.drop_last());
        match i32_of_text(strip_percent(ws.last())) {
            Some(v) => r.push(if v <= 100 {
                v
            } else {
                100
            }),
            None => r,
        }
    }
}

/// The progress values reported on one line of the recogniser's output.
pub open spec fn progress_values(line: Seq<char>) -> Seq<int> {
    progress_of_words(words(line))
}

fn strip_percent_chars(w: &Vec<char>) -> (r: Vec<char>)
    ensures
        r@ == strip_percent(w@),
{
    let mut end: usize = w.len();
    proof {
        assert(w@.take(end as int) =~= w@);
    }
    while end > 0 && w[end - 1] == '%'
        invariant
            end <= w@.len(),
            strip_percent(w@) == strip_percent(w@.take(end as int)),
        decreases end,
    {
        proof {
            assert(w@.take(end as int).drop_last() =~= w@.take(end - 1));
        }
        end = end - 1;
    }
    let mut out: Vec<char> = Vec::new();
    let mut k: usize = 0;
    while k < end
        invariant
            k <= end <= w@.len(),
            out@ == w@.take(k as int),
        decreases end - k,
    {
        out.push(w[k]);
        k = k + 1;
        assert(w@.take(k as int) =~= w@.take(k - 1).push(w@[k - 1]));
    }
    proof {
        assert(w@.take(end as int) =~= out@);
    }
    out
}

/// The words of `s` (maximal runs without white space).
fn split_words(s: &[char]) -> (r: Vec<Vec<char>>)
    ensures
        crate::text::char_views(r@) == words(s@),
{
    let mut out: Vec<Vec<char>> = Vec::new();
    let mut i: usize = 0;
    proof {
        assert(s@.take(0) =~= Seq::<char>::empty());
    }
    while i < s.len()
        invariant
            i <= s@.len(),
            crate::text::char_views(out@) == words(s@.take(i as int)),
        decreases s@.len() - i,
    {
        let c = s[i];
        let ghost before = s@.take(i as int);
        let ghost after = s@.take(i + 1);
        proof {
            assert(after.drop_last() =~= before);
            assert(after.last() == c);
            crate::text::lemma_words(before);
        }
        if char_is_whitespace(c) {
        } else if i > 0 && !char_is_whitespace(s[i - 1]) {
            proof {
                assert(after[after.len() - 2] == s@[i - 1]);
                assert(before.last() == s@[i - 1]);
            }
            let n = out.len();
            let mut last: Vec<char> = Vec::new();
            let mut k: usize = 0;
            while k < out[n - 1].len()
                invariant
                    n == out@.len(),
                    n > 0,
                    k <= out@[n - 1]@.len(),
                    last@ == out@[n - 1]@.take(k as int),
                decreases out@[n - 1]@.len() - k,
            {
                last.push(out[n - 1][k]);
                k = k + 1;
                assert(out@[n - 1]@.take(k as int) =~= out@[n - 1]@.take(k - 1).push(
                    out@[n - 1]@[k - 1],
                ));
            }
            proof {
                assert(out@[n - 1]@.take(k as int) =~= out@[n - 1]@);
            }
            last.push(c);
            let ghost prev = crate::text::char_views(out@);
            out.set(n - 1, last);
            proof {
                assert(crate::text::char_views(out@) =~= prev.update(
                    prev.len() - 1,
                    prev.last().push(c),
                ));
            }
        } else {
            proof {
                if i > 0 {
                    assert(after[after.len() - 2] == s@[i - 1]);
                }
            }
            let mut w: Vec<char> = Vec::new();
            w.push(c);
            let ghost prev = crate::text::char_views(out@);
            out.push(w);
            proof {
                assert(crate::text::char_views(out@) =~= prev.push(seq![c]));
            }
        }
        i = i + 1;
    }
    proof {
        assert(s@.take(s@.len() as int) =~= s@);
    }
    out
}

/// The progress percentages on one line of the recogniser's error output.
pub fn parse_progress(line: &str) -> (r: Vec<i32>)
    ensures
        r@.map_values(|v: i32| v as int) == progress_values(line@),
{
    let cs = chars_of(line);
    let ws = split_words(cs.as_slice());
    let ghost all = crate::text::char_views(ws@);
    let mut out: Vec<i32> = Vec::new();
    let mut i: usize = 0;
    proof {
        assert(all.take(0) =~= Seq::<Seq<char>>::empty());
        assert(out@.map_values(|v: i32| v as int) =~= Seq::<int>::empty());
    }
    while i < ws.len()
        invariant
            i <= ws@.len(),
            all == crate::text::char_views(ws@),
            out@.map_values(|v: i32| v as int) == progress_of_words(all.take(i as int)),
        decreases ws@.len() - i,
    {
        proof {
            assert(all.take(i + 1).drop_last() =~= all.take(i as int));
            assert(all.take(i + 1).last() == ws@[i as int]@);
        }
        let stripped = strip_percent_chars(&ws[i]);
        match parse_i32(stripped.as_slice()) {
            Some(p) => {
                let v = if p <= 100 {
                    p
                } else {
                    100
                };
                let ghost before = out@;
                out.push(v);
                proof {
                    assert(out@.map_values(|v: i32| v as int) =~= before.map_values(
                        |v: i32| v as int,
                    ).push(v as int));
                }
            },
            None => {},
        }
        i = i + 1;
    }
    proof {
        assert(all.take(ws@.len() as int) =~= all);
    }
    out
}

// ---------------------------------------------------------------------------
// Inputs and libraries
// ---------------------------------------------------------------------------

/// The extensions the GPU recogniser reads without conversion.
pub open spec fn direct_formats() -> Seq<Seq<char>> {
    seq!["wav"@, "mp3"@, "flac"@, "ogg"@, "oga"@, "m4a"@, "aac"@]
}

/// Whether a file with this extension goes to the GPU recogniser as it is
/// (the extension compared in lowercase).
pub fn reads_directly(extension: &str) -> (r: bool)
    ensures
        r == direct_formats().contains(str_lowercase(extension@)),
{
    let lower = string_to_lowercase(extension);
    let lc = chars_of(lower.as_str());
    let names = ["wav", "mp3", "flac", "ogg", "oga", "m4a", "aac"];
    let mut i: usize = 0;
    proof {
        reveal_strlit("wav");
    }
    while i < 7
        invariant
            i <= 7,
            lc@ == str_lowercase(extension@),
            names@ == seq!["wav", "mp3", "flac", "ogg", "oga", "m4a", "aac"],
            forall|k: int| 0 <= k < i ==> #[trigger] direct_formats()[k] != lc@,
        decreases 7 - i,
    {
        let name = chars_of(names[i]);
        if chars_eq(name.as_slice(), lc.as_slice()) {
            proof {
                assert(direct_formats()[i as int] == lc@);
            }
            return true;
        }
        i = i + 1;
    }
    false
}

/// Whether a system file name is a CUDA runtime or cuBLAS library
/// (`cudart64_*.dll` or `cublas64_*.dll`, compared in lowercase).
pub open spec fn is_cuda_library_name(lower: Seq<char>) -> bool {
    &&& lower.len() >= 9
    &&& (lower.take(9) == "cudart64_"@ || lower.take(9) == "cublas64_"@)
    &&& lower.skip(lower.len() - 4) == ".dll"@
}

fn has_prefix(s: &[char], p: &[char]) -> (r: bool)
    ensures
        r == (s@.len() >= p@.len() && s@.take(p@.len() as int) == p@),
{
    if s.len() < p.len() {
        return false;
    }
    let mut i: usize = 0;
    while i < p.len()
        invariant
            i <= p@.len() <= s@.len(),
            forall|k: int| 0 <= k < i ==> s@[k] == p@[k],
        decreases p@.len() - i,
    {
        if s[i] != p[i] {
            proof {
                assert(s@.take(p@.len() as int)[i as int] != p@[i as int]);
            }
            return false;
        }
        i = i + 1;
    }
    proof {
        assert(s@.take(p@.len() as int) =~= p@);
    }
    true
}

fn has_suffix(s: &[char], p: &[char]) -> (r: bool)
    ensures
        r == (s@.len() >= p@.len() && s@.skip(s@.len() - p@.len()) == p@),
{
    if s.len() < p.len() {
        return false;
    }
    let sl = s.len();
    let off = sl - p.len();
    let mut i: usize = 0;
    while i < p.len()
        invariant
            i <= p@.len(),
            off + p@.len() == s@.len(),
            sl == s@.len(),
            forall|k: int| 0 <= k < i ==> s@[off + k] == p@[k],
        decreases p@.len() - i,
    {
        assert(off + i < s@.len());
        if s[off + i] != p[i] {
            proof {
                assert(s@.skip(off as int)[i as int] != p@[i as int]);
            }
            return false;
        }
        i = i + 1;
    }
    proof {
        assert(s@.skip(off as int) =~= p@);
    }
    true
}

/// Whether a file in the system directory is a CUDA runtime library.
pub fn is_cuda_runtime_library(file_name: &str) -> (r: bool)
    ensures
        r == is_cuda_library_name(str_lowercase(file_name@)),
{
    let lower = string_to_lowercase(file_name);
    let lc = chars_of(lower.as_str());
    let a = chars_of("cudart64_");
    let b = chars_of("cublas64_");
    let dll = chars_of(".dll");
    proof {
        reveal_strlit("cudart64_");
        reveal_strlit("cublas64_");
        reveal_strlit(".dll");
    }
    let pa = has_prefix(lc.as_slice(), a.as_slice());
    let pb = has_prefix(lc.as_slice(), b.as_slice());
    let sd = has_suffix(lc.as_slice(), dll.as_slice());
    (pa || pb) && sd
}

/// The message for a GPU recogniser that ended with a failure, with its
/// exit code (`-1` when it has none).
pub fn gpu_exit_message(code: Option<i32>) -> (r: String)
    ensures
        r@ == "whisper-cli-gpu 異常終了 (exit: "@ + signed_padded(
            match code {
                Some(c) => c as int,
                None => -1,
            },
            0,
        ) + ")"@,
{
    let c: i32 = match code {
        Some(c) => c,
        None => -1,
    };
    let mut out: Vec<char> = Vec::new();
    push_str(&mut out, "whisper-cli-gpu 異常終了 (exit: ");
    push_signed_padded(&mut out, c as i64, 0);
    push_str(&mut out, ")");
    string_of(out.as_slice())
}

} // verus!
