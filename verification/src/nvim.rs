//! The computing side of one editing session: escaping text for the
//! generated session script, building that script's preamble, reading the
//! telemetry a session leaves behind, and comparing the final buffer against
//! the target under normalization.
//!
//! Launching the external editor and touching the file system stay outside
//! the library; these functions work on plain strings handed in and out.

use vstd::prelude::*;

use crate::challenge::spec_is_freestyle;
use crate::challenge::spec_threshold;
use crate::challenge::Challenge;
use crate::challenge::Grade;
use crate::digits::digits_end;
use crate::digits::digits_to_val;
use crate::digits::is_digit;
use crate::digits::lemma_digits_end;
use crate::digits::scan_u64_digits;
use crate::digits::u64_to_dec_chars;
use crate::digits::dec_digits;
use crate::text::append_str;
use crate::text::append_vec;
use crate::text::chars_to_string;
use crate::text::find_from;
use crate::text::is_line_ws;
use crate::text::lemma_find_from;
use crate::text::lemma_find_from_step;
use crate::text::lemma_rtrim_len;
use crate::text::line_ws_char;
use crate::text::ltrim;
use crate::text::norm_body;
use crate::text::rtrim;
use crate::text::spec_normalize;
use crate::text::str_to_chars;
use crate::text::strip_blank_end;
use crate::text::trim;

verus! {

/// Telemetry of one completed editing session.
#[derive(Clone, Debug)]
pub struct ChallengeResult {
    pub buffer_matches: bool,
    pub keystrokes: u32,
    pub elapsed_secs: u32,
    pub keys: String,
}

/// The escaped form of one character inside a single-quoted script string:
/// backslash, quote, newline and carriage return get a backslash escape.
pub open spec fn lua_esc_char(c: char) -> Seq<char> {
    if c == '\\' {
        seq!['\\', '\\']
    } else if c == '\'' {
        seq!['\\', '\'']
    } else if c == '\n' {
        seq!['\\', 'n']
    } else if c == '\r' {
        seq!['\\', 'r']
    } else {
        seq![c]
    }
}

/// The escaped form of a whole string for a single-quoted script literal.
pub open spec fn spec_escape_lua(s: Seq<char>) -> Seq<char>
    decreases s.len(),
{
    if s.len() == 0 {
        Seq::empty()
    } else {
        spec_escape_lua(s.drop_last()) + lua_esc_char(s.last())
    }
}

/// Escape a string for use in a single-quoted string literal of the session
/// script.
pub fn escape_for_lua_sq(s: &str) -> (r: String)
    ensures
        r@ == spec_escape_lua(s@),
{
    let v = str_to_chars(s);
    let mut out: Vec<char> = Vec::new();
    let mut i: usize = 0;
    while i < v.len()
        invariant
            i <= v@.len(),
            v@ == s@,
            out@ == spec_escape_lua(s@.take(i as int)),
        decreases v@.len() - i,
    {
        let c = v[i];
        if c == '\\' {
            out.push('\\');
            out.push('\\');
        } else if c == '\'' {
            out.push('\\');
            out.push('\'');
        } else if c == '\n' {
            out.push('\\');
            out.push('n');
        } else if c == '\r' {
            out.push('\\');
            out.push('r');
        } else {
            out.push(c);
        }
        proof {
            assert(s@.take(i + 1).drop_last() =~= s@.take(i as int));
            assert(s@.take(i + 1).last() == s@[i as int]);
            assert(out@ =~= spec_escape_lua(s@.take(i as int)) + lua_esc_char(s@[i as int]));
        }
        i += 1;
    }
    proof {
        assert(s@.take(v@.len() as int) =~= s@);
    }
    chars_to_string(&out)
}

/// Normalize content for comparison: trim trailing whitespace from every
/// line and strip trailing blank lines.
pub fn normalize(s: &str) -> (r: String)
    ensures
        r@ == spec_normalize(s@),
{
    let v = str_to_chars(s);
    // Cut the trailing blank region.
    let mut e = v.len();
    proof {
        assert(s@.take(v@.len() as int) =~= s@);
    }
    while e > 0 && (v[e - 1] == ' ' || v[e - 1] == '\t' || v[e - 1] == '\r' || v[e - 1] == '\n')
        invariant
            e <= v@.len(),
            v@ == s@,
            strip_blank_end(s@) == strip_blank_end(s@.take(e as int)),
        decreases e,
    {
        proof {
            let t = s@.take(e as int);
            assert(t.last() == s@[e - 1]);
            assert(t.drop_last() =~= s@.take(e - 1));
        }
        e -= 1;
    }
    proof {
        let t = s@.take(e as int);
        if e > 0 {
            assert(t.last() == s@[e - 1]);
            assert(!is_line_ws(t.last()) && t.last() != '\n');
        }
        assert(strip_blank_end(t) == t);
    }
    // Build the body, removing line whitespace that stands before newlines.
    let mut out: Vec<char> = Vec::new();
    let mut i: usize = 0;
    while i < e
        invariant
            i <= e <= v@.len(),
            v@ == s@,
            out@ == norm_body(s@.take(i as int)),
        decreases e - i,
    {
        let c = v[i];
        let ghost u = s@.take(i + 1);
        proof {
            assert(u.drop_last() =~= s@.take(i as int));
            assert(u.last() == s@[i as int]);
        }
        if c == '\n' {
            while out.len() > 0 && line_ws_char(out[out.len() - 1])
                invariant
                    rtrim(out@) == rtrim(norm_body(s@.take(i as int))),
                decreases out@.len(),
            {
                let ghost pre = out@;
                proof {
                    assert(is_line_ws(pre.last()));
                }
                let _ = out.pop();
                proof {
                    assert(out@ =~= pre.drop_last());
                    assert(rtrim(pre) == rtrim(out@));
                }
            }
            proof {
                if out@.len() > 0 {
                    assert(!is_line_ws(out@.last()));
                }
                assert(rtrim(out@) == out@);
                crate::text::lemma_norm_body_rtrim(s@.take(i as int));
                assert(out@ == norm_body(rtrim(s@.take(i as int))));
                assert(norm_body(u) == norm_body(rtrim(u.drop_last())).push('\n'));
            }
            out.push('\n');
            proof {
                assert(out@ == norm_body(u));
            }
        } else {
            out.push(c);
            proof {
                assert(norm_body(u) == norm_body(u.drop_last()).push(u.last()));
            }
        }
        i += 1;
    }
    proof {
        assert(strip_blank_end(s@) == s@.take(e as int));
    }
    chars_to_string(&out)
}

/// Smallest index of a newline at or after `i`, or the length.
fn find_newline(v: &Vec<char>, i: usize) -> (j: usize)
    requires
        i <= v@.len(),
    ensures
        j == find_from(v@, '\n', i as nat),
        i <= j <= v@.len(),
{
    let mut j = i;
    while j < v.len() && v[j] != '\n'
        invariant
            i <= j <= v@.len(),
            forall|k: int| i <= k < j ==> v@[k] != '\n',
        decreases v@.len() - j,
    {
        j += 1;
    }
    proof {
        lemma_find_from_step(v@, '\n', i as nat, j as nat);
        if j < v@.len() {
            assert(find_from(v@, '\n', j as nat) == j);
        }
    }
    j
}

/// The number a telemetry line denotes: its value if, once trimmed, it is a
/// non-empty run of digits whose value fits, else zero.
pub open spec fn spec_num_or_zero(l: Seq<char>) -> u32 {
    let t = trim(l);
    if t.len() > 0 && (forall|k: int| 0 <= k < t.len() ==> is_digit(t[k])) && digits_to_val(t)
        <= u32::MAX {
        digits_to_val(t) as u32
    } else {
        0
    }
}

/// The first three lines of the results artifact; a missing line reads as
/// empty.
pub open spec fn spec_results_line1(s: Seq<char>) -> Seq<char> {
    s.take(find_from(s, '\n', 0) as int)
}

pub open spec fn spec_results_line2(s: Seq<char>) -> Seq<char> {
    let j1 = find_from(s, '\n', 0);
    if j1 < s.len() {
        s.subrange(j1 as int + 1, find_from(s, '\n', j1 + 1) as int)
    } else {
        Seq::empty()
    }
}

pub open spec fn spec_results_line3(s: Seq<char>) -> Seq<char> {
    let j1 = find_from(s, '\n', 0);
    if j1 < s.len() {
        let j2 = find_from(s, '\n', j1 + 1);
        if j2 < s.len() {
            s.subrange(j2 as int + 1, find_from(s, '\n', j2 + 1) as int)
        } else {
            Seq::empty()
        }
    } else {
        Seq::empty()
    }
}

/// Value of the trimmed span `[a, b)` of `v` if it is all digits and fits in
/// a `u32`, else zero.
fn parse_line_u32(v: &Vec<char>, a: usize, b: usize) -> (r: u32)
    requires
        a <= b <= v@.len(),
        b < v@.len() ==> !is_digit(v@[b as int]) && !is_line_ws(v@[b as int]),
    ensures
        r == spec_num_or_zero(v@.subrange(a as int, b as int)),
{
    let ghost l = v@.subrange(a as int, b as int);
    let mut lo = a;
    while lo < b && line_ws_char(v[lo])
        invariant
            a <= lo <= b,
            b <= v@.len(),
            ltrim(l) == ltrim(v@.subrange(lo as int, b as int)),
        decreases b - lo,
    {
        proof {
            let t = v@.subrange(lo as int, b as int);
            assert(t.len() > 0 && is_line_ws(t[0]));
            assert(t.skip(1) =~= v@.subrange(lo as int + 1, b as int));
        }
        lo += 1;
    }
    proof {
        let t = v@.subrange(lo as int, b as int);
        if lo < b {
            assert(!is_line_ws(t[0]));
        }
        assert(ltrim(t) == t);
        assert(trim(l) == rtrim(v@.subrange(lo as int, b as int)));
    }
    let mut hi = b;
    while hi > lo && line_ws_char(v[hi - 1])
        invariant
            lo <= hi <= b,
            b <= v@.len(),
            rtrim(v@.subrange(lo as int, b as int)) == rtrim(v@.subrange(lo as int, hi as int)),
            forall|k: int| hi <= k < b ==> is_line_ws(v@[k]),
        decreases hi,
    {
        proof {
            let t = v@.subrange(lo as int, hi as int);
            assert(t.last() == v@[hi - 1]);
            assert(t.drop_last() =~= v@.subrange(lo as int, hi as int - 1));
        }
        hi -= 1;
    }
    let ghost t = v@.subrange(lo as int, hi as int);
    proof {
        if hi > lo {
            assert(t.last() == v@[hi - 1]);
            assert(!is_line_ws(t.last()));
        }
        assert(rtrim(t) == t);
        assert(trim(l) == t);
    }
    if lo == hi {
        return 0;
    }
    let (opt, end) = scan_u64_digits(v, lo);
    proof {
        lemma_digits_end(v@, lo as nat);
        // The character at `hi` (if any) is not a digit: it is either trimmed
        // whitespace, the line terminator at `b`, or past the end.
        if hi < b {
            assert(is_line_ws(v@[hi as int]) || hi == b);
        }
        if (hi as nat) < v@.len() {
            assert(!is_digit(v@[hi as int]));
        }
    }
    if end == hi {
        proof {
            assert(forall|k: int| lo <= k < hi ==> is_digit(v@[k]));
            assert(forall|k: int| 0 <= k < t.len() ==> is_digit(t[k]));
        }
        match opt {
            Some(x) => {
                proof {
                    assert(v@.subrange(lo as int, end as int) == t);
                }
                if x <= u32::MAX as u64 {
                    x as u32
                } else {
                    0
                }
            },
            None => {
                proof {
                    assert(v@.subrange(lo as int, end as int) == t);
                    assert(digits_to_val(t) > u32::MAX);
                }
                0
            },
        }
    } else {
        proof {
            let de = digits_end(v@, lo as nat);
            if de < hi {
                assert(!is_digit(v@[de as int]));
                assert(t[de - lo] == v@[de as int]);
                assert(!(forall|k: int| 0 <= k < t.len() ==> is_digit(t[k])));
            } else {
                assert(de > hi);
                assert(is_digit(v@[hi as int]));
                assert(false);
            }
        }
        0
    }
}

/// Read keystroke count, elapsed seconds, and key log from the contents of a
/// results artifact. The format is three lines in order: keystroke count,
/// elapsed seconds, raw key presses. A missing or malformed line reads as
/// zero or empty rather than failing.
pub fn parse_results(contents: &str) -> (r: (u32, u32, String))
    ensures
        r.0 == spec_num_or_zero(spec_results_line1(contents@)),
        r.1 == spec_num_or_zero(spec_results_line2(contents@)),
        r.2@ == spec_results_line3(contents@),
{
    let v = str_to_chars(contents);
    let n = v.len();
    let j1 = find_newline(&v, 0);
    proof {
        lemma_find_from(v@, '\n', 0);
        assert(v@.subrange(0, j1 as int) =~= v@.take(j1 as int));
        if j1 < n {
            assert(v@[j1 as int] == '\n');
        }
    }
    let keystrokes = parse_line_u32(&v, 0, j1);
    let mut elapsed: u32 = 0;
    let mut keys: String = String::new();
    if j1 < n {
        let j2 = find_newline(&v, j1 + 1);
        proof {
            lemma_find_from(v@, '\n', j1 as nat + 1);
            if j2 < n {
                assert(v@[j2 as int] == '\n');
            }
        }
        elapsed = parse_line_u32(&v, j1 + 1, j2);
        if j2 < n {
            let j3 = find_newline(&v, j2 + 1);
            let mut line: Vec<char> = Vec::new();
            let mut k = j2 + 1;
            while k < j3
                invariant
                    j2 + 1 <= k <= j3 <= v@.len(),
                    line@ == v@.subrange(j2 as int + 1, k as int),
                decreases j3 - k,
            {
                line.push(v[k]);
                proof {
                    assert(line@ =~= v@.subrange(j2 as int + 1, k as int + 1));
                }
                k += 1;
            }
            keys = chars_to_string(&line);
        }
    }
    (keystrokes, elapsed, keys)
}

/// Gather one session's outcome from the final buffer, the target content
/// and the (possibly empty or partial) results artifact contents: the buffer
/// matches when its normalized form equals the target's.
pub fn collect_result(final_buffer: &str, target: &str, results: &str) -> (r: ChallengeResult)
    ensures
        r.buffer_matches == (spec_normalize(final_buffer@) == spec_normalize(target@)),
        r.keystrokes == spec_num_or_zero(spec_results_line1(results@)),
        r.elapsed_secs == spec_num_or_zero(spec_results_line2(results@)),
        r.keys@ == spec_results_line3(results@),
{
    let a = normalize(final_buffer);
    let b = normalize(target);
    let (keystrokes, elapsed_secs, keys) = parse_results(results);
    ChallengeResult { buffer_matches: a == b, keystrokes, elapsed_secs, keys }
}


/// The full session script: variable definitions injected ahead of the fixed
/// runtime template. Every embedded string value is escaped for the script's
/// single-quoted literals.
pub open spec fn spec_lua_script(
    c: Challenge,
    number: nat,
    limit: u32,
    freestyle: bool,
    results_path: Seq<char>,
    target_path: Seq<char>,
    start_path: Seq<char>,
    template: Seq<char>,
) -> Seq<char> {
    "_VK_NUMBER = "@ + dec_digits(number) + "\n_VK_TITLE = '"@ + spec_escape_lua(c.title@)
        + "'\n_VK_PAR = "@ + dec_digits(c.par_keystrokes as nat) + "\n_VK_HINT = '"@
        + spec_escape_lua(c.hint@) + "'\n_VK_DETAILED_HINT = '"@ + (match c.detailed_hint {
        Some(d) => spec_escape_lua(d@),
        None => Seq::empty(),
    }) + "'\n_VK_LIMIT = "@ + dec_digits(limit as nat) + "\n_VK_FREESTYLE = "@ + (if freestyle {
        "true"@
    } else {
        "false"@
    }) + "\n_VK_RESULTS_PATH = '"@ + spec_escape_lua(results_path) + "'\n_VK_TARGET_PATH = '"@
        + spec_escape_lua(target_path) + "'\n_VK_START_PATH = '"@ + spec_escape_lua(start_path)
        + "'\n_VK_THRESHOLD_A = "@ + dec_digits(spec_threshold(c.par_keystrokes, Grade::A) as nat)
        + "\n_VK_THRESHOLD_B = "@ + dec_digits(spec_threshold(c.par_keystrokes, Grade::B) as nat)
        + "\n_VK_THRESHOLD_C = "@ + dec_digits(spec_threshold(c.par_keystrokes, Grade::C) as nat)
        + "\n_VK_THRESHOLD_D = "@ + dec_digits(spec_threshold(c.par_keystrokes, Grade::D) as nat)
        + "\n_VK_THRESHOLD_E = "@ + dec_digits(spec_threshold(c.par_keystrokes, Grade::E) as nat)
        + "\n_VK_THRESHOLD_F = "@ + dec_digits(spec_threshold(c.par_keystrokes, Grade::F) as nat)
        + "\n\n"@ + template
}

/// Build the full session script by prepending variable definitions to the
/// runtime template: session number, title, par, hints, keystroke limit,
/// freestyle flag, the three workspace file paths and the six grading
/// thresholds.
pub fn build_lua_script(
    challenge: &Challenge,
    number: usize,
    limit: u32,
    freestyle: bool,
    results_path: &str,
    target_path: &str,
    start_path: &str,
    template: &str,
) -> (r: String)
    requires
        challenge.par_keystrokes * 32 <= u32::MAX,
    ensures
        r@ == spec_lua_script(
            *challenge,
            number as nat,
            limit,
            freestyle,
            results_path@,
            target_path@,
            start_path@,
            template@,
        ),
{
    let mut out: Vec<char> = Vec::new();
    append_str(&mut out, "_VK_NUMBER = ");
    proof {
        assert(out@ =~= "_VK_NUMBER = "@);
    }
    let num = u64_to_dec_chars(number as u64);
    append_vec(&mut out, &num);
    append_str(&mut out, "\n_VK_TITLE = '");
    let title = escape_for_lua_sq(challenge.title.as_str());
    append_str(&mut out, title.as_str());
    append_str(&mut out, "'\n_VK_PAR = ");
    let par = u64_to_dec_chars(challenge.par_keystrokes as u64);
    append_vec(&mut out, &par);
    append_str(&mut out, "\n_VK_HINT = '");
    let hint = escape_for_lua_sq(challenge.hint.as_str());
    append_str(&mut out, hint.as_str());
    append_str(&mut out, "'\n_VK_DETAILED_HINT = '");
    match &challenge.detailed_hint {
        Some(d) => {
            let dh = escape_for_lua_sq(d.as_str());
            append_str(&mut out, dh.as_str());
        },
        None => {},
    }
    append_str(&mut out, "'\n_VK_LIMIT = ");
    let lim = u64_to_dec_chars(limit as u64);
    append_vec(&mut out, &lim);
    append_str(&mut out, "\n_VK_FREESTYLE = ");
    if freestyle {
        append_str(&mut out, "true");
    } else {
        append_str(&mut out, "false");
    }
    append_str(&mut out, "\n_VK_RESULTS_PATH = '");
    let rp = escape_for_lua_sq(results_path);
    append_str(&mut out, rp.as_str());
    append_str(&mut out, "'\n_VK_TARGET_PATH = '");
    let tp = escape_for_lua_sq(target_path);
    append_str(&mut out, tp.as_str());
    append_str(&mut out, "'\n_VK_START_PATH = '");
    let sp = escape_for_lua_sq(start_path);
    append_str(&mut out, sp.as_str());
    append_str(&mut out, "'\n_VK_THRESHOLD_A = ");
    let ta = u64_to_dec_chars(challenge.threshold(Grade::A) as u64);
    append_vec(&mut out, &ta);
    append_str(&mut out, "\n_VK_THRESHOLD_B = ");
    let tb = u64_to_dec_chars(challenge.threshold(Grade::B) as u64);
    append_vec(&mut out, &tb);
    append_str(&mut out, "\n_VK_THRESHOLD_C = ");
    let tc = u64_to_dec_chars(challenge.threshold(Grade::C) as u64);
    append_vec(&mut out, &tc);
    append_str(&mut out, "\n_VK_THRESHOLD_D = ");
    let td = u64_to_dec_chars(challenge.threshold(Grade::D) as u64);
    append_vec(&mut out, &td);
    append_str(&mut out, "\n_VK_THRESHOLD_E = ");
    let te = u64_to_dec_chars(challenge.threshold(Grade::E) as u64);
    append_vec(&mut out, &te);
    append_str(&mut out, "\n_VK_THRESHOLD_F = ");
    let tf = u64_to_dec_chars(challenge.threshold(Grade::F) as u64);
    append_vec(&mut out, &tf);
    append_str(&mut out, "\n\n");
    append_str(&mut out, template);
    chars_to_string(&out)
}

/// Keystroke limit shown inside a session: a fixed large bound for freestyle
/// challenges, the worst-rank threshold otherwise.
pub fn session_limit(challenge: &Challenge) -> (r: u32)
    requires
        spec_is_freestyle(*challenge) || challenge.par_keystrokes * 32 <= u32::MAX,
    ensures
        r == if spec_is_freestyle(*challenge) {
            9999int
        } else {
            spec_threshold(challenge.par_keystrokes, Grade::F)
        },
{
    if challenge.is_freestyle() {
        9999
    } else {
        challenge.threshold(Grade::F)
    }
}

} // verus!

