//! Character-sequence helpers shared by the keystroke counter, the buffer
//! normalizer and the telemetry reader: searching for a character, trimming
//! whitespace, and normalizing buffer text for comparison.
//!
//! Normalization removes the trailing whitespace of every line and strips
//! trailing blank lines, so that buffers that differ only in such noise
//! compare equal.

use vstd::prelude::*;

verus! {

/// Relies on `String::push`: appends one character at the end of the string.
pub assume_specification[ String::push ](s: &mut String, c: char)
    ensures
        final(s)@ == old(s)@.push(c),
;

/// Whitespace that may be trimmed from the edge of a line: space, tab and
/// carriage return.
pub open spec fn is_line_ws(c: char) -> bool {
    c == ' ' || c == '\t' || c == '\r'
}

/// Smallest index `j` with `i <= j < s.len()` and `s[j] == c`, or `s.len()`
/// if no such index exists.
pub open spec fn find_from(s: Seq<char>, c: char, i: nat) -> nat
    decreases s.len() - i,
{
    if i >= s.len() {
        s.len()
    } else if s[i as int] == c {
        i
    } else {
        find_from(s, c, i + 1)
    }
}

pub proof fn lemma_find_from(s: Seq<char>, c: char, i: nat)
    requires
        i <= s.len(),
    ensures
        i <= find_from(s, c, i) <= s.len(),
        find_from(s, c, i) < s.len() ==> s[find_from(s, c, i) as int] == c,
        forall|k: int| i <= k < find_from(s, c, i) ==> s[k] != c,
    decreases s.len() - i,
{
    if i < s.len() && s[i as int] != c {
        lemma_find_from(s, c, i + 1);
    }
}

/// Starting the search anywhere inside a stretch free of `c` finds the same
/// occurrence.
pub proof fn lemma_find_from_step(s: Seq<char>, c: char, i: nat, j: nat)
    requires
        i <= j <= s.len(),
        forall|k: int| i <= k < j ==> s[k] != c,
    ensures
        find_from(s, c, i) == find_from(s, c, j),
    decreases j - i,
{
    if i < j {
        lemma_find_from_step(s, c, i + 1, j);
    }
}

/// `l` without its trailing line whitespace.
pub open spec fn rtrim(l: Seq<char>) -> Seq<char>
    decreases l.len(),
{
    if l.len() > 0 && is_line_ws(l.last()) {
        rtrim(l.drop_last())
    } else {
        l
    }
}

/// `l` without its leading line whitespace.
pub open spec fn ltrim(l: Seq<char>) -> Seq<char>
    decreases l.len(),
{
    if l.len() > 0 && is_line_ws(l[0]) {
        ltrim(l.skip(1))
    } else {
        l
    }
}

/// `l` without leading and trailing line whitespace.
pub open spec fn trim(l: Seq<char>) -> Seq<char> {
    rtrim(ltrim(l))
}

pub proof fn lemma_rtrim_len(l: Seq<char>)
    ensures
        rtrim(l).len() <= l.len(),
        rtrim(l).len() > 0 ==> !is_line_ws(rtrim(l).last()),
        forall|k: int| 0 <= k < rtrim(l).len() ==> rtrim(l)[k] == l[k],
    decreases l.len(),
{
    if l.len() > 0 && is_line_ws(l.last()) {
        lemma_rtrim_len(l.drop_last());
        assert forall|k: int| 0 <= k < rtrim(l).len() implies rtrim(l)[k] == l[k] by {
            assert(rtrim(l) == rtrim(l.drop_last()));
            assert(rtrim(l.drop_last())[k] == l.drop_last()[k]);
        }
    }
}

/// Appending line whitespace does not change the trimmed value.
pub proof fn lemma_rtrim_push_ws(l: Seq<char>, c: char)
    requires
        is_line_ws(c),
    ensures
        rtrim(l.push(c)) == rtrim(l),
{
    assert(l.push(c).drop_last() =~= l);
}

/// `s` without its trailing blank region: trailing line whitespace and
/// trailing newlines are removed, so the result is empty or ends on a solid
/// character.
pub open spec fn strip_blank_end(s: Seq<char>) -> Seq<char>
    decreases s.len(),
{
    if s.len() > 0 && (is_line_ws(s.last()) || s.last() == '\n') {
        strip_blank_end(s.drop_last())
    } else {
        s
    }
}

proof fn lemma_strip_blank_end_props(s: Seq<char>)
    ensures
        strip_blank_end(s).len() > 0 ==> !is_line_ws(strip_blank_end(s).last())
            && strip_blank_end(s).last() != '\n',
    decreases s.len(),
{
    if s.len() > 0 && (is_line_ws(s.last()) || s.last() == '\n') {
        lemma_strip_blank_end_props(s.drop_last());
    }
}

/// The body of normalization, on text already free of a trailing blank
/// region: remove the line whitespace that stands right before each newline,
/// keep everything else.
pub open spec fn norm_body(s: Seq<char>) -> Seq<char>
    decreases s.len(),
    via norm_body_decreases
{
    if s.len() == 0 {
        Seq::empty()
    } else if s.last() == '\n' {
        norm_body(rtrim(s.drop_last())).push('\n')
    } else {
        norm_body(s.drop_last()).push(s.last())
    }
}

#[via_fn]
proof fn norm_body_decreases(s: Seq<char>) {
    if s.len() > 0 && s.last() == '\n' {
        lemma_rtrim_len(s.drop_last());
    }
}

/// Trimming before or after normalizing the body comes to the same.
pub proof fn lemma_norm_body_rtrim(u: Seq<char>)
    ensures
        norm_body(rtrim(u)) == rtrim(norm_body(u)),
    decreases u.len(),
{
    if u.len() > 0 && is_line_ws(u.last()) {
        lemma_norm_body_rtrim(u.drop_last());
        assert(norm_body(u) == norm_body(u.drop_last()).push(u.last()));
        lemma_rtrim_push_ws(norm_body(u.drop_last()), u.last());
    } else {
        assert(rtrim(u) == u);
        if u.len() > 0 {
            lemma_norm_body_last(u);
            assert(!is_line_ws(norm_body(u).last()));
            assert(rtrim(norm_body(u)) == norm_body(u));
        } else {
            assert(norm_body(u) =~= Seq::<char>::empty());
            assert(rtrim(norm_body(u)) == norm_body(u));
        }
    }
}

/// Is `c` line whitespace?
pub fn line_ws_char(c: char) -> (r: bool)
    ensures
        r == is_line_ws(c),
{
    c == ' ' || c == '\t' || c == '\r'
}

/// Normalized form of buffer text: every line loses its trailing whitespace
/// and trailing blank lines are dropped, so a buffer saved without a final
/// newline or with trailing-space noise compares equal to one without.
pub open spec fn spec_normalize(s: Seq<char>) -> Seq<char> {
    norm_body(strip_blank_end(s))
}

/// No line whitespace stands right before a newline anywhere in `s`.
pub open spec fn ws_clean(s: Seq<char>) -> bool {
    forall|k: int| 0 < k < s.len() && #[trigger] s[k] == '\n' ==> !is_line_ws(s[k - 1])
}

proof fn lemma_norm_body_last(s: Seq<char>)
    requires
        s.len() > 0,
    ensures
        norm_body(s).len() > 0,
        norm_body(s).last() == s.last(),
{
}

proof fn lemma_norm_body_clean(s: Seq<char>)
    ensures
        ws_clean(norm_body(s)),
        norm_body(s).len() > 0 ==> norm_body(s).last() == s.last(),
    decreases s.len(),
{
    if s.len() == 0 {
    } else if s.last() == '\n' {
        let t = rtrim(s.drop_last());
        lemma_rtrim_len(s.drop_last());
        lemma_norm_body_clean(t);
        if t.len() > 0 {
            lemma_norm_body_last(t);
        }
        assert(ws_clean(norm_body(t).push('\n')));
    } else {
        lemma_norm_body_clean(s.drop_last());
        assert(ws_clean(norm_body(s.drop_last()).push(s.last())));
    }
}

proof fn lemma_norm_body_of_clean(s: Seq<char>)
    requires
        ws_clean(s),
    ensures
        norm_body(s) == s,
    decreases s.len(),
{
    if s.len() == 0 {
        assert(norm_body(s) =~= s);
    } else if s.last() == '\n' {
        let p = s.drop_last();
        assert(p.len() > 0 ==> !is_line_ws(p.last()));
        assert(rtrim(p) == p);
        assert(ws_clean(p));
        lemma_norm_body_of_clean(p);
        assert(norm_body(s) =~= s);
    } else {
        assert(ws_clean(s.drop_last()));
        lemma_norm_body_of_clean(s.drop_last());
        assert(norm_body(s) =~= s);
    }
}

/// Normalization is idempotent: normalizing a second time changes nothing.
pub proof fn lemma_normalize_idempotent(s: Seq<char>)
    ensures
        spec_normalize(spec_normalize(s)) == spec_normalize(s),
{
    let t = strip_blank_end(s);
    let o = norm_body(t);
    lemma_norm_body_clean(t);
    lemma_strip_blank_end_props(s);
    if o.len() > 0 {
        assert(t.len() > 0);
        assert(!is_line_ws(t.last()) && t.last() != '\n');
        assert(!is_line_ws(o.last()) && o.last() != '\n');
    }
    assert(strip_blank_end(o) == o);
    lemma_norm_body_of_clean(o);
}

/// Character-wise string equality.
pub fn str_eq(a: &str, b: &str) -> (r: bool)
    ensures
        r == (a@ == b@),
{
    let n = a.unicode_len();
    let m = b.unicode_len();
    if n != m {
        return false;
    }
    let mut i: usize = 0;
    while i < n
        invariant
            i <= n,
            n == a@.len(),
            n == b@.len(),
            forall|k: int| 0 <= k < i ==> a@[k] == b@[k],
        decreases n - i,
    {
        if a.get_char(i) != b.get_char(i) {
            return false;
        }
        i += 1;
    }
    proof {
        assert(a@ =~= b@);
    }
    true
}

/// Append the characters of `s` at the end of `out`.
pub fn append_str(out: &mut Vec<char>, s: &str)
    ensures
        final(out)@ == old(out)@ + s@,
{
    let n = s.unicode_len();
    let mut i: usize = 0;
    proof {
        assert(out@ =~= out@ + s@.take(0));
    }
    while i < n
        invariant
            i <= n,
            n == s@.len(),
            out@ == old(out)@ + s@.take(i as int),
        decreases n - i,
    {
        out.push(s.get_char(i));
        proof {
            assert(old(out)@ + s@.take(i as int + 1) =~= (old(out)@ + s@.take(i as int)).push(
                s@[i as int],
            ));
        }
        i += 1;
    }
    proof {
        assert(s@.take(n as int) =~= s@);
    }
}

/// Append the characters of `v` at the end of `out`.
pub fn append_vec(out: &mut Vec<char>, v: &Vec<char>)
    ensures
        final(out)@ == old(out)@ + v@,
{
    let mut i: usize = 0;
    proof {
        assert(out@ =~= out@ + v@.take(0));
    }
    while i < v.len()
        invariant
            i <= v@.len(),
            out@ == old(out)@ + v@.take(i as int),
        decreases v@.len() - i,
    {
        out.push(v[i]);
        proof {
            assert(old(out)@ + v@.take(i as int + 1) =~= (old(out)@ + v@.take(i as int)).push(
                v@[i as int],
            ));
        }
        i += 1;
    }
    proof {
        assert(v@.take(v@.len() as int) =~= v@);
    }
}
/// The characters of `s`, one per entry.
pub fn str_to_chars(s: &str) -> (v: Vec<char>)
    ensures
        v@ == s@,
{
    let n = s.unicode_len();
    let mut v: Vec<char> = Vec::new();
    let mut i: usize = 0;
    while i < n
        invariant
            i <= n,
            n == s@.len(),
            v@ == s@.take(i as int),
        decreases n - i,
    {
        v.push(s.get_char(i));
        proof {
            assert(v@ =~= s@.take(i as int + 1));
        }
        i += 1;
    }
    proof {
        assert(s@.take(n as int) =~= s@);
    }
    v
}

/// A string holding exactly the characters of `v`.
pub fn chars_to_string(v: &Vec<char>) -> (s: String)
    ensures
        s@ == v@,
{
    let mut s = String::new();
    let mut i: usize = 0;
    while i < v.len()
        invariant
            i <= v.len(),
            s@ == v@.take(i as int),
        decreases v.len() - i,
    {
        s.push(v[i]);
        proof {
            assert(s@ =~= v@.take(i as int + 1));
        }
        i += 1;
    }
    proof {
        assert(v@.take(v.len() as int) =~= v@);
    }
    s
}

} // verus!
