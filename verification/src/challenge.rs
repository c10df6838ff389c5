//! Challenge definitions and the grading engine.
//!
//! A challenge pairs a start buffer with a target buffer and carries a par
//! keystroke count. A finished attempt is graded on one of six ranks, `A`
//! (best) through `F` (worst), by comparing its keystroke count against
//! thresholds derived from par with exact integer arithmetic: rank `A` up to
//! `par`, `B` up to `par * 14 / 10`, `C` up to `par * 18 / 10`, `D` up to
//! `par * 24 / 10`, `E` up to `par * 28 / 10`, and `F` above that. Ties go to
//! the better rank.

use vstd::prelude::*;

use vstd::arithmetic::div_mod::lemma_div_is_ordered;
use vstd::arithmetic::div_mod::lemma_div_multiples_vanish;
use vstd::arithmetic::div_mod::lemma_fundamental_div_mod;
use vstd::arithmetic::div_mod::lemma_mod_bound;

use crate::text::find_from;
use crate::text::lemma_find_from;
use crate::text::lemma_find_from_step;

verus! {

/// One of the six ranks an attempt can earn, best to worst.
#[derive(Clone, Copy, Debug, PartialEq, Eq, Hash, Structural)]
pub enum Grade {
    A,
    B,
    C,
    D,
    E,
    F,
}

/// Legacy four-rank outcome used by older save files; decoded into [`Grade`]
/// when such a file is loaded.
#[derive(Clone, Copy, Debug, PartialEq, Eq, Hash, Structural)]
pub enum Medal {
    Perfect,
    Gold,
    Silver,
    Bronze,
}

/// Position of a grade in the best-to-worst order: `A` is 0, `F` is 5.
pub open spec fn spec_grade_rank(g: Grade) -> int {
    match g {
        Grade::A => 0,
        Grade::B => 1,
        Grade::C => 2,
        Grade::D => 3,
        Grade::E => 4,
        Grade::F => 5,
    }
}

/// The grade a legacy medal maps to: the four old ranks are the four best
/// current ranks, in order.
pub open spec fn spec_medal_to_grade(m: Medal) -> Grade {
    match m {
        Medal::Perfect => Grade::A,
        Medal::Gold => Grade::B,
        Medal::Silver => Grade::C,
        Medal::Bronze => Grade::D,
    }
}

impl Medal {
    /// One-letter display tag for a legacy medal.
    pub fn display_char(self) -> (r: &'static str)
        ensures
            r@ == match self {
                Medal::Perfect => "P"@,
                Medal::Gold => "G"@,
                Medal::Silver => "S"@,
                Medal::Bronze => "B"@,
            },
    {
        match self {
            Medal::Perfect => "P",
            Medal::Gold => "G",
            Medal::Silver => "S",
            Medal::Bronze => "B",
        }
    }

    /// The current grade this legacy medal stands for.
    pub fn to_grade(self) -> (g: Grade)
        ensures
            g == spec_medal_to_grade(self),
    {
        match self {
            Medal::Perfect => Grade::A,
            Medal::Gold => Grade::B,
            Medal::Silver => Grade::C,
            Medal::Bronze => Grade::D,
        }
    }
}

impl Grade {
    /// One-letter display tag for a grade.
    pub fn display_char(self) -> (r: &'static str)
        ensures
            r@ == match self {
                Grade::A => "A"@,
                Grade::B => "B"@,
                Grade::C => "C"@,
                Grade::D => "D"@,
                Grade::E => "E"@,
                Grade::F => "F"@,
            },
    {
        match self {
            Grade::A => "A",
            Grade::B => "B",
            Grade::C => "C",
            Grade::D => "D",
            Grade::E => "E",
            Grade::F => "F",
        }
    }
}

/// Progression tier a topic belongs to, derived from its numeric id.
#[derive(Clone, Copy, Debug, PartialEq, Eq, Hash, Structural)]
pub enum Category {
    Beginner,
    Intermediate,
    Advanced,
    Legendary,
    Freestyle,
}

/// Category of a topic id: 1-2 beginner, 3-4 intermediate, 5-7 advanced,
/// 100-107 freestyle, anything else legendary.
pub open spec fn spec_category_for_topic(id: u8) -> Category {
    if id == 1 || id == 2 {
        Category::Beginner
    } else if id == 3 || id == 4 {
        Category::Intermediate
    } else if 5 <= id && id <= 7 {
        Category::Advanced
    } else if 100 <= id && id <= 107 {
        Category::Freestyle
    } else {
        Category::Legendary
    }
}

impl Category {
    /// All categories, in progression order with freestyle last.
    pub fn all() -> (r: [Category; 5])
        ensures
            r@ == seq![
                Category::Beginner,
                Category::Intermediate,
                Category::Advanced,
                Category::Legendary,
                Category::Freestyle,
            ],
    {
        let r = [
            Category::Beginner,
            Category::Intermediate,
            Category::Advanced,
            Category::Legendary,
            Category::Freestyle,
        ];
        proof {
            assert(r@ =~= seq![
                Category::Beginner,
                Category::Intermediate,
                Category::Advanced,
                Category::Legendary,
                Category::Freestyle,
            ]);
        }
        r
    }

    /// The category a topic id falls under.
    pub fn for_topic(id: u8) -> (r: Category)
        ensures
            r == spec_category_for_topic(id),
    {
        if id == 1 || id == 2 {
            Category::Beginner
        } else if id == 3 || id == 4 {
            Category::Intermediate
        } else if 5 <= id && id <= 7 {
            Category::Advanced
        } else if 100 <= id && id <= 107 {
            Category::Freestyle
        } else {
            Category::Legendary
        }
    }

    /// Upper-case display name of the category.
    pub fn name(self) -> (r: &'static str)
        ensures
            r@ == match self {
                Category::Beginner => "BEGINNER"@,
                Category::Intermediate => "INTERMEDIATE"@,
                Category::Advanced => "ADVANCED"@,
                Category::Legendary => "LEGENDARY"@,
                Category::Freestyle => "FREESTYLE"@,
            },
    {
        match self {
            Category::Beginner => "BEGINNER",
            Category::Intermediate => "INTERMEDIATE",
            Category::Advanced => "ADVANCED",
            Category::Legendary => "LEGENDARY",
            Category::Freestyle => "FREESTYLE",
        }
    }
}

/// Plain text contents of a buffer.
#[derive(Clone, Debug)]
pub struct BufferContent {
    pub content: String,
}

/// An immutable challenge definition: identity, authored metadata, par, and
/// the start and target buffers.
#[derive(Clone, Debug)]
pub struct Challenge {
    pub id: String,
    pub version: String,
    pub title: String,
    pub topic: String,
    pub difficulty: u8,
    pub hint: String,
    pub detailed_hint: Option<String>,
    pub par_keystrokes: u32,
    pub perfect_moves: Option<Vec<String>>,
    pub focused_actions: Option<Vec<String>>,
    pub start: BufferContent,
    pub target: BufferContent,
}

/// Keystroke threshold of a grade for a given par: the largest keystroke
/// count that still earns the grade (the `F` value is the display bound above
/// which an attempt would still be `F`).
pub open spec fn spec_threshold(par: u32, g: Grade) -> int {
    match g {
        Grade::A => par as int,
        Grade::B => par * 14 / 10,
        Grade::C => par * 18 / 10,
        Grade::D => par * 24 / 10,
        Grade::E => par * 28 / 10,
        Grade::F => par * 32 / 10,
    }
}

/// The grade earned by `keystrokes` against `par`: the best grade whose
/// threshold is not exceeded, `F` if every threshold is exceeded.
pub open spec fn spec_score(par: u32, keystrokes: int) -> Grade {
    if keystrokes <= spec_threshold(par, Grade::A) {
        Grade::A
    } else if keystrokes <= spec_threshold(par, Grade::B) {
        Grade::B
    } else if keystrokes <= spec_threshold(par, Grade::C) {
        Grade::C
    } else if keystrokes <= spec_threshold(par, Grade::D) {
        Grade::D
    } else if keystrokes <= spec_threshold(par, Grade::E) {
        Grade::E
    } else {
        Grade::F
    }
}

/// Whether a challenge is freestyle: no par and no reference solution to
/// derive one from.
pub open spec fn spec_is_freestyle(c: Challenge) -> bool {
    c.par_keystrokes == 0 && c.perfect_moves is None
}

impl Challenge {
    /// Returns true if this is a freestyle challenge (no par, no
    /// `perfect_moves`).
    pub fn is_freestyle(&self) -> (r: bool)
        ensures
            r == spec_is_freestyle(*self),
    {
        self.par_keystrokes == 0 && self.perfect_moves.is_none()
    }

    /// Grade a completed challenge by its keystroke count against par.
    pub fn score(&self, keystrokes: u32) -> (g: Grade)
        ensures
            g == spec_score(self.par_keystrokes, keystrokes as int),
    {
        let par = self.par_keystrokes as u64;
        let k = keystrokes as u64;
        if k <= par {
            Grade::A
        } else if k <= par * 14 / 10 {
            Grade::B
        } else if k <= par * 18 / 10 {
            Grade::C
        } else if k <= par * 24 / 10 {
            Grade::D
        } else if k <= par * 28 / 10 {
            Grade::E
        } else {
            Grade::F
        }
    }

    /// The largest keystroke count that still earns `grade` for this
    /// challenge's par.
    pub fn threshold(&self, grade: Grade) -> (r: u32)
        requires
            self.par_keystrokes * 32 <= u32::MAX,
        ensures
            r == spec_threshold(self.par_keystrokes, grade),
    {
        let par = self.par_keystrokes;
        match grade {
            Grade::A => par,
            Grade::B => par * 14 / 10,
            Grade::C => par * 18 / 10,
            Grade::D => par * 24 / 10,
            Grade::E => par * 28 / 10,
            Grade::F => par * 32 / 10,
        }
    }
}

/// `a / 10` sits between `(a - 9) / 10` and `a / 10` exactly:
/// `10 * (a / 10) <= a < 10 * (a / 10) + 10` for `a >= 0`.
proof fn lemma_div10_bounds(a: int)
    requires
        0 <= a,
    ensures
        10 * (a / 10) <= a < 10 * (a / 10) + 10,
{
    lemma_fundamental_div_mod(a, 10);
    lemma_mod_bound(a, 10);
}

/// Thresholds never decrease from better to worse grade, for every par.
pub proof fn lemma_thresholds_ordered(par: u32)
    ensures
        spec_threshold(par, Grade::A) <= spec_threshold(par, Grade::B),
        spec_threshold(par, Grade::B) <= spec_threshold(par, Grade::C),
        spec_threshold(par, Grade::C) <= spec_threshold(par, Grade::D),
        spec_threshold(par, Grade::D) <= spec_threshold(par, Grade::E),
        spec_threshold(par, Grade::E) <= spec_threshold(par, Grade::F),
{
    let p = par as int;
    lemma_div_multiples_vanish(p, 10);
    assert((10 * p) / 10 == p);
    lemma_div_is_ordered(10 * p, p * 14, 10);
    lemma_div_is_ordered(p * 14, p * 18, 10);
    lemma_div_is_ordered(p * 18, p * 24, 10);
    lemma_div_is_ordered(p * 24, p * 28, 10);
    lemma_div_is_ordered(p * 28, p * 32, 10);
}

/// For `par >= 3` the six thresholds are strictly increasing, so each grade
/// owns a non-empty keystroke range of its own.
pub proof fn lemma_thresholds_strict(par: u32)
    requires
        3 <= par,
    ensures
        spec_threshold(par, Grade::A) < spec_threshold(par, Grade::B),
        spec_threshold(par, Grade::B) < spec_threshold(par, Grade::C),
        spec_threshold(par, Grade::C) < spec_threshold(par, Grade::D),
        spec_threshold(par, Grade::D) < spec_threshold(par, Grade::E),
        spec_threshold(par, Grade::E) < spec_threshold(par, Grade::F),
{
    let p = par as int;
    let tb = p * 14 / 10;
    let tc = p * 18 / 10;
    let td = p * 24 / 10;
    let te = p * 28 / 10;
    lemma_div_multiples_vanish(p + 1, 10);
    lemma_div_is_ordered(10 * (p + 1), p * 14, 10);
    lemma_div10_bounds(p * 14);
    lemma_div_multiples_vanish(tb + 1, 10);
    lemma_div_is_ordered(10 * (tb + 1), p * 18, 10);
    lemma_div10_bounds(p * 18);
    lemma_div_multiples_vanish(tc + 1, 10);
    lemma_div_is_ordered(10 * (tc + 1), p * 24, 10);
    lemma_div10_bounds(p * 24);
    lemma_div_multiples_vanish(td + 1, 10);
    lemma_div_is_ordered(10 * (td + 1), p * 28, 10);
    lemma_div10_bounds(p * 28);
    lemma_div_multiples_vanish(te + 1, 10);
    lemma_div_is_ordered(10 * (te + 1), p * 32, 10);
}

/// Grading is monotone: fewer keystrokes never earn a worse grade. For all
/// `k1 < k2`, the rank of `score(par, k1)` is at least as good (as small) as
/// the rank of `score(par, k2)`.
pub proof fn lemma_grading_monotonic(par: u32, k1: int, k2: int)
    requires
        k1 < k2,
    ensures
        spec_grade_rank(spec_score(par, k1)) <= spec_grade_rank(spec_score(par, k2)),
{
    lemma_thresholds_ordered(par);
}

/// Thresholds invert scoring: for `par >= 3`, scoring exactly the threshold
/// of a grade earns that grade. (For `par` of 1 or 2 the floor division
/// collapses neighbouring thresholds onto one value, which then scores as the
/// better of the grades sharing it.)
pub proof fn lemma_threshold_inverse(par: u32, g: Grade)
    requires
        3 <= par,
    ensures
        spec_score(par, spec_threshold(par, g)) == g,
{
    lemma_thresholds_strict(par);
}

/// Keystrokes contributed by characters outside bracketed tokens, from index
/// `i` on: bracketed tokens contribute nothing here.
pub open spec fn spec_outside_from(s: Seq<char>, i: nat) -> nat
    decreases s.len() - i,
    via spec_outside_from_decreases
{
    if i >= s.len() {
        0
    } else if s[i as int] == '<' {
        spec_outside_from(s, token_end(s, i))
    } else {
        1 + spec_outside_from(s, i + 1)
    }
}

#[via_fn]
proof fn spec_outside_from_decreases(s: Seq<char>, i: nat) {
    if i < s.len() && s[i as int] == '<' {
        lemma_find_from(s, '>', i + 1);
    }
}

/// Number of characters of `s` that stand outside bracketed tokens.
pub open spec fn spec_outside_count(s: Seq<char>) -> nat {
    spec_outside_from(s, 0)
}

proof fn lemma_count_at_least_outside_from(s: Seq<char>, i: nat)
    requires
        i <= s.len(),
    ensures
        spec_count_from(s, i) >= spec_outside_from(s, i),
    decreases s.len() - i,
{
    if i < s.len() {
        if s[i as int] == '<' {
            lemma_find_from(s, '>', i + 1);
            lemma_count_at_least_outside_from(s, token_end(s, i));
        } else {
            lemma_count_at_least_outside_from(s, i + 1);
        }
    }
}

/// The keystroke count of any string is at least the number of its
/// characters outside bracketed tokens, and the empty string counts zero.
pub proof fn lemma_count_at_least_outside(s: Seq<char>)
    ensures
        spec_count_keystrokes(s) >= spec_outside_count(s),
        s.len() == 0 ==> spec_count_keystrokes(s) == 0,
{
    lemma_count_at_least_outside_from(s, 0);
}

proof fn lemma_find_from_skip(s: Seq<char>, c: char, i: nat, j: nat)
    requires
        i <= j <= s.len(),
    ensures
        find_from(s, c, j) == i + find_from(s.skip(i as int), c, (j - i) as nat),
    decreases s.len() - j,
{
    if j >= s.len() {
        assert(s.skip(i as int).len() == s.len() - i);
    } else if s[j as int] == c {
        assert(s.skip(i as int)[j - i] == s[j as int]);
    } else {
        assert(s.skip(i as int)[j - i] == s[j as int]);
        lemma_find_from_skip(s, c, i, j + 1);
    }
}

proof fn lemma_count_from_skip(s: Seq<char>, i: nat)
    requires
        i <= s.len(),
    ensures
        spec_count_from(s, i) == spec_count_keystrokes(s.skip(i as int)),
    decreases s.len() - i,
{
    let t = s.skip(i as int);
    if i >= s.len() {
        assert(t.len() == 0);
    } else if s[i as int] == '<' {
        assert(t[0] == s[i as int]);
        lemma_find_from(s, '>', i + 1);
        lemma_find_from_skip(s, '>', i, i + 1);
        let te = token_end(s, i);
        let te2 = token_end(t, 0);
        assert(te2 == te - i);
        lemma_count_from_skip(s, te);
        lemma_count_from_skip(t, te2);
        assert(t.skip(te2 as int) =~= s.skip(te as int));
    } else {
        assert(t[0] == s[i as int]);
        lemma_count_from_skip(s, i + 1);
        lemma_count_from_skip(t, 1);
        assert(t.skip(1) =~= s.skip(i as int + 1));
    }
}

/// A bracketed token always counts exactly one keystroke, no matter how long
/// its inside is: a string that starts with `<`, then any characters without
/// a `>`, then `>`, counts one more keystroke than what follows.
pub proof fn lemma_token_counts_one(inner: Seq<char>, rest: Seq<char>)
    requires
        forall|k: int| 0 <= k < inner.len() ==> inner[k] != '>',
    ensures
        spec_count_keystrokes(seq!['<'] + inner + seq!['>'] + rest) == 1 + spec_count_keystrokes(
            rest,
        ),
{
    let s = seq!['<'] + inner + seq!['>'] + rest;
    let ilen = inner.len() as int;
    assert(s[0] == '<');
    assert(s[ilen + 1] == '>');
    assert(forall|k: int| 1 <= k < ilen + 1 ==> s[k] == inner[k - 1] && s[k] != '>');
    lemma_find_from_step(s, '>', 1, (ilen + 1) as nat);
    assert(find_from(s, '>', (ilen + 1) as nat) == ilen + 1);
    assert(token_end(s, 0) == ilen + 2);
    lemma_count_from_skip(s, (ilen + 2) as nat);
    assert(s.skip(ilen + 2) =~= rest);
}

/// A group of challenges shown together, with display metadata.
#[derive(Clone, Debug)]
pub struct Topic {
    pub id: u8,
    pub name: String,
    pub description: String,
    pub challenges: Vec<Challenge>,
}

/// Number of keystrokes represented by the key-notation characters of `s`
/// from index `i` on: a plain character counts 1, and a token from `<` to the
/// next `>` (or to the end, if unterminated) counts 1 as a whole.
pub open spec fn spec_count_from(s: Seq<char>, i: nat) -> nat
    decreases s.len() - i,
    via spec_count_from_decreases
{
    if i >= s.len() {
        0
    } else if s[i as int] == '<' {
        1 + spec_count_from(s, token_end(s, i))
    } else {
        1 + spec_count_from(s, i + 1)
    }
}

/// Index just past the token that starts with `<` at index `i`: one past the
/// next `>`, or the end of the string if it is unterminated.
pub open spec fn token_end(s: Seq<char>, i: nat) -> nat {
    if find_from(s, '>', i + 1) < s.len() {
        find_from(s, '>', i + 1) + 1
    } else {
        s.len()
    }
}

#[via_fn]
proof fn spec_count_from_decreases(s: Seq<char>, i: nat) {
    if i < s.len() && s[i as int] == '<' {
        lemma_find_from(s, '>', i + 1);
    }
}

/// Keystrokes in a whole key-notation string.
pub open spec fn spec_count_keystrokes(s: Seq<char>) -> nat {
    spec_count_from(s, 0)
}

/// Count keystrokes in a key notation string. Regular characters count as 1.
/// `<...>` sequences (for instance an escape key or a control chord) count as
/// 1. A literal `<` that is not meant to open a named key must be written as
/// the reserved `<lt>` token by challenge authors, or it is parsed as one.
pub fn count_keystrokes(s: &str) -> (count: usize)
    ensures
        count == spec_count_keystrokes(s@),
{
    let n = s.unicode_len();
    let mut i: usize = 0;
    let mut count: usize = 0;
    while i < n
        invariant
            i <= n,
            n == s@.len(),
            count <= i,
            spec_count_keystrokes(s@) == count + spec_count_from(s@, i as nat),
        decreases n - i,
    {
        let c = s.get_char(i);
        if c == '<' {
            let ghost fj = find_from(s@, '>', i as nat + 1);
            proof {
                lemma_find_from(s@, '>', i as nat + 1);
            }
            let mut j = i + 1;
            while j < n && s.get_char(j) != '>'
                invariant
                    i + 1 <= j <= n,
                    n == s@.len(),
                    forall|k: int| i + 1 <= k < j ==> s@[k] != '>',
                decreases n - j,
            {
                j += 1;
            }
            proof {
                crate::text::lemma_find_from_step(s@, '>', i as nat + 1, j as nat);
                if j < n {
                    assert(find_from(s@, '>', j as nat) == j);
                } else {
                    assert(find_from(s@, '>', j as nat) == n);
                }
            }
            if j < n {
                i = j + 1;
            } else {
                i = n;
            }
        } else {
            i += 1;
        }
        count += 1;
    }
    count
}

} // verus!
