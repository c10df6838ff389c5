//! The progress store: one best result per challenge, a bounded
//! keystroke-sorted attempt history, aggregate stats, and staleness tracking
//! across challenge-content versions.
//!
//! A best result is replaced only by a genuine improvement: a better grade,
//! or the same grade with strictly fewer keystrokes — unless the stored
//! result is stale, in which case any new result replaces it and the old
//! attempt history is cleared first.

use vstd::prelude::*;

use crate::challenge::spec_grade_rank;
use crate::challenge::Challenge;
use crate::challenge::Grade;
use crate::text::chars_to_string;
use crate::text::str_eq;

verus! {

/// Error raised when the progress file cannot be loaded or saved.
#[derive(Clone, Debug)]
pub struct SaveError {
    pub path: String,
    pub source: String,
}

impl SaveError {
    /// Human-readable description, naming the offending path.
    pub fn message(&self) -> (r: String)
        ensures
            r@ == "Failed to load save file '"@ + self.path@ + "': "@ + self.source@,
    {
        let mut out = crate::text::str_to_chars("Failed to load save file '");
        let p = crate::text::str_to_chars(self.path.as_str());
        let m = crate::text::str_to_chars(": ");
        let q = crate::text::str_to_chars(self.source.as_str());
        let mut i: usize = 0;
        while i < p.len()
            invariant
                i <= p@.len(),
                p@ == self.path@,
                out@ == "Failed to load save file '"@ + self.path@.take(i as int),
            decreases p@.len() - i,
        {
            out.push(p[i]);
            proof {
                assert(out@ =~= "Failed to load save file '"@ + self.path@.take(i as int + 1));
            }
            i += 1;
        }
        proof {
            assert(self.path@.take(self.path@.len() as int) =~= self.path@);
        }
        out.push('\'');
        let ghost pre = "Failed to load save file '"@ + self.path@ + "'"@;
        proof {
            reveal_strlit("'");
            assert(out@ =~= pre);
        }
        let mut j: usize = 0;
        while j < m.len()
            invariant
                j <= m@.len(),
                m@ == ": "@,
                out@ == pre + ": "@.take(j as int),
            decreases m@.len() - j,
        {
            out.push(m[j]);
            proof {
                assert(out@ =~= pre + ": "@.take(j as int + 1));
            }
            j += 1;
        }
        proof {
            assert(": "@.take(": "@.len() as int) =~= ": "@);
        }
        let ghost pre2 = pre + ": "@;
        let mut k: usize = 0;
        while k < q.len()
            invariant
                k <= q@.len(),
                q@ == self.source@,
                out@ == pre2 + self.source@.take(k as int),
            decreases q@.len() - k,
        {
            out.push(q[k]);
            proof {
                assert(out@ =~= pre2 + self.source@.take(k as int + 1));
            }
            k += 1;
        }
        proof {
            assert(self.source@.take(self.source@.len() as int) =~= self.source@);
            reveal_strlit(": ");
            reveal_strlit("': ");
            assert(pre2 + self.source@ =~= "Failed to load save file '"@ + self.path@ + "': "@
                + self.source@);
        }
        chars_to_string(&out)
    }
}

/// Aggregate counters over all attempts ever recorded.
#[derive(Clone, Copy, Debug)]
pub struct Stats {
    pub total_keystrokes: u64,
    pub challenges_attempted: u32,
}

/// One completed attempt kept in a challenge's bounded history.
#[derive(Clone, Debug)]
pub struct AttemptRecord {
    pub grade: Grade,
    pub keystrokes: u32,
    pub time_secs: u32,
    pub keys: String,
}

/// The authoritative best outcome stored for a challenge.
#[derive(Clone, Debug)]
pub struct BestResult {
    pub grade: Grade,
    pub keystrokes: u32,
    pub time_secs: u32,
    pub version: String,
    pub stale: bool,
}

/// The whole persistent progress state: best results and attempt histories
/// keyed by challenge id, plus aggregate stats.
#[derive(Clone, Debug)]
pub struct GameState {
    pub challenges: Vec<(String, BestResult)>,
    pub stats: Stats,
    pub history: Vec<(String, Vec<AttemptRecord>)>,
}

/// Mathematical value of an [`AttemptRecord`].
#[verifier::ext_equal]
pub struct AttemptV {
    pub grade: Grade,
    pub keystrokes: u32,
    pub time_secs: u32,
    pub keys: Seq<char>,
}

/// Mathematical value of a [`BestResult`].
#[verifier::ext_equal]
pub struct BestV {
    pub grade: Grade,
    pub keystrokes: u32,
    pub time_secs: u32,
    pub version: Seq<char>,
    pub stale: bool,
}

/// Mathematical value of a [`GameState`]: association lists keyed by the
/// challenge id's characters.
#[verifier::ext_equal]
pub struct StateV {
    pub challenges: Seq<(Seq<char>, BestV)>,
    pub stats: Stats,
    pub history: Seq<(Seq<char>, Seq<AttemptV>)>,
}

impl View for AttemptRecord {
    type V = AttemptV;

    open spec fn view(&self) -> AttemptV {
        AttemptV {
            grade: self.grade,
            keystrokes: self.keystrokes,
            time_secs: self.time_secs,
            keys: self.keys@,
        }
    }
}

impl View for BestResult {
    type V = BestV;

    open spec fn view(&self) -> BestV {
        BestV {
            grade: self.grade,
            keystrokes: self.keystrokes,
            time_secs: self.time_secs,
            version: self.version@,
            stale: self.stale,
        }
    }
}

impl View for GameState {
    type V = StateV;

    open spec fn view(&self) -> StateV {
        StateV {
            challenges: self.challenges@.map_values(|e: (String, BestResult)| (e.0@, e.1@)),
            stats: self.stats,
            history: self.history@.map_values(
                |e: (String, Vec<AttemptRecord>)| {
                    (e.0@, e.1@.map_values(|a: AttemptRecord| a@))
                },
            ),
        }
    }
}

/// Index of the first entry keyed by `id`, or `-1` if there is none.
pub open spec fn key_index<T>(entries: Seq<(Seq<char>, T)>, id: Seq<char>) -> int
    decreases entries.len(),
{
    if entries.len() == 0 {
        -1
    } else if entries[0].0 == id {
        0
    } else {
        let r = key_index(entries.skip(1), id);
        if r < 0 {
            -1
        } else {
            r + 1
        }
    }
}

pub proof fn lemma_key_index<T>(entries: Seq<(Seq<char>, T)>, id: Seq<char>)
    ensures
        -1 <= key_index(entries, id) < entries.len(),
        key_index(entries, id) >= 0 ==> entries[key_index(entries, id)].0 == id,
        forall|j: int|
            0 <= j < entries.len() && (j < key_index(entries, id) || key_index(entries, id) == -1)
                ==> (#[trigger] entries[j]).0 != id,
    decreases entries.len(),
{
    if entries.len() > 0 && entries[0].0 != id {
        lemma_key_index(entries.skip(1), id);
        let t = entries.skip(1);
        let r = key_index(t, id);
        if r >= 0 {
            assert(t[r] == entries[r + 1]);
        }
        assert forall|j: int|
            0 <= j < entries.len() && (j < key_index(entries, id) || key_index(entries, id) == -1)
                implies (#[trigger] entries[j]).0 != id by {
            if j > 0 {
                assert(t[j - 1] == entries[j]);
            }
        }
    }
}

/// The value stored under `id`, if any.
pub open spec fn spec_lookup<T>(entries: Seq<(Seq<char>, T)>, id: Seq<char>) -> Option<T> {
    let i = key_index(entries, id);
    if i >= 0 {
        Some(entries[i].1)
    } else {
        None
    }
}

/// Replace the entry under `id`, or add one at the end.
pub open spec fn spec_upsert<T>(entries: Seq<(Seq<char>, T)>, id: Seq<char>, v: T) -> Seq<
    (Seq<char>, T),
> {
    let i = key_index(entries, id);
    if i >= 0 {
        entries.update(i, (id, v))
    } else {
        entries.push((id, v))
    }
}

/// Drop the entry under `id`, if any.
pub open spec fn spec_remove_key<T>(entries: Seq<(Seq<char>, T)>, id: Seq<char>) -> Seq<
    (Seq<char>, T),
> {
    let i = key_index(entries, id);
    if i >= 0 {
        entries.remove(i)
    } else {
        entries
    }
}

/// In a uniquely-keyed list, holding `id` at position `i` pins the key
/// index.
pub proof fn lemma_key_index_unique<T>(entries: Seq<(Seq<char>, T)>, id: Seq<char>, i: int)
    requires
        unique_keys(entries),
        0 <= i < entries.len(),
        entries[i].0 == id,
    ensures
        key_index(entries, id) == i,
    decreases entries.len(),
{
    if i == 0 {
    } else {
        assert(entries[0].0 != id);
        let t = entries.skip(1);
        assert(forall|j: int| 0 <= j < t.len() ==> #[trigger] t[j] == entries[j + 1]);
        assert(unique_keys(t));
        lemma_key_index_unique(t, id, i - 1);
    }
}

/// What an upsert does to lookups: the given key now maps to the new value,
/// every other key is untouched, and keys stay unique.
pub proof fn lemma_upsert<T>(entries: Seq<(Seq<char>, T)>, id: Seq<char>, v: T)
    requires
        unique_keys(entries),
    ensures
        unique_keys(spec_upsert(entries, id, v)),
        spec_lookup(spec_upsert(entries, id, v), id) == Some(v),
        forall|id2: Seq<char>|
            id2 != id ==> #[trigger] spec_lookup(spec_upsert(entries, id, v), id2) == spec_lookup(
                entries,
                id2,
            ),
{
    lemma_key_index(entries, id);
    let i = key_index(entries, id);
    let u = spec_upsert(entries, id, v);
    if i >= 0 {
        assert(forall|j: int| 0 <= j < u.len() ==> (#[trigger] u[j]).0 == entries[j].0);
        assert(unique_keys(u));
        lemma_key_index_unique(u, id, i);
        assert forall|id2: Seq<char>| id2 != id implies #[trigger] spec_lookup(u, id2)
            == spec_lookup(entries, id2) by {
            lemma_key_index(entries, id2);
            lemma_key_index(u, id2);
            let j = key_index(entries, id2);
            if j >= 0 {
                assert(u[j].0 == id2);
                lemma_key_index_unique(u, id2, j);
                assert(u[j].1 == entries[j].1);
            } else {
                if key_index(u, id2) >= 0 {
                    let j2 = key_index(u, id2);
                    assert(u[j2].0 == id2);
                    assert(entries[j2].0 == id2);
                    assert(false);
                }
            }
        }
    } else {
        assert(forall|j: int| 0 <= j < entries.len() ==> (#[trigger] u[j]).0 == entries[j].0);
        lemma_key_index(entries, id);
        assert(forall|j: int| 0 <= j < entries.len() ==> (#[trigger] entries[j]).0 != id);
        assert(u[entries.len() as int].0 == id);
        assert(unique_keys(u));
        lemma_key_index_unique(u, id, entries.len() as int);
        assert forall|id2: Seq<char>| id2 != id implies #[trigger] spec_lookup(u, id2)
            == spec_lookup(entries, id2) by {
            lemma_key_index(entries, id2);
            lemma_key_index(u, id2);
            let j = key_index(entries, id2);
            if j >= 0 {
                assert(u[j].0 == id2);
                lemma_key_index_unique(u, id2, j);
            } else {
                if key_index(u, id2) >= 0 {
                    let j2 = key_index(u, id2);
                    assert(u[j2].0 == id2);
                    assert(j2 < u.len());
                    if j2 < entries.len() {
                        assert(entries[j2].0 == id2);
                        assert(false);
                    } else {
                        assert(u[j2].0 == id);
                        assert(false);
                    }
                }
            }
        }
    }
}

/// What removing a key does to lookups: the given key is gone, every other
/// key is untouched, and keys stay unique.
pub proof fn lemma_remove_key<T>(entries: Seq<(Seq<char>, T)>, id: Seq<char>)
    requires
        unique_keys(entries),
    ensures
        unique_keys(spec_remove_key(entries, id)),
        spec_lookup(spec_remove_key(entries, id), id) is None,
        forall|id2: Seq<char>|
            id2 != id ==> #[trigger] spec_lookup(spec_remove_key(entries, id), id2) == spec_lookup(
                entries,
                id2,
            ),
{
    lemma_key_index(entries, id);
    let i = key_index(entries, id);
    let u = spec_remove_key(entries, id);
    if i >= 0 {
        assert(forall|j: int|
            0 <= j < u.len() ==> #[trigger] u[j] == if j < i {
                entries[j]
            } else {
                entries[j + 1]
            });
        assert(unique_keys(u));
        lemma_key_index(u, id);
        if key_index(u, id) >= 0 {
            let j2 = key_index(u, id);
            assert(u[j2].0 == id);
            if j2 < i {
                assert(entries[j2].0 == id);
                assert(false);
            } else {
                assert(entries[j2 + 1].0 == id);
                assert(false);
            }
        }
        assert forall|id2: Seq<char>| id2 != id implies #[trigger] spec_lookup(u, id2)
            == spec_lookup(entries, id2) by {
            lemma_key_index(entries, id2);
            lemma_key_index(u, id2);
            let j = key_index(entries, id2);
            if j >= 0 {
                if j < i {
                    assert(u[j].0 == id2);
                    lemma_key_index_unique(u, id2, j);
                } else {
                    assert(j != i);
                    assert(u[j - 1] == entries[j]);
                    lemma_key_index_unique(u, id2, j - 1);
                }
            } else {
                if key_index(u, id2) >= 0 {
                    let j2 = key_index(u, id2);
                    assert(u[j2].0 == id2);
                    assert(false);
                }
            }
        }
    }
}

/// No two entries share a key.
pub open spec fn unique_keys<T>(entries: Seq<(Seq<char>, T)>) -> bool {
    forall|i: int, j: int|
        0 <= i < j < entries.len() ==> (#[trigger] entries[i]).0 != (#[trigger] entries[j]).0
}

/// Attempts ordered by keystrokes, ascending.
pub open spec fn history_sorted(l: Seq<AttemptV>) -> bool {
    forall|i: int, j: int|
        0 <= i < j < l.len() ==> (#[trigger] l[i]).keystrokes <= (#[trigger] l[j]).keystrokes
}

/// Where an attempt with `k` keystrokes lands in a sorted history: the first
/// position at or after `i` whose attempt took strictly more keystrokes, so
/// a new attempt goes after every one it does not beat.
pub open spec fn ins_pos(l: Seq<AttemptV>, k: u32, i: nat) -> nat
    decreases l.len() - i,
{
    if i >= l.len() {
        l.len()
    } else if l[i as int].keystrokes > k {
        i
    } else {
        ins_pos(l, k, i + 1)
    }
}

pub proof fn lemma_ins_pos(l: Seq<AttemptV>, k: u32, i: nat)
    requires
        i <= l.len(),
    ensures
        i <= ins_pos(l, k, i) <= l.len(),
        ins_pos(l, k, i) < l.len() ==> l[ins_pos(l, k, i) as int].keystrokes > k,
        forall|j: int| i <= j < ins_pos(l, k, i) ==> (#[trigger] l[j]).keystrokes <= k,
    decreases l.len() - i,
{
    if i < l.len() && !(l[i as int].keystrokes > k) {
        lemma_ins_pos(l, k, i + 1);
    }
}

pub proof fn lemma_ins_pos_step(l: Seq<AttemptV>, k: u32, i: nat, j: nat)
    requires
        i <= j <= l.len(),
        forall|m: int| i <= m < j ==> (#[trigger] l[m]).keystrokes <= k,
    ensures
        ins_pos(l, k, i) == ins_pos(l, k, j),
    decreases j - i,
{
    if i < j {
        lemma_ins_pos_step(l, k, i + 1, j);
    }
}

/// A new attempt inserted in keystroke order, stably after equal counts,
/// with the history then truncated to ten entries.
pub open spec fn spec_insert_attempt(l: Seq<AttemptV>, a: AttemptV) -> Seq<AttemptV> {
    let l2 = l.insert(ins_pos(l, a.keystrokes, 0) as int, a);
    if l2.len() > 10 {
        l2.take(10)
    } else {
        l2
    }
}

/// Inserting keeps a sorted history sorted and never grows it past ten.
pub proof fn lemma_insert_attempt(l: Seq<AttemptV>, a: AttemptV)
    requires
        history_sorted(l),
        l.len() <= 10,
    ensures
        history_sorted(spec_insert_attempt(l, a)),
        spec_insert_attempt(l, a).len() <= 10,
        l.len() < 10 ==> spec_insert_attempt(l, a).len() == l.len() + 1,
{
    lemma_ins_pos(l, a.keystrokes, 0);
    let p = ins_pos(l, a.keystrokes, 0) as int;
    let l2 = l.insert(p, a);
    assert(forall|j: int| 0 <= j < p ==> l2[j] == l[j]);
    assert(l2[p] == a);
    assert(forall|j: int| p < j < l2.len() ==> l2[j] == l[j - 1]);
    assert forall|i: int, j: int| 0 <= i < j < l2.len() implies (#[trigger] l2[i]).keystrokes
        <= (#[trigger] l2[j]).keystrokes by {
        if i < p && j == p {
            assert(l[i].keystrokes <= a.keystrokes);
        } else if i == p && j > p {
            assert(l[j - 1].keystrokes > a.keystrokes);
        }
    }
    if l2.len() > 10 {
        assert(forall|j: int| 0 <= j < 10 ==> l2.take(10)[j] == l2[j]);
    }
}

/// Whether a prior best result is stale.
pub open spec fn spec_was_stale(prior: Option<BestV>) -> bool {
    match prior {
        Some(b) => b.stale,
        None => false,
    }
}

/// Whether a graded attempt improves on the stored best: there is none, it
/// is stale, the grade outranks it, or the grade ties with strictly fewer
/// keystrokes.
pub open spec fn spec_improves(prior: Option<BestV>, grade: Grade, keystrokes: u32) -> bool {
    match prior {
        None => true,
        Some(b) => b.stale || spec_grade_rank(grade) < spec_grade_rank(b.grade) || (grade
            == b.grade && keystrokes < b.keystrokes),
    }
}

/// Whether a freestyle attempt improves on the stored best: only strictly
/// fewer keystrokes count, no grade comparison.
pub open spec fn spec_improves_freestyle(prior: Option<BestV>, keystrokes: u32) -> bool {
    match prior {
        None => true,
        Some(b) => b.stale || keystrokes < b.keystrokes,
    }
}

/// The attempt appended to a challenge's history, which is created when
/// missing.
pub open spec fn spec_append_history(
    h: Seq<(Seq<char>, Seq<AttemptV>)>,
    id: Seq<char>,
    a: AttemptV,
) -> Seq<(Seq<char>, Seq<AttemptV>)> {
    match spec_lookup(h, id) {
        Some(l) => spec_upsert(h, id, spec_insert_attempt(l, a)),
        None => spec_upsert(h, id, spec_insert_attempt(Seq::empty(), a)),
    }
}

/// One attempt recorded into the state, with improvement already decided:
/// on improvement the best result is replaced wholesale and, if the prior
/// best was stale, the old history is cleared first; stats always
/// accumulate; the attempt always joins the bounded sorted history.
pub open spec fn spec_record_with(
    m: StateV,
    id: Seq<char>,
    grade: Grade,
    keystrokes: u32,
    time_secs: u32,
    keys: Seq<char>,
    version: Seq<char>,
    improves: bool,
) -> StateV {
    let prior = spec_lookup(m.challenges, id);
    let nb = BestV { grade, keystrokes, time_secs, version, stale: false };
    let ch = if improves {
        spec_upsert(m.challenges, id, nb)
    } else {
        m.challenges
    };
    let h0 = if improves && spec_was_stale(prior) {
        spec_remove_key(m.history, id)
    } else {
        m.history
    };
    let att = AttemptV { grade, keystrokes, time_secs, keys };
    StateV {
        challenges: ch,
        stats: Stats {
            total_keystrokes: (m.stats.total_keystrokes + keystrokes) as u64,
            challenges_attempted: (m.stats.challenges_attempted + 1) as u32,
        },
        history: spec_append_history(h0, id, att),
    }
}

/// A graded attempt recorded into the state.
pub open spec fn spec_record(
    m: StateV,
    id: Seq<char>,
    grade: Grade,
    keystrokes: u32,
    time_secs: u32,
    keys: Seq<char>,
    version: Seq<char>,
) -> StateV {
    spec_record_with(
        m,
        id,
        grade,
        keystrokes,
        time_secs,
        keys,
        version,
        spec_improves(spec_lookup(m.challenges, id), grade, keystrokes),
    )
}

/// A freestyle attempt recorded into the state; the placeholder worst grade
/// is stored and must never be surfaced for freestyle challenges.
pub open spec fn spec_record_freestyle(
    m: StateV,
    id: Seq<char>,
    keystrokes: u32,
    time_secs: u32,
    keys: Seq<char>,
    version: Seq<char>,
) -> StateV {
    spec_record_with(
        m,
        id,
        Grade::F,
        keystrokes,
        time_secs,
        keys,
        version,
        spec_improves_freestyle(spec_lookup(m.challenges, id), keystrokes),
    )
}

/// Structural invariant over the mathematical state: ids unique in both
/// maps, every history sorted ascending by keystrokes with at most ten
/// attempts.
pub open spec fn state_wf(m: StateV) -> bool {
    &&& unique_keys(m.challenges)
    &&& unique_keys(m.history)
    &&& forall|i: int|
        0 <= i < m.history.len() ==> history_sorted((#[trigger] m.history[i]).1)
            && m.history[i].1.len() <= 10
}

/// Recording preserves the invariant: in particular, after any number of
/// attempts every stored history stays sorted ascending by keystrokes and
/// holds at most ten entries.
pub proof fn lemma_record_with_wf(
    m: StateV,
    id: Seq<char>,
    grade: Grade,
    keystrokes: u32,
    time_secs: u32,
    keys: Seq<char>,
    version: Seq<char>,
    improves: bool,
)
    requires
        state_wf(m),
    ensures
        state_wf(spec_record_with(m, id, grade, keystrokes, time_secs, keys, version, improves)),
{
    let prior = spec_lookup(m.challenges, id);
    let nb = BestV { grade, keystrokes, time_secs, version, stale: false };
    let att = AttemptV { grade, keystrokes, time_secs, keys };
    if improves {
        lemma_upsert(m.challenges, id, nb);
    }
    let h0 = if improves && spec_was_stale(prior) {
        spec_remove_key(m.history, id)
    } else {
        m.history
    };
    if improves && spec_was_stale(prior) {
        lemma_remove_key(m.history, id);
        lemma_key_index(m.history, id);
        let i = key_index(m.history, id);
        if i >= 0 {
            assert(forall|j: int|
                0 <= j < h0.len() ==> #[trigger] h0[j] == if j < i {
                    m.history[j]
                } else {
                    m.history[j + 1]
                });
        }
    }
    assert(unique_keys(h0));
    assert(forall|i: int|
        0 <= i < h0.len() ==> history_sorted((#[trigger] h0[i]).1) && h0[i].1.len() <= 10);
    let h1 = spec_append_history(h0, id, att);
    match spec_lookup(h0, id) {
        Some(l) => {
            lemma_key_index(h0, id);
            lemma_insert_attempt(l, att);
            lemma_upsert(h0, id, spec_insert_attempt(l, att));
            let ki = key_index(h0, id);
            assert(forall|j: int|
                0 <= j < h1.len() && j != ki ==> #[trigger] h1[j] == h0[j]);
            assert(h1[ki].1 == spec_insert_attempt(l, att));
        },
        None => {
            lemma_insert_attempt(Seq::empty(), att);
            lemma_upsert(h0, id, spec_insert_attempt(Seq::empty(), att));
            lemma_key_index(h0, id);
            assert(forall|j: int|
                0 <= j < h0.len() ==> #[trigger] h1[j] == h0[j]);
            assert(h1[h0.len() as int].1 == spec_insert_attempt(Seq::empty(), att));
        },
    }
}

impl GameState {
    /// Structural invariant: ids are unique in both maps, and every history
    /// is sorted ascending by keystrokes and holds at most ten attempts.
    pub open spec fn wf(&self) -> bool {
        state_wf(self@)
    }

    /// Index of the best-result entry for `challenge_id`, if one exists.
    fn find_best_index(&self, challenge_id: &str) -> (r: Option<usize>)
        ensures
            match r {
                Some(i) => key_index(self@.challenges, challenge_id@) == i && i
                    < self.challenges@.len(),
                None => key_index(self@.challenges, challenge_id@) == -1,
            },
    {
        let ghost entries = self@.challenges;
        let mut i: usize = 0;
        while i < self.challenges.len()
            invariant
                i <= self.challenges@.len(),
                entries == self@.challenges,
                entries.len() == self.challenges@.len(),
                forall|j: int| 0 <= j < i ==> (#[trigger] entries[j]).0 != challenge_id@,
            decreases self.challenges@.len() - i,
        {
            if str_eq(self.challenges[i].0.as_str(), challenge_id) {
                proof {
                    lemma_key_index(entries, challenge_id@);
                    assert(entries[i as int].0 == challenge_id@);
                    assert(key_index(entries, challenge_id@) == i);
                }
                return Some(i);
            }
            proof {
                assert(entries[i as int].0 == self.challenges@[i as int].0@);
            }
            i += 1;
        }
        proof {
            lemma_key_index(entries, challenge_id@);
        }
        None
    }

    /// Index of the history entry for `challenge_id`, if one exists.
    fn find_history_index(&self, challenge_id: &str) -> (r: Option<usize>)
        ensures
            match r {
                Some(i) => key_index(self@.history, challenge_id@) == i && i
                    < self.history@.len(),
                None => key_index(self@.history, challenge_id@) == -1,
            },
    {
        let ghost entries = self@.history;
        let mut i: usize = 0;
        while i < self.history.len()
            invariant
                i <= self.history@.len(),
                entries == self@.history,
                entries.len() == self.history@.len(),
                forall|j: int| 0 <= j < i ==> (#[trigger] entries[j]).0 != challenge_id@,
            decreases self.history@.len() - i,
        {
            if str_eq(self.history[i].0.as_str(), challenge_id) {
                proof {
                    lemma_key_index(entries, challenge_id@);
                    assert(entries[i as int].0 == challenge_id@);
                    assert(key_index(entries, challenge_id@) == i);
                }
                return Some(i);
            }
            proof {
                assert(entries[i as int].0 == self.history@[i as int].0@);
            }
            i += 1;
        }
        proof {
            lemma_key_index(entries, challenge_id@);
        }
        None
    }

    /// Check if a specific challenge has a stale score.
    pub fn is_stale(&self, challenge_id: &str) -> (r: bool)
        ensures
            r == match spec_lookup(self@.challenges, challenge_id@) {
                Some(b) => b.stale,
                None => false,
            },
    {
        match self.find_best_index(challenge_id) {
            Some(i) => self.challenges[i].1.stale,
            None => false,
        }
    }

    /// Count challenges with stale scores.
    pub fn stale_count(&self) -> (r: usize)
        ensures
            r == spec_stale_count(self@.challenges, self@.challenges.len() as int),
    {
        let mut count: usize = 0;
        let mut i: usize = 0;
        while i < self.challenges.len()
            invariant
                i <= self.challenges@.len(),
                count <= i,
                count == spec_stale_count(self@.challenges, i as int),
            decreases self.challenges@.len() - i,
        {
            if self.challenges[i].1.stale {
                count += 1;
            }
            i += 1;
        }
        count
    }

    /// Get the best keystroke count for a challenge, if attempted.
    pub fn best_keystrokes(&self, challenge_id: &str) -> (r: Option<u32>)
        ensures
            r == match spec_lookup(self@.challenges, challenge_id@) {
                Some(b) => Some(b.keystrokes),
                None => None::<u32>,
            },
    {
        match self.find_best_index(challenge_id) {
            Some(i) => Some(self.challenges[i].1.keystrokes),
            None => None,
        }
    }

    /// Get the best grade for a challenge, if attempted.
    pub fn best_grade(&self, challenge_id: &str) -> (r: Option<Grade>)
        ensures
            r == match spec_lookup(self@.challenges, challenge_id@) {
                Some(b) => Some(b.grade),
                None => None::<Grade>,
            },
    {
        match self.find_best_index(challenge_id) {
            Some(i) => Some(self.challenges[i].1.grade),
            None => None,
        }
    }

    /// The stored best result for a challenge, if any.
    pub fn best_result(&self, challenge_id: &str) -> (r: Option<&BestResult>)
        ensures
            match r {
                Some(b) => spec_lookup(self@.challenges, challenge_id@) == Some(b@),
                None => spec_lookup(self@.challenges, challenge_id@) is None,
            },
    {
        match self.find_best_index(challenge_id) {
            Some(i) => Some(&self.challenges[i].1),
            None => None,
        }
    }

    /// The stored attempt history for a challenge, if any.
    pub fn history_for(&self, challenge_id: &str) -> (r: Option<&Vec<AttemptRecord>>)
        ensures
            match r {
                Some(l) => spec_lookup(self@.history, challenge_id@) == Some(
                    l@.map_values(|a: AttemptRecord| a@),
                ),
                None => spec_lookup(self@.history, challenge_id@) is None,
            },
    {
        match self.find_history_index(challenge_id) {
            Some(i) => Some(&self.history[i].1),
            None => None,
        }
    }
}

/// First position in `l` whose attempt took strictly more than `k`
/// keystrokes.
fn find_insert_pos(l: &Vec<AttemptRecord>, k: u32) -> (pos: usize)
    ensures
        pos == ins_pos(l@.map_values(|a: AttemptRecord| a@), k, 0),
        pos <= l@.len(),
{
    let ghost lv = l@.map_values(|a: AttemptRecord| a@);
    let mut pos: usize = 0;
    while pos < l.len() && l[pos].keystrokes <= k
        invariant
            pos <= lv.len(),
            lv == l@.map_values(|a: AttemptRecord| a@),
            lv.len() == l@.len(),
            forall|m: int| 0 <= m < pos ==> (#[trigger] lv[m]).keystrokes <= k,
        decreases l@.len() - pos,
    {
        proof {
            assert(lv[pos as int] == l@[pos as int]@);
        }
        pos += 1;
    }
    proof {
        lemma_ins_pos_step(lv, k, 0, pos as nat);
        if pos < l.len() {
            assert(lv[pos as int] == l@[pos as int]@);
            assert(ins_pos(lv, k, pos as nat) == pos);
        }
    }
    pos
}

impl GameState {
    /// Record one attempt, with the improvement decision already made.
    fn apply_record(
        &mut self,
        challenge_id: &str,
        grade: Grade,
        keystrokes: u32,
        time_secs: u32,
        keys: &str,
        version: &str,
        improves: bool,
    )
        requires
            old(self).wf(),
            old(self).stats.total_keystrokes + keystrokes <= u64::MAX,
            old(self).stats.challenges_attempted < u32::MAX,
        ensures
            final(self)@ == spec_record_with(
                old(self)@,
                challenge_id@,
                grade,
                keystrokes,
                time_secs,
                keys@,
                version@,
                improves,
            ),
            final(self).wf(),
    {
        let ghost m0 = self@;
        let ghost id = challenge_id@;
        let ghost nbv = BestV { grade, keystrokes, time_secs, version: version@, stale: false };
        let ghost attv = AttemptV { grade, keystrokes, time_secs, keys: keys@ };
        proof {
            lemma_record_with_wf(m0, id, grade, keystrokes, time_secs, keys@, version@, improves);
        }
        let idx = self.find_best_index(challenge_id);
        let was_stale = match idx {
            Some(i) => self.challenges[i].1.stale,
            None => false,
        };
        proof {
            if idx is Some {
                let i = idx->0 as int;
                assert(m0.challenges[i] == (self.challenges@[i].0@, self.challenges@[i].1@));
            }
            assert(was_stale == spec_was_stale(spec_lookup(m0.challenges, id)));
        }
        if improves {
            let nb = BestResult {
                grade,
                keystrokes,
                time_secs,
                version: version.to_owned(),
                stale: false,
            };
            match idx {
                Some(i) => {
                    proof {
                        lemma_key_index(m0.challenges, id);
                    }
                    self.challenges[i].1 = nb;
                    proof {
                        assert(self@.challenges =~~= spec_upsert(m0.challenges, id, nbv));
                    }
                },
                None => {
                    self.challenges.push((challenge_id.to_owned(), nb));
                    proof {
                        assert(self@.challenges =~~= spec_upsert(m0.challenges, id, nbv));
                    }
                },
            }
            if was_stale {
                proof {
                    assert(self@.history == m0.history);
                }
                match self.find_history_index(challenge_id) {
                    Some(j) => {
                        self.history.remove(j);
                        proof {
                            assert(self@.history =~~= spec_remove_key(m0.history, id));
                        }
                    },
                    None => {
                        proof {
                            assert(self@.history =~~= spec_remove_key(m0.history, id));
                        }
                    },
                }
            }
        }
        let ghost ch1 = self@.challenges;
        let ghost h0 = self@.history;
        proof {
            assert(ch1 == if improves {
                spec_upsert(m0.challenges, id, nbv)
            } else {
                m0.challenges
            });
            assert(h0 == if improves && spec_was_stale(spec_lookup(m0.challenges, id)) {
                spec_remove_key(m0.history, id)
            } else {
                m0.history
            });
        }
        self.stats.total_keystrokes = self.stats.total_keystrokes + keystrokes as u64;
        self.stats.challenges_attempted = self.stats.challenges_attempted + 1;
        let att = AttemptRecord { grade, keystrokes, time_secs, keys: keys.to_owned() };
        proof {
            assert(att@ == attv);
        }
        match self.find_history_index(challenge_id) {
            Some(j) => {
                let ghost oldl = h0[j as int].1;
                proof {
                    lemma_key_index(h0, id);
                    assert(spec_lookup(h0, id) == Some(oldl));
                    assert(h0[j as int].1 == self.history@[j as int].1@.map_values(
                        |a: AttemptRecord| a@,
                    ));
                }
                let pos = find_insert_pos(&self.history[j].1, keystrokes);
                self.history[j].1.insert(pos, att);
                proof {
                    assert(self.history@[j as int].1@ =~= self.history@[j as int].1@);
                    assert(self.history@[j as int].1@.map_values(|a: AttemptRecord| a@) =~= oldl
                        .insert(pos as int, attv));
                }
                if self.history[j].1.len() > 10 {
                    self.history[j].1.truncate(10);
                    proof {
                        assert(self.history@[j as int].1@.map_values(|a: AttemptRecord| a@)
                            =~= oldl.insert(pos as int, attv).take(10));
                    }
                }
                proof {
                    assert(self.history@[j as int].1@.map_values(|a: AttemptRecord| a@)
                        == spec_insert_attempt(oldl, attv));
                    assert(self@.history =~~= spec_append_history(h0, id, attv));
                }
            },
            None => {
                let mut l: Vec<AttemptRecord> = Vec::new();
                l.push(att);
                self.history.push((challenge_id.to_owned(), l));
                proof {
                    lemma_ins_pos(Seq::<AttemptV>::empty(), keystrokes, 0);
                    assert(spec_insert_attempt(Seq::empty(), attv) =~= seq![attv]);
                    assert(l@.map_values(|a: AttemptRecord| a@) =~= seq![attv]);
                    assert(self@.history =~~= spec_append_history(h0, id, attv));
                }
            },
        }
        proof {
            assert(self@ =~~= spec_record_with(
                m0,
                id,
                grade,
                keystrokes,
                time_secs,
                keys@,
                version@,
                improves,
            ));
        }
    }

    /// Record a graded attempt. The best result is replaced exactly on
    /// improvement: no prior result, a stale prior result, a better grade,
    /// or the same grade with strictly fewer keystrokes. A stale prior
    /// result also has its attempt history cleared first. Stats always
    /// accumulate and the attempt always joins the bounded sorted history.
    pub fn record_result(
        &mut self,
        challenge_id: &str,
        grade: Grade,
        keystrokes: u32,
        time_secs: u32,
        keys: &str,
        version: &str,
    )
        requires
            old(self).wf(),
            old(self).stats.total_keystrokes + keystrokes <= u64::MAX,
            old(self).stats.challenges_attempted < u32::MAX,
        ensures
            final(self)@ == spec_record(
                old(self)@,
                challenge_id@,
                grade,
                keystrokes,
                time_secs,
                keys@,
                version@,
            ),
            final(self).wf(),
    {
        let ghost m0 = self@;
        let improves = match self.find_best_index(challenge_id) {
            Some(i) => {
                let b = &self.challenges[i].1;
                proof {
                    assert(m0.challenges[i as int] == (self.challenges@[i as int].0@,
                    self.challenges@[i as int].1@));
                }
                b.stale || grade_rank(grade) < grade_rank(b.grade) || (grade == b.grade
                    && keystrokes < b.keystrokes)
            },
            None => true,
        };
        proof {
            assert(improves == spec_improves(
                spec_lookup(m0.challenges, challenge_id@),
                grade,
                keystrokes,
            ));
        }
        self.apply_record(challenge_id, grade, keystrokes, time_secs, keys, version, improves);
    }

    /// Record a freestyle attempt: improvement is judged purely by strictly
    /// fewer keystrokes than the prior best, with no grade comparison. A
    /// placeholder worst grade is stored internally and must never be shown
    /// for freestyle challenges.
    pub fn record_freestyle_result(
        &mut self,
        challenge_id: &str,
        keystrokes: u32,
        time_secs: u32,
        keys: &str,
        version: &str,
    )
        requires
            old(self).wf(),
            old(self).stats.total_keystrokes + keystrokes <= u64::MAX,
            old(self).stats.challenges_attempted < u32::MAX,
        ensures
            final(self)@ == spec_record_freestyle(
                old(self)@,
                challenge_id@,
                keystrokes,
                time_secs,
                keys@,
                version@,
            ),
            final(self).wf(),
    {
        let ghost m0 = self@;
        let improves = match self.find_best_index(challenge_id) {
            Some(i) => {
                let b = &self.challenges[i].1;
                proof {
                    assert(m0.challenges[i as int] == (self.challenges@[i as int].0@,
                    self.challenges@[i as int].1@));
                }
                b.stale || keystrokes < b.keystrokes
            },
            None => true,
        };
        proof {
            assert(improves == spec_improves_freestyle(
                spec_lookup(m0.challenges, challenge_id@),
                keystrokes,
            ));
        }
        self.apply_record(challenge_id, Grade::F, keystrokes, time_secs, keys, version, improves);
    }
}

/// Index of the first challenge with the given id, or `-1`.
pub open spec fn chal_index(cs: Seq<Challenge>, id: Seq<char>) -> int
    decreases cs.len(),
{
    if cs.len() == 0 {
        -1
    } else if cs[0].id@ == id {
        0
    } else {
        let r = chal_index(cs.skip(1), id);
        if r < 0 {
            -1
        } else {
            r + 1
        }
    }
}

pub proof fn lemma_chal_index(cs: Seq<Challenge>, id: Seq<char>)
    ensures
        -1 <= chal_index(cs, id) < cs.len(),
        chal_index(cs, id) >= 0 ==> cs[chal_index(cs, id)].id@ == id,
        forall|j: int|
            0 <= j < cs.len() && (j < chal_index(cs, id) || chal_index(cs, id) == -1) ==> (
            #[trigger] cs[j]).id@ != id,
    decreases cs.len(),
{
    if cs.len() > 0 && cs[0].id@ != id {
        lemma_chal_index(cs.skip(1), id);
        let t = cs.skip(1);
        let r = chal_index(t, id);
        if r >= 0 {
            assert(t[r] == cs[r + 1]);
        }
        assert forall|j: int|
            0 <= j < cs.len() && (j < chal_index(cs, id) || chal_index(cs, id) == -1) implies (
        #[trigger] cs[j]).id@ != id by {
            if j > 0 {
                assert(t[j - 1] == cs[j]);
            }
        }
    }
}

/// A best-result entry after a staleness pass: marked stale exactly when its
/// challenge still exists and carries a different content version.
pub open spec fn spec_mark_stale_one(cs: Seq<Challenge>, e: (Seq<char>, BestV)) -> (
    Seq<char>,
    BestV,
) {
    let i = chal_index(cs, e.0);
    if i >= 0 && cs[i].version@ != e.1.version {
        (e.0, BestV { stale: true, ..e.1 })
    } else {
        e
    }
}

/// The whole state after a staleness pass: best results re-marked, history
/// and stats untouched.
pub open spec fn spec_mark_stale(m: StateV, cs: Seq<Challenge>) -> StateV {
    StateV {
        challenges: m.challenges.map_values(|e: (Seq<char>, BestV)| spec_mark_stale_one(cs, e)),
        stats: m.stats,
        history: m.history,
    }
}

/// Index of the first challenge with the given id in a slice, if any.
fn find_challenge_index(cs: &[Challenge], id: &str) -> (r: Option<usize>)
    ensures
        match r {
            Some(j) => chal_index(cs@, id@) == j && j < cs@.len(),
            None => chal_index(cs@, id@) == -1,
        },
{
    let mut j: usize = 0;
    while j < cs.len()
        invariant
            j <= cs@.len(),
            forall|m: int| 0 <= m < j ==> (#[trigger] cs@[m]).id@ != id@,
        decreases cs@.len() - j,
    {
        if str_eq(cs[j].id.as_str(), id) {
            proof {
                lemma_chal_index(cs@, id@);
            }
            return Some(j);
        }
        j += 1;
    }
    proof {
        lemma_chal_index(cs@, id@);
    }
    None
}

impl GameState {
    /// Mark stored best results stale when their recorded version differs
    /// from the current challenge content's version. Ids that no longer
    /// exist in the challenge set are left untouched. This runs once per
    /// process start, before any new attempt is recorded.
    pub fn mark_stale(&mut self, challenges: &[Challenge])
        requires
            old(self).wf(),
        ensures
            final(self)@ == spec_mark_stale(old(self)@, challenges@),
            final(self).wf(),
    {
        let ghost m0 = self@;
        let mut i: usize = 0;
        while i < self.challenges.len()
            invariant
                i <= self.challenges@.len(),
                self.challenges@.len() == m0.challenges.len(),
                self@.history == m0.history,
                self@.stats == m0.stats,
                forall|j: int|
                    0 <= j < i ==> self@.challenges[j] == spec_mark_stale_one(
                        challenges@,
                        #[trigger] m0.challenges[j],
                    ),
                forall|j: int|
                    i <= j < m0.challenges.len() ==> #[trigger] self@.challenges[j]
                        == m0.challenges[j],
            decreases self.challenges@.len() - i,
        {
            proof {
                assert(self@.challenges[i as int] == (self.challenges@[i as int].0@,
                self.challenges@[i as int].1@));
            }
            match find_challenge_index(challenges, self.challenges[i].0.as_str()) {
                Some(j) => {
                    if !str_eq(
                        challenges[j].version.as_str(),
                        self.challenges[i].1.version.as_str(),
                    ) {
                        let ghost prev = self@;
                        self.challenges[i].1.stale = true;
                        proof {
                            assert forall|j2: int|
                                0 <= j2 < m0.challenges.len() && j2 != i implies #[trigger] self@
                                .challenges[j2] == prev.challenges[j2] by {}
                            assert(self@.challenges[i as int] == spec_mark_stale_one(
                                challenges@,
                                m0.challenges[i as int],
                            ));
                        }
                    } else {
                        proof {
                            assert(self@.challenges[i as int] == spec_mark_stale_one(
                                challenges@,
                                m0.challenges[i as int],
                            ));
                        }
                    }
                },
                None => {
                    proof {
                        assert(self@.challenges[i as int] == spec_mark_stale_one(
                            challenges@,
                            m0.challenges[i as int],
                        ));
                    }
                },
            }
            i += 1;
        }
        proof {
            assert(self@.challenges =~~= spec_mark_stale(m0, challenges@).challenges);
            assert(self@ =~~= spec_mark_stale(m0, challenges@));
            assert(forall|j: int|
                0 <= j < self@.challenges.len() ==> (#[trigger] self@.challenges[j]).0
                    == m0.challenges[j].0);
        }
    }
}

/// Recording an attempt that is no improvement never changes any stored
/// best result: with a non-stale prior best, a worse or equal grade with no
/// strict keystroke gain leaves the whole best-result map as it was.
pub proof fn lemma_record_no_downgrade(
    m: StateV,
    id: Seq<char>,
    grade: Grade,
    keystrokes: u32,
    time_secs: u32,
    keys: Seq<char>,
    version: Seq<char>,
)
    requires
        !spec_improves(spec_lookup(m.challenges, id), grade, keystrokes),
    ensures
        spec_record(m, id, grade, keystrokes, time_secs, keys, version).challenges == m.challenges,
{
}

/// Recording on a stale best always overwrites it, whatever the grade or
/// keystroke comparison says: the new result stands with its staleness
/// cleared, and the attempt history restarts with only the new attempt.
pub proof fn lemma_record_stale_overwrites(
    m: StateV,
    id: Seq<char>,
    grade: Grade,
    keystrokes: u32,
    time_secs: u32,
    keys: Seq<char>,
    version: Seq<char>,
)
    requires
        state_wf(m),
        spec_lookup(m.challenges, id) matches Some(b) && b.stale,
    ensures
        spec_lookup(spec_record(m, id, grade, keystrokes, time_secs, keys, version).challenges, id)
            == Some(BestV { grade, keystrokes, time_secs, version, stale: false }),
        spec_lookup(spec_record(m, id, grade, keystrokes, time_secs, keys, version).history, id)
            == Some(seq![AttemptV { grade, keystrokes, time_secs, keys }]),
{
    let nb = BestV { grade, keystrokes, time_secs, version, stale: false };
    let att = AttemptV { grade, keystrokes, time_secs, keys };
    lemma_upsert(m.challenges, id, nb);
    lemma_remove_key(m.history, id);
    let h0 = spec_remove_key(m.history, id);
    lemma_ins_pos(Seq::<AttemptV>::empty(), keystrokes, 0);
    assert(spec_insert_attempt(Seq::empty(), att) =~= seq![att]);
    lemma_upsert(h0, id, spec_insert_attempt(Seq::empty(), att));
}

/// Number of stale best results among the first `n` entries.
pub open spec fn spec_stale_count(entries: Seq<(Seq<char>, BestV)>, n: int) -> int
    decreases n,
{
    if n <= 0 {
        0
    } else {
        spec_stale_count(entries, n - 1) + if entries[n - 1].1.stale {
            1int
        } else {
            0int
        }
    }
}

impl Default for GameState {
    /// A fresh state with nothing attempted.
    fn default() -> (r: Self)
        ensures
            r@.challenges.len() == 0,
            r@.history.len() == 0,
            r@.stats.total_keystrokes == 0,
            r@.stats.challenges_attempted == 0,
            r.wf(),
    {
        GameState {
            challenges: Vec::new(),
            stats: Stats { total_keystrokes: 0, challenges_attempted: 0 },
            history: Vec::new(),
        }
    }
}

/// Position of a grade in the best-to-worst order: `A` is 0, `F` is 5.
pub fn grade_rank(grade: Grade) -> (r: u8)
    ensures
        r == spec_grade_rank(grade),
{
    match grade {
        Grade::A => 0,
        Grade::B => 1,
        Grade::C => 2,
        Grade::D => 3,
        Grade::E => 4,
        Grade::F => 5,
    }
}

} // verus!
