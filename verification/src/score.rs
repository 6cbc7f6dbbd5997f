//! The scoreboard: participants and their accumulated points, and the
//! scoring step that one tick of the scoring loop applies to it.
//!
//! The scoreboard is modelled as a sequence of (name, score) pairs with
//! pairwise distinct names; the order is the order in which participants
//! first scored, which also fixes the order of the persisted snapshot.

use vstd::multiset::Multiset;
use vstd::prelude::*;
use crate::king::{trim_spec, valid_king_spec};
use crate::king::{trim_str, valid_king};
use crate::text::{lemma_lex_total, lemma_lex_trans, lex_le, lex_lt};
use crate::text::{str_eq, str_lt};

verus! {

/// The model of a vector of scoreboard entries: each name by its characters.
pub open spec fn entries_view(es: Seq<(String, u32)>) -> Seq<(Seq<char>, u32)> {
    Seq::new(es.len(), |i: int| (es[i].0@, es[i].1))
}

/// No name occurs twice.
pub open spec fn keys_unique(m: Seq<(Seq<char>, u32)>) -> bool {
    forall|i: int, j: int| 0 <= i < j < m.len() ==> m[i].0 != m[j].0
}

/// The sum of all scores.
pub open spec fn total_of(m: Seq<(Seq<char>, u32)>) -> int
    decreases m.len(),
{
    if m.len() == 0 {
        0
    } else {
        total_of(m.drop_last()) + m.last().1
    }
}

/// The index of the first entry named `k`, or -1 if there is none.
pub open spec fn find_key(m: Seq<(Seq<char>, u32)>, k: Seq<char>) -> int
    decreases m.len(),
{
    if m.len() == 0 {
        -1
    } else if m[0].0 == k {
        0
    } else {
        let r = find_key(m.drop_first(), k);
        if r < 0 {
            -1
        } else {
            r + 1
        }
    }
}

/// Whether some entry is named `k`.
pub open spec fn has_key(m: Seq<(Seq<char>, u32)>, k: Seq<char>) -> bool {
    find_key(m, k) >= 0
}

/// The score recorded under `k`; a name that is absent counts zero.
pub open spec fn score_of(m: Seq<(Seq<char>, u32)>, k: Seq<char>) -> u32 {
    if has_key(m, k) {
        m[find_key(m, k)].1
    } else {
        0
    }
}

pub proof fn lemma_total_nonneg(m: Seq<(Seq<char>, u32)>)
    ensures
        total_of(m) >= 0,
    decreases m.len(),
{
    if m.len() > 0 {
        lemma_total_nonneg(m.drop_last());
    }
}

pub proof fn lemma_find_key(m: Seq<(Seq<char>, u32)>, k: Seq<char>)
    ensures
        find_key(m, k) == -1 ==> forall|i: int| 0 <= i < m.len() ==> m[i].0 != k,
        find_key(m, k) >= 0 ==> {
            let r = find_key(m, k);
            &&& 0 <= r < m.len()
            &&& m[r].0 == k
            &&& forall|i: int| 0 <= i < r ==> m[i].0 != k
        },
    decreases m.len(),
{
    if m.len() > 0 && m[0].0 != k {
        lemma_find_key(m.drop_first(), k);
        let r = find_key(m.drop_first(), k);
        if r == -1 {
            assert forall|i: int| 0 <= i < m.len() implies m[i].0 != k by {
                if i > 0 {
                    assert(m.drop_first()[i - 1] == m[i]);
                }
            }
        } else {
            assert(m.drop_first()[r] == m[r + 1]);
            assert forall|i: int| 0 <= i < r + 1 implies m[i].0 != k by {
                if i > 0 {
                    assert(m.drop_first()[i - 1] == m[i]);
                }
            }
        }
    }
}

/// Replacing the entry at `i` (its name kept) changes the total by the
/// difference of the scores.
proof fn lemma_total_update(m: Seq<(Seq<char>, u32)>, i: int, e: (Seq<char>, u32))
    requires
        0 <= i < m.len(),
    ensures
        total_of(m.update(i, e)) == total_of(m) - m[i].1 + e.1,
    decreases m.len(),
{
    if i == m.len() - 1 {
        assert(m.update(i, e).drop_last() =~= m.drop_last());
    } else {
        assert(m.update(i, e).drop_last() =~= m.drop_last().update(i, e));
        lemma_total_update(m.drop_last(), i, e);
    }
}

proof fn lemma_total_push(m: Seq<(Seq<char>, u32)>, e: (Seq<char>, u32))
    ensures
        total_of(m.push(e)) == total_of(m) + e.1,
{
    assert(m.push(e).drop_last() =~= m);
}

/// Every single score is bounded by the total.
proof fn lemma_elem_le_total(m: Seq<(Seq<char>, u32)>, i: int)
    requires
        0 <= i < m.len(),
    ensures
        m[i].1 <= total_of(m),
    decreases m.len(),
{
    if i == m.len() - 1 {
        lemma_total_nonneg(m.drop_last());
    } else {
        lemma_elem_le_total(m.drop_last(), i);
    }
}

pub(crate) proof fn lemma_total_prefix_step(m: Seq<(Seq<char>, u32)>, i: int)
    requires
        0 <= i < m.len(),
    ensures
        total_of(m.subrange(0, i + 1)) == total_of(m.subrange(0, i)) + m[i].1,
{
    assert(m.subrange(0, i + 1).drop_last() =~= m.subrange(0, i));
}

pub(crate) proof fn lemma_total_prefix_le(m: Seq<(Seq<char>, u32)>, i: int)
    requires
        0 <= i <= m.len(),
    ensures
        total_of(m.subrange(0, i)) <= total_of(m),
    decreases m.len() - i,
{
    if i == m.len() {
        assert(m.subrange(0, i) =~= m);
    } else {
        lemma_total_prefix_step(m, i);
        lemma_total_prefix_le(m, i + 1);
    }
}

/// Replacing the entry at `i` without renaming it leaves the lookup of every
/// other name unchanged.
proof fn lemma_find_key_update(
    m: Seq<(Seq<char>, u32)>,
    i: int,
    e: (Seq<char>, u32),
    k2: Seq<char>,
)
    requires
        0 <= i < m.len(),
        m[i].0 == e.0,
        k2 != e.0,
    ensures
        find_key(m.update(i, e), k2) == find_key(m, k2),
    decreases m.len(),
{
    let mu = m.update(i, e);
    assert(mu[0] == if i == 0 { e } else { m[0] });
    if m[0].0 != k2 {
        if i == 0 {
            assert(mu.drop_first() =~= m.drop_first());
        } else {
            assert(mu.drop_first() =~= m.drop_first().update(i - 1, e));
            lemma_find_key_update(m.drop_first(), i - 1, e, k2);
        }
    }
}

/// Appending a new name leaves the lookup of every other name unchanged.
proof fn lemma_find_key_push(m: Seq<(Seq<char>, u32)>, e: (Seq<char>, u32), k2: Seq<char>)
    requires
        k2 != e.0,
    ensures
        find_key(m.push(e), k2) == find_key(m, k2),
    decreases m.len(),
{
    let mp = m.push(e);
    if m.len() == 0 {
        assert(mp[0] == e);
        assert(mp.drop_first() =~= Seq::<(Seq<char>, u32)>::empty());
        assert(find_key(Seq::<(Seq<char>, u32)>::empty(), k2) == -1);
    } else {
        assert(mp[0] == m[0]);
        if m[0].0 != k2 {
            assert(mp.drop_first() =~= m.drop_first().push(e));
            lemma_find_key_push(m.drop_first(), e, k2);
        }
    }
}

/// Whether `x` ranks no worse than `y` in the display ordering: higher
/// score first, equal scores in lexicographic name order.
pub open spec fn rank_le(x: (Seq<char>, u32), y: (Seq<char>, u32)) -> bool {
    x.1 > y.1 || (x.1 == y.1 && lex_le(x.0, y.0))
}

/// The scoreboard: a mapping from participant name to accumulated score,
/// kept in first-scored order.
pub struct Scoreboard {
    entries: Vec<(String, u32)>,
}

impl View for Scoreboard {
    type V = Seq<(Seq<char>, u32)>;

    closed spec fn view(&self) -> Seq<(Seq<char>, u32)> {
        Seq::new(self.entries@.len(), |i: int| (self.entries@[i].0@, self.entries@[i].1))
    }
}

impl Scoreboard {
    /// Names are pairwise distinct and the total fits the score type.
    pub open spec fn wf(&self) -> bool {
        keys_unique(self@) && total_of(self@) <= u32::MAX
    }

    /// The empty scoreboard, the state before anyone has scored.
    pub fn new() -> (s: Scoreboard)
        ensures
            s@ =~= Seq::<(Seq<char>, u32)>::empty(),
            s.wf(),
    {
        Scoreboard { entries: Vec::new() }
    }

    /// Wraps entries already known to be well formed; used by the snapshot
    /// decoder.
    pub(crate) fn from_entries(entries: Vec<(String, u32)>) -> (s: Scoreboard)
        ensures
            s@ =~= entries_view(entries@),
    {
        Scoreboard { entries }
    }

    pub fn len(&self) -> (n: usize)
        ensures
            n == self@.len(),
    {
        self.entries.len()
    }

    /// The name and score at one position, in first-scored order.
    pub fn entry_at(&self, i: usize) -> (e: (String, u32))
        requires
            i < self@.len(),
        ensures
            (e.0@, e.1) == self@[i as int],
    {
        let e = &self.entries[i];
        (e.0.clone(), e.1)
    }

    fn find_index(&self, name: &str) -> (r: Option<usize>)
        ensures
            r matches Some(i) ==> i < self@.len() && self@[i as int].0 == name@ && find_key(
                self@,
                name@,
            ) == i as int,
            r is None ==> find_key(self@, name@) == -1,
    {
        let n = self.entries.len();
        let mut i: usize = 0;
        while i < n
            invariant
                0 <= i <= n,
                n == self@.len(),
                self@.len() == self.entries@.len(),
                forall|j: int| 0 <= j < self@.len() ==> self@[j].0 == self.entries@[j].0@,
                forall|j: int| 0 <= j < i ==> self@[j].0 != name@,
            decreases n - i,
        {
            if str_eq(name, self.entries[i].0.as_str()) {
                proof {
                    lemma_find_key(self@, name@);
                    let r = find_key(self@, name@);
                    assert(self@[i as int].0 == name@);
                    if r == -1 {
                        assert(self@[i as int].0 != name@);
                    } else if r < i as int {
                        assert(self@[r].0 != name@);
                    } else if r > i as int {
                        assert(self@[i as int].0 != name@);
                    }
                }
                return Some(i);
            }
            i = i + 1;
        }
        proof {
            lemma_find_key(self@, name@);
        }
        None
    }

    /// The score recorded for `name`, if any.
    pub fn get(&self, name: &str) -> (r: Option<u32>)
        ensures
            r == if has_key(self@, name@) {
                Some(score_of(self@, name@))
            } else {
                None::<u32>
            },
    {
        match self.find_index(name) {
            Some(i) => {
                proof {
                    assert(self@.len() == self.entries@.len());
                    assert(self@[i as int].1 == self.entries@[i as int].1);
                }
                Some(self.entries[i].1)
            },
            None => None,
        }
    }

    /// The sum of all scores.
    pub fn total(&self) -> (t: u32)
        requires
            self.wf(),
        ensures
            t == total_of(self@),
    {
        let n = self.entries.len();
        let mut t: u32 = 0;
        let mut i: usize = 0;
        proof {
            assert(self@.subrange(0, 0) =~= Seq::<(Seq<char>, u32)>::empty());
        }
        while i < n
            invariant
                0 <= i <= n,
                n == self@.len(),
                self@.len() == self.entries@.len(),
                forall|j: int| 0 <= j < self@.len() ==> self@[j].1 == self.entries@[j].1,
                total_of(self@) <= u32::MAX,
                t == total_of(self@.subrange(0, i as int)),
            decreases n - i,
        {
            proof {
                lemma_total_prefix_step(self@, i as int);
                lemma_total_prefix_le(self@, i + 1);
                lemma_total_nonneg(self@.subrange(0, i as int));
            }
            t = t + self.entries[i].1;
            i = i + 1;
        }
        proof {
            assert(self@.subrange(0, n as int) =~= self@);
        }
        t
    }

    /// Awards `points` to `name`, entering it with that score when it is not
    /// yet on the board.  Every other entry is untouched; the total grows by
    /// exactly `points`.
    pub fn add_points(&mut self, name: &str, points: u32)
        requires
            old(self).wf(),
            total_of(old(self)@) + points <= u32::MAX,
        ensures
            final(self).wf(),
            has_key(old(self)@, name@) ==> final(self)@ =~= old(self)@.update(
                find_key(old(self)@, name@),
                (name@, (score_of(old(self)@, name@) + points) as u32),
            ),
            !has_key(old(self)@, name@) ==> final(self)@ =~= old(self)@.push((name@, points)),
            total_of(final(self)@) == total_of(old(self)@) + points,
            has_key(final(self)@, name@),
            score_of(final(self)@, name@) == score_of(old(self)@, name@) + points,
            forall|k2: Seq<char>| k2 != name@ ==> has_key(final(self)@, k2) == has_key(
                old(self)@,
                k2,
            ) && score_of(final(self)@, k2) == score_of(old(self)@, k2),
    {
        proof {
            lemma_find_key(self@, name@);
        }
        let ghost m0 = self@;
        match self.find_index(name) {
            Some(i) => {
                proof {
                    lemma_elem_le_total(m0, i as int);
                    lemma_total_nonneg(m0);
                }
                let (k, v) = self.entries.remove(i);
                let nv = v + points;
                self.entries.insert(i, (k, nv));
                proof {
                    let e = (name@, nv);
                    assert(self@ =~= m0.update(i as int, e));
                    lemma_total_update(m0, i as int, e);
                    assert(forall|j: int| 0 <= j < self@.len() ==> self@[j].0 == m0[j].0);
                    assert(keys_unique(self@));
                    lemma_find_key(self@, name@);
                    let r = find_key(self@, name@);
                    assert(self@[i as int].0 == name@);
                    if r == -1 {
                        assert(self@[i as int].0 != name@);
                    } else if r != i as int {
                        assert(self@[r].0 == name@);
                        assert(false);
                    }
                    assert(score_of(self@, name@) == nv);
                    assert forall|k2: Seq<char>| k2 != name@ implies has_key(self@, k2)
                        == has_key(m0, k2) && score_of(self@, k2) == score_of(m0, k2) by {
                        lemma_find_key_update(m0, i as int, e, k2);
                        lemma_find_key(m0, k2);
                        lemma_find_key(self@, k2);
                    }
                }
            },
            None => {
                self.entries.push((String::from_str(name), points));
                proof {
                    let e = (name@, points);
                    assert(self@ =~= m0.push(e));
                    lemma_total_push(m0, e);
                    assert forall|k2: Seq<char>| k2 != name@ implies has_key(self@, k2)
                        == has_key(m0, k2) && score_of(self@, k2) == score_of(m0, k2) by {
                        lemma_find_key_push(m0, e, k2);
                        lemma_find_key(m0, k2);
                    }
                    lemma_find_key(m0, name@);
                    assert(keys_unique(self@)) by {
                        assert forall|i: int, j: int|
                            0 <= i < j < self@.len() implies self@[i].0 != self@[j].0 by {
                            if j == self@.len() - 1 {
                                assert(m0[i].0 != name@);
                            }
                        }
                    }
                    assert(find_key(self@, name@) == m0.len()) by {
                        lemma_find_key(self@, name@);
                        if find_key(self@, name@) < m0.len() {
                            assert(m0[find_key(self@, name@)].0 == name@);
                        }
                    }
                }
            },
        }
    }

    /// One tick of the scoring loop, applied to the raw content of the king
    /// file (an absent file reads as the empty string).  The content is
    /// trimmed; when the result is a single non-empty line, that king gains
    /// `points` and the tick reports whether the new total asks for the
    /// scoreboard to be persisted (it is a multiple of ten); any other
    /// content leaves the scoreboard untouched and never persists.
    pub fn tick(&mut self, king_raw: &str, points: u32) -> (persist: bool)
        requires
            old(self).wf(),
            valid_king_spec(trim_spec(king_raw@)) ==> total_of(old(self)@) + points <= u32::MAX,
        ensures
            final(self).wf(),
            ({
                let k = trim_spec(king_raw@);
                &&& !valid_king_spec(k) ==> final(self)@ == old(self)@ && !persist
                &&& valid_king_spec(k) ==> {
                    &&& total_of(final(self)@) == total_of(old(self)@) + points
                    &&& score_of(final(self)@, k) == score_of(old(self)@, k) + points
                    &&& has_key(final(self)@, k)
                    &&& has_key(old(self)@, k) ==> final(self)@ =~= old(self)@.update(
                        find_key(old(self)@, k),
                        (k, (score_of(old(self)@, k) + points) as u32),
                    )
                    &&& !has_key(old(self)@, k) ==> final(self)@ =~= old(self)@.push((k, points))
                    &&& forall|k2: Seq<char>| k2 != k ==> has_key(final(self)@, k2) == has_key(
                        old(self)@,
                        k2,
                    ) && score_of(final(self)@, k2) == score_of(old(self)@, k2)
                }
                &&& persist == (valid_king_spec(k) && total_of(final(self)@) % 10 == 0)
            }),
    {
        let king = trim_str(king_raw);
        if valid_king(king.as_str()) {
            self.add_points(king.as_str(), points);
            let t = self.total();
            t % 10 == 0
        } else {
            false
        }
    }

    /// The winning entry: the highest score, and among equal scores the
    /// lexicographically smallest name.  `None` only on an empty board.
    pub fn leader(&self) -> (r: Option<(String, u32)>)
        requires
            self.wf(),
        ensures
            r is Some <==> self@.len() > 0,
            r matches Some(e) ==> {
                &&& exists|i: int| 0 <= i < self@.len() && self@[i] == (e.0@, e.1)
                &&& forall|i: int| 0 <= i < self@.len() ==> self@[i].1 <= e.1
                &&& forall|i: int|
                    0 <= i < self@.len() && self@[i].1 == e.1 ==> lex_le(e.0@, self@[i].0)
            },
    {
        let n = self.entries.len();
        if n == 0 {
            return None;
        }
        let mut best: usize = 0;
        let mut i: usize = 1;
        while i < n
            invariant
                1 <= i <= n,
                0 <= best < i,
                n == self@.len(),
                self@.len() == self.entries@.len(),
                forall|j: int| 0 <= j < self@.len() ==> self@[j] == (
                    self.entries@[j].0@,
                    self.entries@[j].1,
                ),
                keys_unique(self@),
                forall|j: int| 0 <= j < i ==> self@[j].1 <= self@[best as int].1,
                forall|j: int|
                    0 <= j < i && self@[j].1 == self@[best as int].1 ==> lex_le(
                        self@[best as int].0,
                        self@[j].0,
                    ),
            decreases n - i,
        {
            let cs = self.entries[i].1;
            let bs = self.entries[best].1;
            let take = cs > bs || (cs == bs && str_lt(
                self.entries[i].0.as_str(),
                self.entries[best].0.as_str(),
            ));
            proof {
                let bv = self@[best as int];
                let cv = self@[i as int];
                if take {
                    assert forall|j: int|
                        0 <= j < i + 1 && self@[j].1 == cv.1 implies lex_le(cv.0, self@[j].0) by {
                        if j < i {
                            assert(self@[j].1 == bv.1);
                            assert(lex_le(bv.0, self@[j].0));
                            if bv.0 != self@[j].0 {
                                lemma_lex_trans(cv.0, bv.0, self@[j].0);
                            }
                        }
                    }
                } else {
                    if cv.1 == bv.1 {
                        assert(cv.0 != bv.0);
                        lemma_lex_total(cv.0, bv.0);
                        assert(lex_lt(bv.0, cv.0));
                    }
                }
            }
            if take {
                best = i;
            }
            i = i + 1;
        }
        let e = &self.entries[best];
        let r = Some((e.0.clone(), e.1));
        proof {
            assert(self@[best as int] == (e.0@, e.1));
        }
        r
    }

    /// The display ordering of the board: the same entries, sorted by
    /// descending score, entries of equal score by ascending name.
    pub fn standings(&self) -> (r: Vec<(String, u32)>)
        ensures
            entries_view(r@).to_multiset() == self@.to_multiset(),
            forall|a: int, b: int|
                0 <= a < b < r@.len() ==> rank_le(entries_view(r@)[a], entries_view(r@)[b]),
    {
        let n = self.entries.len();
        let mut rest: Vec<(String, u32)> = Vec::new();
        let mut i: usize = 0;
        while i < n
            invariant
                0 <= i <= n,
                n == self@.len(),
                self@.len() == self.entries@.len(),
                forall|j: int| 0 <= j < self@.len() ==> self@[j] == (
                    self.entries@[j].0@,
                    self.entries@[j].1,
                ),
                entries_view(rest@) =~= self@.subrange(0, i as int),
            decreases n - i,
        {
            let e = self.entry_at(i);
            let ghost ev = (e.0@, e.1);
            let ghost r0 = rest@;
            rest.push(e);
            proof {
                assert(entries_view(r0).len() == r0.len());
                assert(entries_view(r0) =~= self@.subrange(0, i as int));
                assert(r0.len() == i as int);
                assert(rest@.len() == i + 1);
                assert(ev == self@[i as int]);
                assert forall|j: int| 0 <= j < i + 1 implies entries_view(rest@)[j]
                    == self@.subrange(0, i + 1)[j] by {
                    if j < i {
                        assert(rest@[j] == r0[j]);
                        assert(entries_view(r0)[j] == self@.subrange(0, i as int)[j]);
                    } else {
                        assert(entries_view(rest@)[j] == ev);
                    }
                }
                assert(entries_view(rest@) =~= self@.subrange(0, i + 1));
            }
            i = i + 1;
        }
        proof {
            assert(entries_view(rest@) =~= self@);
        }
        let mut out: Vec<(String, u32)> = Vec::new();
        proof {
            broadcast use vstd::seq_lib::group_to_multiset_ensures;
            broadcast use vstd::multiset::group_multiset_axioms;

            assert(entries_view(out@) =~= Seq::<(Seq<char>, u32)>::empty());
            assert(entries_view(out@).to_multiset().len() == 0);
            assert(entries_view(out@).to_multiset() =~= Multiset::empty());
            assert(entries_view(out@).to_multiset().add(entries_view(rest@).to_multiset())
                =~= self@.to_multiset());
        }
        while rest.len() > 0
            invariant
                entries_view(out@).to_multiset().add(entries_view(rest@).to_multiset())
                    =~= self@.to_multiset(),
                forall|a: int, b: int|
                    0 <= a < b < out@.len() ==> rank_le(entries_view(out@)[a], entries_view(out@)[b]),
                forall|a: int, b: int|
                    0 <= a < out@.len() && 0 <= b < rest@.len() ==> rank_le(
                        entries_view(out@)[a],
                        entries_view(rest@)[b],
                    ),
            decreases rest@.len(),
        {
            let m = rest.len();
            let mut sel: usize = 0;
            let mut j: usize = 1;
            while j < m
                invariant
                    1 <= j <= m,
                    0 <= sel < j,
                    m == rest@.len(),
                    forall|t: int| 0 <= t < j ==> rank_le(
                        entries_view(rest@)[sel as int],
                        entries_view(rest@)[t],
                    ),
                decreases m - j,
            {
                let ghost rv = entries_view(rest@);
                let cs = rest[j].1;
                let ss = rest[sel].1;
                let take = cs > ss || (cs == ss && str_lt(
                    rest[j].0.as_str(),
                    rest[sel].0.as_str(),
                ));
                proof {
                    let sv = rv[sel as int];
                    let cv = rv[j as int];
                    if take {
                        assert forall|t: int| 0 <= t < j + 1 implies rank_le(cv, rv[t]) by {
                            if t < j {
                                assert(rank_le(sv, rv[t]));
                                if cv.1 == sv.1 && rv[t].1 == cv.1 {
                                    assert(lex_le(sv.0, rv[t].0));
                                    if sv.0 != rv[t].0 {
                                        lemma_lex_trans(cv.0, sv.0, rv[t].0);
                                    }
                                }
                            }
                        }
                    } else {
                        if cv.1 == sv.1 {
                            lemma_lex_total(sv.0, cv.0);
                        }
                        assert(rank_le(sv, cv));
                    }
                }
                if take {
                    sel = j;
                }
                j = j + 1;
            }
            let ghost rv = entries_view(rest@);
            let ghost ov = entries_view(out@);
            let ghost x = rv[sel as int];
            let e = rest.remove(sel);
            out.push(e);
            proof {
                broadcast use vstd::seq_lib::group_to_multiset_ensures;
                broadcast use vstd::multiset::group_multiset_axioms;

                assert((e.0@, e.1) == x);
                assert(entries_view(rest@) =~= rv.remove(sel as int));
                assert(entries_view(out@) =~= ov.push(x));
                assert(rv.contains(x)) by {
                    assert(rv[sel as int] == x);
                }
                assert(rv.to_multiset().count(x) > 0);
                assert(ov.push(x).to_multiset() =~= ov.to_multiset().insert(x));
                assert(rv.remove(sel as int).to_multiset() =~= rv.to_multiset().remove(x));
                assert(entries_view(out@).to_multiset() =~= ov.to_multiset().insert(x));
                assert(entries_view(rest@).to_multiset() =~= rv.to_multiset().remove(x));
                assert(entries_view(out@).to_multiset().add(entries_view(rest@).to_multiset())
                    =~= ov.to_multiset().add(rv.to_multiset()));
                assert forall|a: int, b: int|
                    0 <= a < out@.len() && 0 <= b < rest@.len() implies rank_le(
                        entries_view(out@)[a],
                        entries_view(rest@)[b],
                    ) by {
                    let rb = entries_view(rest@)[b];
                    assert(rb == if b < sel as int { rv[b] } else { rv[b + 1] });
                    if a < out@.len() - 1 {
                        assert(rank_le(ov[a], rb));
                    } else {
                        assert(rank_le(x, rb));
                    }
                }
            }
        }
        proof {
            broadcast use vstd::seq_lib::group_to_multiset_ensures;
            broadcast use vstd::multiset::group_multiset_axioms;

            assert(rest@.len() == 0);
            assert(entries_view(rest@).to_multiset().len() == 0);
            assert(entries_view(rest@).to_multiset() =~= Multiset::empty());
            assert(entries_view(out@).to_multiset() =~= self@.to_multiset());
        }
        out
    }
}

} // verus!

