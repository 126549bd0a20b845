//! Grading: comparing each student's submitted letters against the answer
//! key under shape-specific rules, producing per-student score and the set of
//! wrong question positions.

use vstd::prelude::*;

use crate::key::{key_lookup, spec_total, Answers, KeyEntry};
use crate::md::frags_view;
use crate::text::str_eq;

verus! {

/// One submitted answer: a question position and the chosen letters.
pub struct SubEntry {
    pub position: usize,
    pub letters: Vec<String>,
}

/// One student's submission: name and answers in question-position order.
pub struct Student {
    pub name: String,
    pub answers: Vec<SubEntry>,
}

/// One graded row: the student's score and the positions answered wrong.
pub struct ScoreRow {
    pub name: String,
    pub score: usize,
    pub wrong: Vec<usize>,
}

/// A graded class: the description and students as loaded, and, after
/// grading, the quiz totals and per-student scores.
pub struct Class {
    pub description: String,
    pub students: Vec<Student>,
    pub total: usize,
    pub questions: usize,
    pub scores: Vec<ScoreRow>,
}

/// `a - b`, floored at zero.
pub open spec fn sat_sub(a: int, b: int) -> int {
    if a - b >= 0 {
        a - b
    } else {
        0
    }
}

/// Missed pairs of a matching question among the first `i` submitted
/// letters: every position where the submitted letter differs from the key
/// letter (or has no key letter) is one missed point.
pub open spec fn mm(sub: Seq<Seq<char>>, kl: Seq<Seq<char>>, i: int) -> nat
    decreases i,
{
    if i <= 0 {
        0
    } else {
        mm(sub, kl, i - 1) + (if i - 1 >= kl.len() || sub[i - 1] != kl[i - 1] {
            1nat
        } else {
            0nat
        })
    }
}

/// How many of the first `i` elements of `a` do not occur in `b`.
pub open spec fn cni(a: Seq<Seq<char>>, b: Seq<Seq<char>>, i: int) -> nat
    decreases i,
{
    if i <= 0 {
        0
    } else {
        cni(a, b, i - 1) + (if !b.contains(a[i - 1]) {
            1nat
        } else {
            0nat
        })
    }
}

/// The missed points of one submitted answer against its key entry: matching
/// questions compare position by position; a single-letter key is an exact
/// list comparison; a multi-letter key misses one point per unselected
/// correct letter and per selected incorrect letter.
pub open spec fn entry_missed(sub: Seq<Seq<char>>, e: KeyEntry) -> nat {
    let kl = frags_view(e.letters@);
    if e.matching {
        mm(sub, kl, sub.len() as int)
    } else if kl.len() == 1 {
        if sub == kl {
            0
        } else {
            1
        }
    } else {
        cni(sub, kl, sub.len() as int) + cni(kl, sub, kl.len() as int)
    }
}

/// The missed points of one submitted answer, looked up in the key; an
/// unknown position misses nothing (callers rule it out).
pub open spec fn lookup_missed(key: Seq<KeyEntry>, s: SubEntry) -> nat {
    match key_lookup(key, s.position) {
        Some(e) => entry_missed(frags_view(s.letters@), e),
        None => 0,
    }
}

/// The total missed points of a student's first `i` answers.
pub open spec fn student_missed(subs: Seq<SubEntry>, key: Seq<KeyEntry>, i: int) -> nat
    decreases i,
{
    if i <= 0 {
        0
    } else {
        student_missed(subs, key, i - 1) + lookup_missed(key, subs[i - 1])
    }
}

/// `s` with `v` added at its place in ascending order; a position already
/// present is not added again.
pub open spec fn sorted_insert(s: Seq<usize>, v: usize) -> Seq<usize>
    decreases s.len(),
{
    if s.len() == 0 {
        seq![v]
    } else if v < s[0] {
        seq![v] + s
    } else if v == s[0] {
        s
    } else {
        seq![s[0]] + sorted_insert(s.drop_first(), v)
    }
}

/// The wrong-question set of a student's first `i` answers: every position
/// with any missed point, as an ascending duplicate-free list.
pub open spec fn student_wrong(subs: Seq<SubEntry>, key: Seq<KeyEntry>, i: int) -> Seq<usize>
    decreases i,
{
    if i <= 0 {
        Seq::empty()
    } else {
        let prev = student_wrong(subs, key, i - 1);
        if lookup_missed(key, subs[i - 1]) > 0 {
            sorted_insert(prev, subs[i - 1].position)
        } else {
            prev
        }
    }
}

/// Inserting keeps the list strictly ascending and adds exactly the given
/// position to its contents.
proof fn lemma_sorted_insert(s: Seq<usize>, v: usize)
    requires
        forall|a: int, b: int| 0 <= a < b < s.len() ==> s[a] < s[b],
    ensures
        forall|a: int, b: int|
            0 <= a < b < sorted_insert(s, v).len() ==> sorted_insert(s, v)[a] < sorted_insert(
                s,
                v,
            )[b],
        forall|p: usize|
            #![trigger sorted_insert(s, v).contains(p)]
            sorted_insert(s, v).contains(p) <==> (s.contains(p) || p == v),
    decreases s.len(),
{
    let r = sorted_insert(s, v);
    if s.len() == 0 {
        assert forall|p: usize| r.contains(p) implies (s.contains(p) || p == v) by {
            let w = choose|w: int| 0 <= w < r.len() && r[w] == p;
        }
        assert(r.contains(v)) by {
            assert(r[0] == v);
        }
    } else if v < s[0] {
        assert forall|a: int, b: int| 0 <= a < b < r.len() implies r[a] < r[b] by {
            if a > 0 {
                assert(r[a] == s[a - 1] && r[b] == s[b - 1]);
            } else if b > 0 {
                assert(r[b] == s[b - 1]);
                if b - 1 > 0 {
                    assert(s[0] < s[b - 1]);
                }
            }
        }
        assert forall|p: usize| r.contains(p) implies (s.contains(p) || p == v) by {
            let w = choose|w: int| 0 <= w < r.len() && r[w] == p;
            if w > 0 {
                assert(s[w - 1] == p);
            }
        }
        assert forall|p: usize| s.contains(p) || p == v implies r.contains(p) by {
            if s.contains(p) {
                let w = choose|w: int| 0 <= w < s.len() && s[w] == p;
                assert(r[w + 1] == p);
            } else {
                assert(r[0] == v);
            }
        }
    } else if v == s[0] {
        assert forall|p: usize| s.contains(p) || p == v implies r.contains(p) by {
            if p == v {
                assert(s[0] == p);
            }
        }
    } else {
        let t = s.drop_first();
        assert forall|a: int, b: int| 0 <= a < b < t.len() implies t[a] < t[b] by {
            assert(t[a] == s[a + 1] && t[b] == s[b + 1]);
        }
        lemma_sorted_insert(t, v);
        let rt = sorted_insert(t, v);
        assert forall|a: int, b: int| 0 <= a < b < r.len() implies r[a] < r[b] by {
            if a > 0 {
                assert(r[a] == rt[a - 1] && r[b] == rt[b - 1]);
            } else {
                assert(r[b] == rt[b - 1]);
                assert(rt.contains(rt[b - 1]));
                if t.contains(rt[b - 1]) {
                    let w = choose|w: int| 0 <= w < t.len() && t[w] == rt[b - 1];
                    assert(s[0] < s[w + 1]);
                }
            }
        }
        assert forall|p: usize| r.contains(p) implies (s.contains(p) || p == v) by {
            let w = choose|w: int| 0 <= w < r.len() && r[w] == p;
            if w > 0 {
                assert(rt[w - 1] == p);
                assert(rt.contains(p));
                if t.contains(p) {
                    let u = choose|u: int| 0 <= u < t.len() && t[u] == p;
                    assert(s[u + 1] == p);
                }
            }
        }
        assert forall|p: usize| s.contains(p) || p == v implies r.contains(p) by {
            assert(rt.contains(p) <==> (t.contains(p) || p == v));
            if s.contains(p) {
                let w = choose|w: int| 0 <= w < s.len() && s[w] == p;
                if w == 0 {
                    assert(r[0] == p);
                } else {
                    assert(0 <= w - 1 < t.len() && t[w - 1] == p);
                    assert(t.contains(p));
                    let u = choose|u: int| 0 <= u < rt.len() && rt[u] == p;
                    assert(r[u + 1] == p);
                }
            } else {
                let u = choose|u: int| 0 <= u < rt.len() && rt[u] == p;
                assert(r[u + 1] == p);
            }
        }
    }
}

/// The wrong set is strictly ascending, free of duplicates, and holds
/// exactly the positions among the first `i` answers with any missed point.
pub proof fn lemma_student_wrong_sorted(subs: Seq<SubEntry>, key: Seq<KeyEntry>, i: int)
    ensures
        forall|a: int, b: int|
            0 <= a < b < student_wrong(subs, key, i).len() ==> student_wrong(subs, key, i)[a]
                < student_wrong(subs, key, i)[b],
        forall|p: usize|
            student_wrong(subs, key, i).contains(p) <==> exists|j: int|
                0 <= j < i && (#[trigger] subs[j]).position == p && lookup_missed(key, subs[j])
                    > 0,
    decreases i,
{
    if i > 0 {
        lemma_student_wrong_sorted(subs, key, i - 1);
        let prev = student_wrong(subs, key, i - 1);
        let cur = student_wrong(subs, key, i);
        if lookup_missed(key, subs[i - 1]) > 0 {
            lemma_sorted_insert(prev, subs[i - 1].position);
        }
        assert forall|p: usize| cur.contains(p) implies exists|j: int|
            0 <= j < i && (#[trigger] subs[j]).position == p && lookup_missed(key, subs[j])
                > 0 by {
            if prev.contains(p) {
                let j = choose|j: int|
                    0 <= j < i - 1 && (#[trigger] subs[j]).position == p && lookup_missed(
                        key,
                        subs[j],
                    ) > 0;
                assert(0 <= j < i && subs[j].position == p && lookup_missed(key, subs[j]) > 0);
            } else {
                assert(subs[i - 1].position == p && lookup_missed(key, subs[i - 1]) > 0);
            }
        }
        assert forall|p: usize|
            (exists|j: int|
                0 <= j < i && (#[trigger] subs[j]).position == p && lookup_missed(key, subs[j])
                    > 0) implies cur.contains(p) by {
            let j = choose|j: int|
                0 <= j < i && (#[trigger] subs[j]).position == p && lookup_missed(key, subs[j])
                    > 0;
            if lookup_missed(key, subs[i - 1]) > 0 {
                assert(cur == sorted_insert(prev, subs[i - 1].position));
                if j < i - 1 {
                    assert(prev.contains(p));
                    assert(sorted_insert(prev, subs[i - 1].position).contains(p));
                } else {
                    assert(p == subs[i - 1].position);
                    assert(sorted_insert(prev, subs[i - 1].position).contains(p));
                }
            } else {
                assert(cur == prev);
                assert(j < i - 1);
                assert(prev.contains(p));
            }
        }
    }
}

/// A student's score: the quiz total minus the missed points, floored at
/// zero.
pub open spec fn student_score(subs: Seq<SubEntry>, key: Seq<KeyEntry>, total: nat) -> int {
    sat_sub(total as int, student_missed(subs, key, subs.len() as int) as int)
}

proof fn lemma_key_lookup_cong(k1: Seq<KeyEntry>, k2: Seq<KeyEntry>, pos: usize)
    requires
        crate::codec::key_views(k1) == crate::codec::key_views(k2),
    ensures
        key_lookup(k1, pos) is Some <==> key_lookup(k2, pos) is Some,
        key_lookup(k1, pos) matches Some(e1) ==> key_lookup(k2, pos) matches Some(e2)
            && crate::codec::key_entry_view(e1) == crate::codec::key_entry_view(e2),
    decreases k1.len(),
{
    assert(crate::codec::key_views(k1).len() == k1.len());
    assert(crate::codec::key_views(k2).len() == k2.len());
    if k1.len() > 0 {
        assert(crate::codec::key_views(k1)[0] == crate::codec::key_entry_view(k1[0]));
        assert(crate::codec::key_views(k2)[0] == crate::codec::key_entry_view(k2[0]));
        assert(k1[0].position == k2[0].position);
        if k1[0].position != pos {
            assert(crate::codec::key_views(k1.drop_first()) =~= crate::codec::key_views(
                k2.drop_first(),
            )) by {
                assert forall|j: int|
                    0 <= j < k1.drop_first().len() implies crate::codec::key_views(
                    k1.drop_first(),
                )[j] == crate::codec::key_views(k2.drop_first())[j] by {
                    assert(crate::codec::key_views(k1)[j + 1] == crate::codec::key_entry_view(
                        k1[j + 1],
                    ));
                    assert(crate::codec::key_views(k2)[j + 1] == crate::codec::key_entry_view(
                        k2[j + 1],
                    ));
                }
            }
            lemma_key_lookup_cong(k1.drop_first(), k2.drop_first(), pos);
        }
    }
}

/// Grading goes by content alone: identical submissions graded against an
/// identical key yield identical missed counts and identical wrong sets,
/// however many times the documents are loaded and graded.
pub proof fn lemma_grading_deterministic(
    subs1: Seq<SubEntry>,
    subs2: Seq<SubEntry>,
    k1: Seq<KeyEntry>,
    k2: Seq<KeyEntry>,
    i: int,
)
    requires
        crate::codec::subs_view(subs1) == crate::codec::subs_view(subs2),
        crate::codec::key_views(k1) == crate::codec::key_views(k2),
        i <= subs1.len(),
    ensures
        student_missed(subs1, k1, i) == student_missed(subs2, k2, i),
        student_wrong(subs1, k1, i) == student_wrong(subs2, k2, i),
    decreases i,
{
    assert(crate::codec::subs_view(subs1).len() == subs1.len());
    assert(crate::codec::subs_view(subs2).len() == subs2.len());
    if i > 0 {
        lemma_grading_deterministic(subs1, subs2, k1, k2, i - 1);
        let s1 = subs1[i - 1];
        let s2 = subs2[i - 1];
        assert(crate::codec::subs_view(subs1)[i - 1] == crate::codec::sub_view(s1));
        assert(crate::codec::subs_view(subs2)[i - 1] == crate::codec::sub_view(s2));
        assert(s1.position == s2.position);
        assert(crate::md::frags_view(s1.letters@) == crate::md::frags_view(s2.letters@));
        lemma_key_lookup_cong(k1, k2, s1.position);
        assert(lookup_missed(k1, s1) == lookup_missed(k2, s2)) by {
            match key_lookup(k1, s1.position) {
                Some(e1) => {
                    let e2 = key_lookup(k2, s2.position)->Some_0;
                    assert(crate::codec::key_entry_view(e1) == crate::codec::key_entry_view(e2));
                    assert(crate::md::frags_view(e1.letters@) == crate::md::frags_view(
                        e2.letters@,
                    ));
                    assert(e1.matching == e2.matching);
                    assert(entry_missed(crate::md::frags_view(s1.letters@), e1) == entry_missed(
                        crate::md::frags_view(s2.letters@),
                        e2,
                    ));
                },
                None => {},
            }
        }
    }
}

/// Whether `v` holds a string with exactly the characters of `s`.
fn contains_str(v: &Vec<String>, s: &str) -> (r: bool)
    ensures
        r == frags_view(v@).contains(s@),
{
    let n = v.len();
    let mut i: usize = 0;
    while i < n
        invariant
            i <= n,
            n == v@.len(),
            forall|j: int| 0 <= j < i ==> v@[j]@ != s@,
        decreases n - i,
    {
        if str_eq(v[i].as_str(), s) {
            assert(frags_view(v@)[i as int] == s@);
            return true;
        }
        i += 1;
    }
    proof {
        if frags_view(v@).contains(s@) {
            let j = choose|j: int| 0 <= j < v@.len() && frags_view(v@)[j] == s@;
            assert(v@[j]@ == s@);
        }
    }
    false
}

/// Whether the two lists hold the same strings in the same order.
fn vec_str_eq(a: &Vec<String>, b: &Vec<String>) -> (r: bool)
    ensures
        r == (frags_view(a@) == frags_view(b@)),
{
    let n = a.len();
    if n != b.len() {
        proof {
            assert(frags_view(a@).len() != frags_view(b@).len());
        }
        return false;
    }
    let mut i: usize = 0;
    while i < n
        invariant
            i <= n,
            n == a@.len(),
            n == b@.len(),
            forall|j: int| 0 <= j < i ==> a@[j]@ == b@[j]@,
        decreases n - i,
    {
        if !str_eq(a[i].as_str(), b[i].as_str()) {
            assert(frags_view(a@)[i as int] != frags_view(b@)[i as int]);
            return false;
        }
        i += 1;
    }
    proof {
        assert(frags_view(a@) =~= frags_view(b@));
    }
    true
}

/// Splitting a sorted list at the first position not below `v` names the
/// insertion's result.
proof fn lemma_sorted_insert_at(s: Seq<usize>, v: usize, k: int)
    requires
        0 <= k <= s.len(),
        forall|j: int| 0 <= j < k ==> s[j] < v,
        k < s.len() ==> s[k] >= v,
    ensures
        sorted_insert(s, v) == (if k < s.len() && s[k] == v {
            s
        } else {
            s.take(k) + seq![v] + s.skip(k)
        }),
    decreases k,
{
    if k == 0 {
        if s.len() == 0 {
            assert(sorted_insert(s, v) =~= s.take(0) + seq![v] + s.skip(0));
        } else if v < s[0] {
            assert(sorted_insert(s, v) =~= s.take(0) + seq![v] + s.skip(0));
        }
    } else {
        assert(s[0] < v);
        let t = s.drop_first();
        assert forall|j: int| 0 <= j < k - 1 implies t[j] < v by {
            assert(t[j] == s[j + 1]);
        }
        assert(k - 1 < t.len() ==> t[k - 1] >= v);
        lemma_sorted_insert_at(t, v, k - 1);
        if k < s.len() && s[k] == v {
            assert(t[k - 1] == v);
            assert(sorted_insert(s, v) =~= s);
        } else {
            assert(seq![s[0]] + (t.take(k - 1) + seq![v] + t.skip(k - 1)) =~= s.take(k) + seq![v]
                + s.skip(k));
        }
    }
}

/// Adds a wrong position to the ascending duplicate-free list.
fn insert_wrong(w: &mut Vec<usize>, v: usize)
    ensures
        final(w)@ == sorted_insert(old(w)@, v),
{
    let n = w.len();
    let mut k: usize = 0;
    while k < n && w[k] < v
        invariant
            k <= n,
            n == w@.len(),
            w@ == old(w)@,
            forall|j: int| 0 <= j < k ==> w@[j] < v,
        decreases n - k,
    {
        k += 1;
    }
    proof {
        lemma_sorted_insert_at(w@, v, k as int);
    }
    if k < n && w[k] == v {
        return ;
    }
    w.insert(k, v);
    proof {
        assert(w@ =~= old(w)@.take(k as int) + seq![v] + old(w)@.skip(k as int));
    }
}

/// Decrements `score` by one, floored at zero.
fn dec_score(score: usize) -> (r: usize)
    ensures
        r as int == sat_sub(score as int, 1),
{
    if score > 0 {
        score - 1
    } else {
        0
    }
}

impl Class {
    /// Grades every student against the key: the score is the quiz total
    /// minus the missed points (floored at zero), and the wrong set is the
    /// ascending duplicate-free list of every question position with any
    /// missed point. Every position a submission references must exist in
    /// the key.
    pub fn grade(&mut self, answers: &Answers)
        requires
            spec_total(answers.answers@) <= usize::MAX,
            forall|s: int, j: int|
                0 <= s < old(self).students@.len() && 0 <= j
                    < old(self).students@[s].answers@.len() ==> key_lookup(
                    answers.answers@,
                    (#[trigger] old(self).students@[s].answers@[j]).position,
                ) is Some,
        ensures
            final(self).description == old(self).description,
            final(self).students == old(self).students,
            final(self).total == spec_total(answers.answers@),
            final(self).questions == answers.answers@.len(),
            final(self).scores@.len() == old(self).students@.len(),
            forall|i: int|
                0 <= i < final(self).scores@.len() ==> {
                    let row = #[trigger] final(self).scores@[i];
                    let st = old(self).students@[i];
                    &&& row.name@ == st.name@
                    &&& row.score as int == student_score(
                        st.answers@,
                        answers.answers@,
                        spec_total(answers.answers@),
                    )
                    &&& row.wrong@ == student_wrong(
                        st.answers@,
                        answers.answers@,
                        st.answers@.len() as int,
                    )
                },
    {
        let total = answers.total();
        self.total = total;
        self.questions = answers.questions();
        let ghost key = answers.answers@;
        let mut scores: Vec<ScoreRow> = Vec::new();
        let ns = self.students.len();
        let mut s: usize = 0;
        while s < ns
            invariant
                s <= ns,
                ns == self.students@.len(),
                total == spec_total(key),
                key == answers.answers@,
                forall|t: int, j: int|
                    0 <= t < self.students@.len() && 0 <= j < self.students@[t].answers@.len()
                        ==> key_lookup(
                        key,
                        (#[trigger] self.students@[t].answers@[j]).position,
                    ) is Some,
                scores@.len() == s,
                forall|i: int|
                    0 <= i < s ==> {
                        let row = #[trigger] scores@[i];
                        let st = self.students@[i];
                        &&& row.name@ == st.name@
                        &&& row.score as int == student_score(st.answers@, key, total as nat)
                        &&& row.wrong@ == student_wrong(st.answers@, key, st.answers@.len() as int)
                    },
            decreases ns - s,
        {
            let student = &self.students[s];
            let subs = &student.answers;
            let nq = subs.len();
            let mut score: usize = total;
            let mut wrong: Vec<usize> = Vec::new();
            let mut j: usize = 0;
            while j < nq
                invariant
                    j <= nq,
                    nq == subs@.len(),
                    key == answers.answers@,
                    subs@ == self.students@[s as int].answers@,
                    s < self.students@.len(),
                    ns == self.students@.len(),
                    total == spec_total(key),
                    forall|t: int, jj: int|
                        0 <= t < self.students@.len() && 0 <= jj
                            < self.students@[t].answers@.len() ==> key_lookup(
                            key,
                            (#[trigger] self.students@[t].answers@[jj]).position,
                        ) is Some,
                    score as int == sat_sub(total as int, student_missed(subs@, key, j as int) as int),
                    wrong@ == student_wrong(subs@, key, j as int),
                decreases nq - j,
            {
                let sub = &subs[j];
                assert(key_lookup(key, sub.position) is Some);
                let entry = match answers.get(sub.position) {
                    Some(e) => e,
                    None => vstd::pervasive::unreached(),
                };
                let ghost kl = frags_view(entry.letters@);
                let ghost missed_before = student_missed(subs@, key, j as int);
                let ghost sv = frags_view(sub.letters@);
                let mut any: bool = false;
                if entry.matching {
                    let m = sub.letters.len();
                    let mut i: usize = 0;
                    while i < m
                        invariant
                            i <= m,
                            m == sub.letters@.len(),
                            sv == frags_view(sub.letters@),
                            kl == frags_view(entry.letters@),
                            score as int == sat_sub(
                                total as int,
                                missed_before as int + mm(sv, kl, i as int) as int,
                            ),
                            any == (mm(sv, kl, i as int) > 0),
                        decreases m - i,
                    {
                        let miss = if i >= entry.letters.len() {
                            true
                        } else {
                            !str_eq(sub.letters[i].as_str(), entry.letters[i].as_str())
                        };
                        if miss {
                            score = dec_score(score);
                            any = true;
                        }
                        proof {
                            assert(sv[i as int] == sub.letters@[i as int]@);
                            if i < entry.letters@.len() {
                                assert(kl[i as int] == entry.letters@[i as int]@);
                            }
                            assert(mm(sv, kl, i + 1) == mm(sv, kl, i as int) + (if i
                                >= kl.len() || sv[i as int] != kl[i as int] {
                                1nat
                            } else {
                                0nat
                            }));
                        }
                        i += 1;
                    }
                    proof {
                        assert(entry_missed(sv, *entry) == mm(sv, kl, sv.len() as int));
                    }
                } else if entry.letters.len() == 1 {
                    if !vec_str_eq(&sub.letters, &entry.letters) {
                        score = dec_score(score);
                        any = true;
                    }
                    proof {
                        assert(entry_missed(sv, *entry) == (if sv == kl {
                            0nat
                        } else {
                            1nat
                        }));
                    }
                } else {
                    let m = sub.letters.len();
                    let mut i: usize = 0;
                    while i < m
                        invariant
                            i <= m,
                            m == sub.letters@.len(),
                            sv == frags_view(sub.letters@),
                            kl == frags_view(entry.letters@),
                            score as int == sat_sub(
                                total as int,
                                missed_before as int + cni(sv, kl, i as int) as int,
                            ),
                            any == (cni(sv, kl, i as int) > 0),
                        decreases m - i,
                    {
                        if !contains_str(&entry.letters, sub.letters[i].as_str()) {
                            score = dec_score(score);
                            any = true;
                        }
                        proof {
                            assert(sv[i as int] == sub.letters@[i as int]@);
                        }
                        i += 1;
                    }
                    let mk = entry.letters.len();
                    let mut i2: usize = 0;
                    while i2 < mk
                        invariant
                            i2 <= mk,
                            mk == entry.letters@.len(),
                            m == sub.letters@.len(),
                            sv == frags_view(sub.letters@),
                            kl == frags_view(entry.letters@),
                            score as int == sat_sub(
                                total as int,
                                missed_before as int + cni(sv, kl, m as int) as int + cni(kl, sv, i2 as int) as int,
                            ),
                            any == (cni(sv, kl, m as int) + cni(kl, sv, i2 as int) > 0),
                        decreases mk - i2,
                    {
                        if !contains_str(&sub.letters, entry.letters[i2].as_str()) {
                            score = dec_score(score);
                            any = true;
                        }
                        proof {
                            assert(kl[i2 as int] == entry.letters@[i2 as int]@);
                        }
                        i2 += 1;
                    }
                    proof {
                        assert(entry_missed(sv, *entry) == cni(sv, kl, sv.len() as int) + cni(
                            kl,
                            sv,
                            kl.len() as int,
                        ));
                    }
                }
                if any {
                    insert_wrong(&mut wrong, sub.position);
                }
                proof {
                    assert(lookup_missed(key, subs@[j as int]) == entry_missed(sv, *entry));
                    assert(student_missed(subs@, key, j + 1) == student_missed(subs@, key, j as int)
                        + lookup_missed(key, subs@[j as int]));
                    assert(student_wrong(subs@, key, j + 1) == (if lookup_missed(
                        key,
                        subs@[j as int],
                    ) > 0 {
                        sorted_insert(student_wrong(subs@, key, j as int), subs@[j as int].position)
                    } else {
                        student_wrong(subs@, key, j as int)
                    }));
                }
                j += 1;
            }
            scores.push(ScoreRow { name: student.name.clone(), score, wrong });
            s += 1;
        }
        self.scores = scores;
    }
}

} // verus!
