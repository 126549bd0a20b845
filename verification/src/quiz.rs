//! Building one randomized quiz instance from a bank: question order and
//! per-question answer order are permuted (boolean questions keep their
//! canonical order), and every matching question gets a freshly shuffled
//! right-hand list together with the derived key.

use vstd::prelude::*;

use rand::seq::SliceRandom;

use vstd::multiset::Multiset;
use vstd::pervasive::unreached;
use vstd::pervasive::VecAdditionalExecFns;

use crate::bank::{bank_wf, Bank};
use crate::letters::{letters, spec_letters};
use crate::md::frags_view;
use crate::question::{answer_view, answers_view, question_wf, Answer, Question, Shape};

verus! {

/// Relies on `rand`'s `SliceRandom::shuffle`: an in-place Fisher-Yates
/// shuffle that only swaps elements in place, so whatever order comes out,
/// the multiset of elements (and hence the length) is unchanged.
#[verifier::external_body]
fn shuffle_vec<T>(v: &mut Vec<T>)
    ensures
        final(v)@.to_multiset() == old(v)@.to_multiset(),
        final(v)@.len() == old(v)@.len(),
{
    v.shuffle(&mut rand::rng())
}

/// `p` is a permutation of the positions `0 .. n`.
pub open spec fn is_perm(p: Seq<usize>, n: nat) -> bool {
    &&& p.len() == n
    &&& (forall|i: int| 0 <= i < p.len() ==> p[i] < n)
    &&& p.no_duplicates()
}

/// The positions `0 .. n` in order.
fn range_vec(n: usize) -> (r: Vec<usize>)
    ensures
        r@.len() == n,
        forall|i: int| 0 <= i < n ==> r@[i] == i as usize,
{
    let mut r: Vec<usize> = Vec::new();
    let mut i: usize = 0;
    while i < n
        invariant
            i <= n,
            r@.len() == i,
            forall|j: int| 0 <= j < i ==> r@[j] == j as usize,
        decreases n - i,
    {
        r.push(i);
        i += 1;
    }
    r
}

/// Every element of `a` is an element of `b` when the two hold the same
/// multiset.
proof fn lemma_multiset_elements<A>(a: Seq<A>, b: Seq<A>)
    requires
        a.to_multiset() == b.to_multiset(),
    ensures
        forall|i: int| 0 <= i < a.len() ==> b.contains(a[i]),
{
    broadcast use vstd::seq_lib::group_to_multiset_ensures;

    assert forall|i: int| 0 <= i < a.len() implies b.contains(a[i]) by {
        assert(a.contains(a[i]));
        assert(a.to_multiset().count(a[i]) > 0);
    }
}

/// A sequence holding the same multiset as `0 .. n` in order is a permutation
/// of those positions.
proof fn lemma_perm_from_range(s: Seq<usize>, r: Seq<usize>, n: nat)
    requires
        n <= usize::MAX,
        r.len() == n,
        forall|i: int| 0 <= i < n ==> r[i] == i as usize,
        s.to_multiset() == r.to_multiset(),
    ensures
        is_perm(s, n),
{
    broadcast use vstd::seq_lib::group_to_multiset_ensures;

    assert(s.len() == s.to_multiset().len());
    assert(r.len() == r.to_multiset().len());
    assert forall|i: int, j: int| 0 <= i < r.len() && 0 <= j < r.len() && i != j implies r[i]
        != r[j] by {
        assert(r[i] == i as usize);
        assert(r[j] == j as usize);
    }
    assert(r.no_duplicates());
    r.lemma_multiset_has_no_duplicates();
    s.lemma_multiset_has_no_duplicates_conv();
    lemma_multiset_elements(s, r);
    assert forall|i: int| 0 <= i < s.len() implies s[i] < n by {
        assert(r.contains(s[i]));
        let j = choose|j: int| 0 <= j < r.len() && r[j] == s[i];
        assert(s[i] == j as usize);
    }
}

/// Mapping both sides of a multiset equality keeps the mapped multisets
/// equal: a permutation of a sequence maps to a permutation of its image.
proof fn lemma_to_multiset_map<A, B>(s: Seq<A>, t: Seq<A>, f: spec_fn(A) -> B)
    requires
        s.to_multiset() == t.to_multiset(),
    ensures
        s.map_values(f).to_multiset() == t.map_values(f).to_multiset(),
    decreases s.len(),
{
    broadcast use vstd::seq_lib::group_to_multiset_ensures;
    broadcast use vstd::multiset::group_multiset_axioms;

    if s.len() == 0 {
        assert(s.len() == s.to_multiset().len());
        assert(t.len() == t.to_multiset().len());
        assert(s.map_values(f) =~= Seq::<B>::empty());
        assert(t.map_values(f) =~= Seq::<B>::empty());
    } else {
        let a = s[0];
        assert(s.contains(a));
        assert(t.to_multiset().count(a) > 0);
        assert(t.contains(a));
        let j = choose|j: int| 0 <= j < t.len() && t[j] == a;
        let s1 = s.remove(0);
        let t1 = t.remove(j);
        assert(s1.to_multiset() == s.to_multiset().remove(a));
        assert(t1.to_multiset() == t.to_multiset().remove(a));
        lemma_to_multiset_map(s1, t1, f);
        let ms = s.map_values(f);
        let mt = t.map_values(f);
        assert(ms.remove(0) =~= s1.map_values(f));
        assert(mt.remove(j) =~= t1.map_values(f));
        assert(ms.remove(0).to_multiset() == ms.to_multiset().remove(ms[0]));
        assert(mt.remove(j).to_multiset() == mt.to_multiset().remove(mt[j]));
        assert(ms[0] == f(a));
        assert(mt[j] == f(a));
        assert(ms.to_multiset().count(f(a)) > 0) by {
            assert(ms.contains(ms[0]));
        }
        assert(mt.to_multiset().count(f(a)) > 0) by {
            assert(mt.contains(mt[j]));
        }
        assert forall|x: B| ms.to_multiset().count(x) == mt.to_multiset().count(x) by {
            if x == f(a) {
                assert(ms.to_multiset().remove(f(a)).count(x) == ms.to_multiset().count(x) - 1);
                assert(mt.to_multiset().remove(f(a)).count(x) == mt.to_multiset().count(x) - 1);
            } else {
                assert(ms.to_multiset().remove(f(a)).count(x) == ms.to_multiset().count(x));
                assert(mt.to_multiset().remove(f(a)).count(x) == mt.to_multiset().count(x));
            }
        }
        assert(ms.to_multiset() =~= mt.to_multiset());
    }
}

/// A copy of an answer with the same text, flag and target.
fn clone_answer(a: &Answer) -> (r: Answer)
    ensures
        answer_view(r) == answer_view(*a),
{
    let target = match &a.target {
        Some(t) => Some(t.clone()),
        None => None,
    };
    Answer { content: a.content.clone(), is_correct: a.is_correct, target }
}

/// Two questions carrying the same prompt fragments, the same answers in the
/// same order, and the same shape.
pub open spec fn question_view_eq(a: Question, b: Question) -> bool {
    &&& frags_view(a.content@) == frags_view(b.content@)
    &&& answers_view(a.answers@) == answers_view(b.answers@)
    &&& a.shape == b.shape
}

/// Well-formedness carries over between questions with equal views.
proof fn lemma_view_eq_wf(a: Question, b: Question)
    requires
        question_view_eq(a, b),
        question_wf(&b),
    ensures
        question_wf(&a),
{
    let av = answers_view(a.answers@);
    let bv = answers_view(b.answers@);
    assert(av.len() == a.answers@.len());
    assert(bv.len() == b.answers@.len());
    assert forall|i: int| 0 <= i < a.answers@.len() implies answer_view(a.answers@[i])
        == answer_view(b.answers@[i]) by {
        assert(av[i] == bv[i]);
    }
    if a.shape != Shape::Matching {
        let w = choose|w: int| 0 <= w < b.answers@.len() && b.answers@[w].is_correct;
        assert(answer_view(a.answers@[w]) == answer_view(b.answers@[w]));
        assert(a.answers@[w].is_correct);
    }
}

/// A copy of a question: the quiz owns a snapshot, so later changes to the
/// bank cannot affect an already-built quiz.
fn clone_question(q: &Question) -> (r: Question)
    ensures
        question_view_eq(r, *q),
{
    let mut content: Vec<String> = Vec::new();
    let mut j: usize = 0;
    while j < q.content.len()
        invariant
            j <= q.content@.len(),
            content@.len() == j,
            forall|k: int| 0 <= k < j ==> content@[k]@ == q.content@[k]@,
        decreases q.content@.len() - j,
    {
        content.push(q.content[j].clone());
        j += 1;
    }
    let mut answers: Vec<Answer> = Vec::new();
    let mut k: usize = 0;
    while k < q.answers.len()
        invariant
            k <= q.answers@.len(),
            answers@.len() == k,
            forall|m: int| 0 <= m < k ==> answer_view(answers@[m]) == answer_view(q.answers@[m]),
        decreases q.answers@.len() - k,
    {
        answers.push(clone_answer(&q.answers[k]));
        k += 1;
    }
    let r = Question { content, answers, shape: q.shape };
    proof {
        assert(frags_view(r.content@) =~= frags_view(q.content@));
        assert(answers_view(r.answers@) =~= answers_view(q.answers@));
    }
    r
}

/// The target string of each answer of a matching question.
pub open spec fn targets_view(ans: Seq<Answer>) -> Seq<Seq<char>> {
    ans.map_values(
        |a: Answer|
            match a.target {
                Some(t) => t@,
                None => Seq::<char>::empty(),
            },
    )
}

/// One rendered line of a matching question's right-hand list: the letter of
/// rendered position `i` followed by the target shown there.
pub open spec fn match_line(i: nat, t: Seq<char>) -> Seq<char> {
    "    - "@ + spec_letters(i) + ". "@ + t + "\n"@
}

/// The first `i` lines of a matching question's right-hand list under the
/// rendering permutation `p`: position `i` shows target `p[i]`.
pub open spec fn match_block_upto(ts: Seq<Seq<char>>, p: Seq<usize>, i: int) -> Seq<char>
    decreases i,
{
    if i <= 0 {
        Seq::empty()
    } else {
        match_block_upto(ts, p, i - 1) + match_line((i - 1) as nat, ts[p[i - 1] as int])
    }
}

/// The generated right-hand block and key of a matching question are
/// consistent: for some permutation `p` of the answer positions, the block
/// shows target `p[i]` at rendered position `i`, and the key maps each left
/// position `p[i]` to the letter of rendered position `i`.
pub open spec fn matching_data_ok(ans: Seq<Answer>, content: Seq<char>, key: Seq<String>) -> bool {
    exists|p: Seq<usize>|
        {
            &&& is_perm(p, ans.len())
            &&& content == match_block_upto(targets_view(ans), p, p.len() as int)
            &&& key.len() == ans.len()
            &&& (forall|i: int| 0 <= i < p.len() ==> key[p[i] as int]@ == spec_letters(i as nat))
        }
}

/// A consistent matching block carries one key letter per left position.
pub proof fn lemma_matching_key_len(ans: Seq<Answer>, content: Seq<char>, key: Seq<String>)
    requires
        matching_data_ok(ans, content, key),
    ensures
        key.len() == ans.len(),
{
    let p = choose|p: Seq<usize>|
        {
            &&& is_perm(p, ans.len())
            &&& content == match_block_upto(targets_view(ans), p, p.len() as int)
            &&& key.len() == ans.len()
            &&& (forall|i: int| 0 <= i < p.len() ==> key[p[i] as int]@ == spec_letters(i as nat))
        };
}

/// Builds the freshly shuffled right-hand list of a matching question and the
/// key mapping each left position to the letter of its target's rendered
/// position.
fn matching_block(ans: &Vec<Answer>) -> (res: (String, Vec<String>))
    requires
        forall|i: int| 0 <= i < ans@.len() ==> ans@[i].target is Some,
    ensures
        matching_data_ok(ans@, res.0@, res.1@),
{
    let n = ans.len();
    let ghost ts = targets_view(ans@);

    let mut idx = range_vec(n);
    let ghost before = idx@;
    shuffle_vec(&mut idx);
    proof {
        lemma_perm_from_range(idx@, before, n as nat);
    }
    let ghost p = idx@;

    let mut content = String::new();
    let mut i: usize = 0;
    proof {
        assert(content@ =~= match_block_upto(ts, p, 0));
    }
    while i < n
        invariant
            i <= n,
            n == ans@.len(),
            ts == targets_view(ans@),
            forall|m: int| 0 <= m < ans@.len() ==> (#[trigger] ans@[m]).target is Some,
            idx@ == p,
            is_perm(p, n as nat),
            content@ == match_block_upto(ts, p, i as int),
        decreases n - i,
    {
        content.append("    - ");
        let l = letters(i);
        content.append(l.as_str());
        content.append(". ");
        let t = idx[i];
        assert(t < n);
        assert(ans@[t as int].target is Some);
        match &ans[t].target {
            Some(s) => {
                content.append(s.as_str());
            },
            None => {
                unreached::<()>();
            },
        }
        content.append("\n");
        proof {
            assert(ts[p[i as int] as int] == match ans@[p[i as int] as int].target {
                Some(t) => t@,
                None => Seq::<char>::empty(),
            });
            assert(content@ =~= match_block_upto(ts, p, i + 1));
        }
        i += 1;
    }

    let mut key: Vec<String> = Vec::new();
    let mut j: usize = 0;
    while j < n
        invariant
            j <= n,
            key@.len() == j,
        decreases n - j,
    {
        key.push(String::new());
        j += 1;
    }
    let mut k: usize = 0;
    while k < n
        invariant
            k <= n,
            n == ans@.len(),
            idx@ == p,
            is_perm(p, n as nat),
            key@.len() == n,
            forall|m: int| 0 <= m < k ==> key@[p[m] as int]@ == spec_letters(m as nat),
        decreases n - k,
    {
        let pos = idx[k];
        assert(pos < n);
        key.set(pos, letters(k));
        proof {
            assert forall|m: int| 0 <= m < k + 1 implies key@[p[m] as int]@ == spec_letters(
                m as nat,
            ) by {
                if m < k {
                    assert(p[m] != p[k as int]);
                }
            }
        }
        k += 1;
    }

    proof {
        assert(is_perm(p, ans@.len()));
        assert(content@ == match_block_upto(targets_view(ans@), p, p.len() as int));
    }
    (content, key)
}

/// What a question contributes to a quiz regardless of ordering: its prompt
/// fragments, the multiset of its answers, and its shape.
pub open spec fn question_skeleton(q: Question) -> (
    Seq<Seq<char>>,
    Multiset<(Seq<char>, bool, Option<Seq<char>>)>,
    Shape,
) {
    (frags_view(q.content@), answers_view(q.answers@).to_multiset(), q.shape)
}

/// One quiz entry: a question and, for matching questions only, the rendered
/// right-hand block with its derived key.
pub open spec fn entry_wf(e: (Question, Option<(String, Vec<String>)>)) -> bool {
    &&& question_wf(&e.0)
    &&& (e.0.shape == Shape::Matching <==> e.1 is Some)
    &&& match e.1 {
        Some(ck) => matching_data_ok(e.0.answers@, ck.0@, ck.1@),
        None => true,
    }
}

/// Quiz: one randomization outcome over a snapshot of the bank's questions.
#[derive(Debug)]
pub struct Quiz {
    pub questions: Vec<(Question, Option<(String, Vec<String>)>)>,
}

/// Every entry of the quiz is well formed.
pub open spec fn quiz_wf(z: &Quiz) -> bool {
    forall|i: int| 0 <= i < z.questions@.len() ==> entry_wf(#[trigger] z.questions@[i])
}

impl Quiz {
    /// Builds one quiz instance from the given questions. With `shuffle`,
    /// question order and non-boolean answer order are permuted; without it,
    /// the quiz is an order-preserving copy. Either way the multiset of
    /// question skeletons is exactly that of the input, and every matching
    /// question gets a freshly permuted right-hand list with its derived key.
    pub(crate) fn new(qs: &Vec<Question>, shuffle: bool) -> (r: Quiz)
        requires
            forall|i: int| 0 <= i < qs@.len() ==> question_wf(&qs@[i]),
        ensures
            quiz_wf(&r),
            r.questions@.len() == qs@.len(),
            r.questions@.map_values(
                |e: (Question, Option<(String, Vec<String>)>)| question_skeleton(e.0),
            ).to_multiset() == qs@.map_values(|q: Question| question_skeleton(q)).to_multiset(),
            !shuffle ==> forall|i: int|
                0 <= i < qs@.len() ==> question_view_eq(
                    #[trigger] r.questions@[i].0,
                    qs@[i],
                ),
    {
        let n = qs.len();
        let mut order = range_vec(n);
        let ghost id_order = order@;
        if shuffle {
            shuffle_vec(&mut order);
            proof {
                lemma_perm_from_range(order@, id_order, n as nat);
            }
        } else {
            proof {
                assert(is_perm(order@, n as nat));
            }
        }
        let ghost p = order@;

        let mut entries: Vec<(Question, Option<(String, Vec<String>)>)> = Vec::new();
        let mut i: usize = 0;
        while i < n
            invariant
                i <= n,
                n == qs@.len(),
                order@ == p,
                is_perm(p, n as nat),
                id_order.len() == n,
                forall|k: int| 0 <= k < n ==> id_order[k] == k as usize,
                forall|k: int| 0 <= k < qs@.len() ==> question_wf(&qs@[k]),
                entries@.len() == i,
                forall|k: int| 0 <= k < i ==> entry_wf(#[trigger] entries@[k]),
                forall|k: int|
                    0 <= k < i ==> question_skeleton(#[trigger] entries@[k].0) == question_skeleton(
                        qs@[p[k] as int],
                    ),
                !shuffle ==> forall|k: int|
                    0 <= k < i ==> question_view_eq(#[trigger] entries@[k].0, qs@[k]),
                !shuffle ==> p == id_order,
            decreases n - i,
        {
            let src = order[i];
            assert(src < n);
            let mut q = clone_question(&qs[src]);
            proof {
                lemma_view_eq_wf(q, qs@[src as int]);
            }
            if shuffle {
                let is_boolean = matches!(q.shape, Shape::Boolean);
                if !is_boolean {
                    let ghost before_ans = q.answers@;
                    shuffle_vec(&mut q.answers);
                    proof {
                        lemma_to_multiset_map(
                            q.answers@,
                            before_ans,
                            |a: Answer| answer_view(a),
                        );
                        assert(answers_view(q.answers@) =~= q.answers@.map_values(
                            |a: Answer| answer_view(a),
                        ));
                        assert(answers_view(before_ans) =~= before_ans.map_values(
                            |a: Answer| answer_view(a),
                        ));
                        lemma_multiset_elements(q.answers@, before_ans);
                        assert forall|m: int|
                            0 <= m < q.answers@.len() implies (
                        q.shape == Shape::Matching ==> q.answers@[m].target is Some
                            && q.answers@[m].is_correct) && (q.shape != Shape::Matching
                            ==> q.answers@[m].target is None) by {
                            assert(before_ans.contains(q.answers@[m]));
                        }
                        if q.shape != Shape::Matching {
                            let w = choose|w: int|
                                0 <= w < before_ans.len() && before_ans[w].is_correct;
                            lemma_multiset_elements(before_ans, q.answers@);
                            assert(q.answers@.contains(before_ans[w]));
                        }
                        assert(question_wf(&q));
                    }
                }
            }
            let ghost qsnap = q;
            let e: (Question, Option<(String, Vec<String>)>) = if matches!(
                q.shape,
                Shape::Matching,
            ) {
                let (c, kk) = matching_block(&q.answers);
                (q, Some((c, kk)))
            } else {
                (q, None)
            };
            proof {
                assert(entry_wf(e));
                assert(question_skeleton(e.0) == question_skeleton(qs@[p[i as int] as int]));
            }
            entries.push(e);
            i += 1;
        }

        let r = Quiz { questions: entries };
        proof {
            let skel = |k: usize| question_skeleton(qs@[k as int]);
            let f = |e: (Question, Option<(String, Vec<String>)>)| question_skeleton(e.0);
            let g = |q: Question| question_skeleton(q);
            lemma_to_multiset_map(p, id_order, skel);
            assert(r.questions@.map_values(f) =~= p.map_values(skel));
            assert(qs@.map_values(g) =~= id_order.map_values(skel));
        }
        r
    }
}

/// Boolean questions are never reordered by answer-shuffling: in every
/// well-formed quiz a boolean question holds exactly the positive token
/// first and the negative token second, so every rendering shows the
/// positive token before the negative one.
pub proof fn lemma_boolean_order(z: &Quiz, i: int)
    requires
        quiz_wf(z),
        0 <= i < z.questions@.len(),
        z.questions@[i].0.shape == Shape::Boolean,
    ensures
        z.questions@[i].0.answers@.len() == 2,
        z.questions@[i].0.answers@[0].content@ == "True"@,
        z.questions@[i].0.answers@[1].content@ == "False"@,
{
    assert(entry_wf(z.questions@[i]));
}

impl Bank {
    /// Generates a quiz from the bank: a snapshot of its questions, permuted
    /// when `shuffle` is set, with a fresh right-hand list and key for every
    /// matching question.
    pub fn quiz(&self, shuffle: bool) -> (r: Quiz)
        requires
            bank_wf(self),
        ensures
            quiz_wf(&r),
            r.questions@.len() == self.questions@.len(),
            r.questions@.map_values(
                |e: (Question, Option<(String, Vec<String>)>)| question_skeleton(e.0),
            ).to_multiset() == self.questions@.map_values(
                |q: Question| question_skeleton(q),
            ).to_multiset(),
            !shuffle ==> forall|i: int|
                0 <= i < self.questions@.len() ==> question_view_eq(
                    #[trigger] r.questions@[i].0,
                    self.questions@[i],
                ),
    {
        Quiz::new(&self.questions, shuffle)
    }
}

} // verus!
