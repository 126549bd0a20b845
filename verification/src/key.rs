//! The answer key: the serializable record of correct answer identities per
//! question, produced alongside a quiz and independently loadable for
//! grading.

use vstd::prelude::*;

use crate::letters::{letters, spec_letters};
use crate::md::frags_view;
use crate::question::Answer;
use crate::quiz::{matching_data_ok, quiz_wf, Quiz};
use crate::render::{ann_doc, ann_line_marked, append_ann_entry, marked_letters};

verus! {

/// One answer key entry: the 1-based question position in rendered order,
/// the correct letters (or the full ordered key for a matching question),
/// and the matching flag.
#[derive(Debug)]
pub struct KeyEntry {
    pub position: usize,
    pub letters: Vec<String>,
    pub matching: bool,
}

/// Quiz answer key: one entry per rendered question position, plus, when
/// generated from a quiz, the annotated Markdown document.
#[derive(Debug)]
pub struct Answers {
    pub answers: Vec<KeyEntry>,
    pub markdown: Option<String>,
}

/// The entries stand in strictly increasing question positions.
pub open spec fn key_sorted(s: Seq<KeyEntry>) -> bool {
    forall|i: int, j: int|
        #![trigger s[i].position, s[j].position]
        0 <= i < j < s.len() ==> s[i].position < s[j].position
}

/// The first entry of `s` at question position `pos`, if any.
pub open spec fn key_lookup(s: Seq<KeyEntry>, pos: usize) -> Option<KeyEntry>
    decreases s.len(),
{
    if s.len() == 0 {
        None
    } else if s[0].position == pos {
        Some(s[0])
    } else {
        key_lookup(s.drop_first(), pos)
    }
}

/// The total points of the entries from position `i` on: one point per
/// correct letter (matching questions contribute one point per pair).
pub open spec fn total_from(s: Seq<KeyEntry>, i: int) -> nat
    decreases s.len() - i,
{
    if i < 0 || i >= s.len() {
        0
    } else {
        s[i].letters@.len() + total_from(s, i + 1)
    }
}

/// The total points of an answer key.
pub open spec fn spec_total(s: Seq<KeyEntry>) -> nat {
    total_from(s, 0)
}

/// The letters of the answers marked correct among the first `i`, lettered
/// in order.
pub open spec fn correct_letters(ans: Seq<Answer>, i: int) -> Seq<Seq<char>>
    decreases i,
{
    if i <= 0 {
        Seq::empty()
    } else {
        let prev = correct_letters(ans, i - 1);
        if ans[i - 1].is_correct {
            prev.push(spec_letters((i - 1) as nat))
        } else {
            prev
        }
    }
}

/// The letters marked correct in the annotated rendering of a choice
/// question are exactly the letters its answer key entry records. (A
/// matching question's annotated lines take their marks verbatim from the
/// key list itself.)
pub proof fn lemma_annotated_marks_match_key(ans: Seq<Answer>, i: int)
    ensures
        marked_letters(ans, i) == correct_letters(ans, i),
    decreases i,
{
    if i > 0 {
        lemma_annotated_marks_match_key(ans, i - 1);
        let j = (i - 1) as nat;
        let a = ans[i - 1];
        if a.is_correct {
            assert(ann_line_marked(j, a));
        } else {
            reveal_strlit("    * [X] **");
            reveal_strlit("    * [ ] ");
            reveal_strlit("**\n\n");
            reveal_strlit("\n\n");
            if ann_line_marked(j, a) {
                let marked = "    * [X] **"@ + spec_letters(j) + ". "@ + a.content@ + "**\n\n"@;
                let unmarked = "    * [ ] "@ + spec_letters(j) + ". "@ + a.content@ + "\n\n"@;
                assert(marked.len() == unmarked.len() + 4);
                assert(false);
            }
        }
    }
}

/// A copy of a list of strings.
fn clone_strings(v: &Vec<String>) -> (r: Vec<String>)
    ensures
        frags_view(r@) == frags_view(v@),
{
    let n = v.len();
    let mut r: Vec<String> = Vec::new();
    let mut i: usize = 0;
    while i < n
        invariant
            i <= n,
            n == v@.len(),
            r@.len() == i,
            forall|j: int| 0 <= j < i ==> r@[j]@ == v@[j]@,
        decreases n - i,
    {
        r.push(v[i].clone());
        i += 1;
    }
    proof {
        assert(frags_view(r@) =~= frags_view(v@));
    }
    r
}

impl Answers {
    /// Builds the answer key of a quiz together with the annotated Markdown
    /// document: entry `i+1` records the letters of question `i`'s correct
    /// answers (or the matching key list), and the annotated document marks
    /// exactly those letters.
    pub(crate) fn new(quiz: &Quiz) -> (r: Answers)
        requires
            quiz_wf(quiz),
        ensures
            r.answers@.len() == quiz.questions@.len(),
            key_sorted(r.answers@),
            forall|i: int|
                0 <= i < r.answers@.len() ==> (#[trigger] r.answers@[i]).position == i + 1,
            forall|i: int|
                0 <= i < r.answers@.len() ==> (#[trigger] r.answers@[i]).matching == (
                quiz.questions@[i].1 is Some),
            forall|i: int|
                0 <= i < r.answers@.len() ==> frags_view((#[trigger] r.answers@[i]).letters@)
                    == match quiz.questions@[i].1 {
                    Some(ck) => frags_view(ck.1@),
                    None => correct_letters(
                        quiz.questions@[i].0.answers@,
                        quiz.questions@[i].0.answers@.len() as int,
                    ),
                },
            r.markdown matches Some(m) && m@ == ann_doc(
                quiz.questions@,
                quiz.questions@.len() as int,
            ),
    {
        let n = quiz.questions.len();
        let mut entries: Vec<KeyEntry> = Vec::new();
        let mut i: usize = 0;
        while i < n
            invariant
                i <= n,
                n == quiz.questions@.len(),
                quiz_wf(quiz),
                entries@.len() == i,
                forall|k: int| 0 <= k < i ==> (#[trigger] entries@[k]).position == k + 1,
                forall|k: int|
                    0 <= k < i ==> (#[trigger] entries@[k]).matching == (quiz.questions@[k].1
                        is Some),
                forall|k: int|
                    0 <= k < i ==> frags_view((#[trigger] entries@[k]).letters@)
                        == match quiz.questions@[k].1 {
                        Some(ck) => frags_view(ck.1@),
                        None => correct_letters(
                            quiz.questions@[k].0.answers@,
                            quiz.questions@[k].0.answers@.len() as int,
                        ),
                    },
            decreases n - i,
        {
            let e = &quiz.questions[i];
            let entry = match &e.1 {
                Some(ck) => KeyEntry {
                    position: i + 1,
                    letters: clone_strings(&ck.1),
                    matching: true,
                },
                None => {
                    let ans = &e.0.answers;
                    let m = ans.len();
                    let mut ls: Vec<String> = Vec::new();
                    let mut j: usize = 0;
                    proof {
                        assert(frags_view(ls@) =~= correct_letters(ans@, 0));
                    }
                    while j < m
                        invariant
                            j <= m,
                            m == ans@.len(),
                            frags_view(ls@) == correct_letters(ans@, j as int),
                        decreases m - j,
                    {
                        if ans[j].is_correct {
                            ls.push(letters(j));
                            proof {
                                assert(frags_view(ls@) =~= correct_letters(ans@, j + 1));
                            }
                        }
                        j += 1;
                    }
                    KeyEntry { position: i + 1, letters: ls, matching: false }
                },
            };
            entries.push(entry);
            i += 1;
        }

        let mut out = String::new();
        let mut k: usize = 0;
        while k < n
            invariant
                k <= n,
                n == quiz.questions@.len(),
                quiz_wf(quiz),
                out@ == ann_doc(quiz.questions@, k as int),
            decreases n - k,
        {
            proof {
                let e = quiz.questions@[k as int];
                if e.1 is Some {
                    let ck = e.1->Some_0;
                    assert(matching_data_ok(e.0.answers@, ck.0@, ck.1@));
                    crate::quiz::lemma_matching_key_len(e.0.answers@, ck.0@, ck.1@);
                }
            }
            append_ann_entry(&mut out, k, &quiz.questions[k]);
            proof {
                assert(out@ =~= ann_doc(quiz.questions@, k + 1));
            }
            k += 1;
        }

        Answers { answers: entries, markdown: Some(out) }
    }

    /// The total number of points in the quiz: one per correct letter.
    pub(crate) fn total(&self) -> (r: usize)
        requires
            spec_total(self.answers@) <= usize::MAX,
        ensures
            r == spec_total(self.answers@),
    {
        let n = self.answers.len();
        let mut sum: usize = 0;
        let mut i: usize = 0;
        while i < n
            invariant
                i <= n,
                n == self.answers@.len(),
                spec_total(self.answers@) <= usize::MAX,
                sum + total_from(self.answers@, i as int) == spec_total(self.answers@),
            decreases n - i,
        {
            proof {
                assert(total_from(self.answers@, i as int) == self.answers@[i as int].letters@.len()
                    + total_from(self.answers@, i + 1));
            }
            sum = sum + self.answers[i].letters.len();
            i += 1;
        }
        sum
    }

    /// The number of questions on the quiz.
    pub(crate) fn questions(&self) -> (r: usize)
        ensures
            r == self.answers@.len(),
    {
        self.answers.len()
    }

    /// The key entry for a question position, if the key holds one.
    pub(crate) fn get(&self, position: usize) -> (r: Option<&KeyEntry>)
        ensures
            match r {
                Some(e) => key_lookup(self.answers@, position) == Some(*e),
                None => key_lookup(self.answers@, position) is None,
            },
    {
        let n = self.answers.len();
        let mut i: usize = 0;
        proof {
            assert(self.answers@.skip(0) =~= self.answers@);
        }
        while i < n
            invariant
                i <= n,
                n == self.answers@.len(),
                key_lookup(self.answers@, position) == key_lookup(
                    self.answers@.skip(i as int),
                    position,
                ),
            decreases n - i,
        {
            if self.answers[i].position == position {
                proof {
                    assert(self.answers@.skip(i as int)[0] == self.answers@[i as int]);
                }
                return Some(&self.answers[i]);
            }
            proof {
                assert(self.answers@.skip(i as int).drop_first() =~= self.answers@.skip(i + 1));
                assert(self.answers@.skip(i as int)[0] == self.answers@[i as int]);
            }
            i += 1;
        }
        proof {
            assert(self.answers@.skip(n as int).len() == 0);
        }
        None
    }

    /// The annotated Markdown content, present when the key was generated
    /// from a quiz.
    pub fn markdown(&self) -> (r: &Option<String>)
        ensures
            r == &self.markdown,
    {
        &self.markdown
    }
}

impl Quiz {
    /// Generates this quiz's answer key and annotated document.
    pub fn answers(&self) -> (r: Answers)
        requires
            quiz_wf(self),
        ensures
            r.answers@.len() == self.questions@.len(),
            key_sorted(r.answers@),
            forall|i: int|
                0 <= i < r.answers@.len() ==> (#[trigger] r.answers@[i]).position == i + 1,
            forall|i: int|
                0 <= i < r.answers@.len() ==> (#[trigger] r.answers@[i]).matching == (
                self.questions@[i].1 is Some),
            forall|i: int|
                0 <= i < r.answers@.len() ==> frags_view((#[trigger] r.answers@[i]).letters@)
                    == match self.questions@[i].1 {
                    Some(ck) => frags_view(ck.1@),
                    None => correct_letters(
                        self.questions@[i].0.answers@,
                        self.questions@[i].0.answers@.len() as int,
                    ),
                },
            r.markdown matches Some(m) && m@ == ann_doc(
                self.questions@,
                self.questions@.len() as int,
            ),
    {
        Answers::new(self)
    }
}

} // verus!
