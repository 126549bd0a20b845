//! Classification of one raw question block: the last fragment is the answer
//! list; each of its items is classified by its markup as a correct option,
//! an incorrect option, or a matching left/right pair, and the question's
//! shape is fixed here once and never re-inferred downstream.

use vstd::prelude::*;

use crate::text::{chars_of, spec_trim, str_eq, string_of, sub_chars, trim_chars};

verus! {

/// The closed classification of a question, fixed at parse time.
#[derive(Clone, Copy, PartialEq, Eq, Structural, Debug)]
pub enum Shape {
    /// Exactly one correct option.
    Single,
    /// Two or more correct options.
    Multi,
    /// The fixed `True`/`False` pair, positive token first.
    Boolean,
    /// Left items paired with right-hand target strings.
    Matching,
}

/// One answer option: its text, its correctness flag, and, for matching
/// questions only, the target string of the pair.
#[derive(Debug)]
pub struct Answer {
    pub content: String,
    pub is_correct: bool,
    pub target: Option<String>,
}

/// One quiz question: prompt fragments, ordered answers, and the shape
/// derived structurally at parse time.
#[derive(Debug)]
pub struct Question {
    pub content: Vec<String>,
    pub answers: Vec<Answer>,
    pub shape: Shape,
}

/// A parse error of one document.
#[derive(Clone, Copy, PartialEq, Eq, Structural, Debug)]
pub enum ParseError {
    /// A question block whose answer list holds no list items.
    NoAnswerItems,
    /// A block where some items carry a matching target and others do not.
    MixedMatching,
    /// A non-matching block with no option marked correct.
    NoCorrectAnswer,
}

/// The characters of an answer, with its correctness flag and target.
pub open spec fn answer_view(a: Answer) -> (Seq<char>, bool, Option<Seq<char>>) {
    (
        a.content@,
        a.is_correct,
        match a.target {
            Some(t) => Some(t@),
            None => None,
        },
    )
}

/// Whether the matching-pair separator stands at position `i` of `s`.
pub open spec fn sep_at(s: Seq<char>, i: int) -> bool {
    &&& 0 <= i
    &&& i + 4 <= s.len()
    &&& s[i] == ' '
    &&& s[i + 1] == '='
    &&& s[i + 2] == '>'
    &&& s[i + 3] == ' '
}

/// The first position at or after `i` where the matching-pair separator
/// stands in `s`, or -1 when there is none.
pub open spec fn first_sep_from(s: Seq<char>, i: int) -> int
    decreases s.len() - i,
{
    if i < 0 || i + 4 > s.len() {
        -1
    } else if sep_at(s, i) {
        i
    } else {
        first_sep_from(s, i + 1)
    }
}

/// What one trimmed answer-list item classifies to: its text, whether it is a
/// correct option, and its matching target if the item is a matching pair.
///
/// An item `- left => right` is a matching pair; an item wrapped entirely in
/// strong emphasis (`* **text**`) is a correct option; any other item is an
/// incorrect option with its two-character list marker removed.
pub open spec fn spec_answer(t: Seq<char>) -> (Seq<char>, bool, Option<Seq<char>>) {
    if t.len() >= 2 && t[0] == '-' && t[1] == ' ' && first_sep_from(t, 2) >= 0 {
        let k = first_sep_from(t, 2);
        (t.subrange(2, k), true, Some(t.subrange(k + 4, t.len() as int)))
    } else if t.len() >= 6 && t[0] == '*' && t[1] == ' ' && t[2] == '*' && t[3] == '*' && t[t.len()
        - 2] == '*' && t[t.len() - 1] == '*' {
        (spec_trim(t.subrange(4, t.len() - 2)), true, None)
    } else if t.len() >= 2 {
        (spec_trim(t.subrange(2, t.len() as int)), false, None)
    } else {
        (Seq::empty(), false, None)
    }
}

/// Classifies one trimmed answer-list item.
fn answer_from_item(t: &Vec<char>) -> (r: Answer)
    ensures
        answer_view(r) == spec_answer(t@),
{
    let n = t.len();
    if n >= 2 && t[0] == '-' && t[1] == ' ' {
        let mut sep: Option<usize> = None;
        if n >= 6 {
            let mut i: usize = 2;
            while i <= n - 4
                invariant
                    2 <= i <= n,
                    n == t@.len(),
                    n >= 6,
                    match sep {
                        Some(k) => 2 <= k && k + 4 <= n && sep_at(t@, k as int) && first_sep_from(
                            t@,
                            2,
                        ) == k,
                        None => first_sep_from(t@, 2) == first_sep_from(t@, i as int),
                    },
                decreases n - i,
            {
                if sep.is_none() {
                    if t[i] == ' ' && t[i + 1] == '=' && t[i + 2] == '>' && t[i + 3] == ' ' {
                        proof {
                            assert(sep_at(t@, i as int));
                            assert(first_sep_from(t@, i as int) == i as int);
                        }
                        sep = Some(i);
                    } else {
                        proof {
                            assert(!sep_at(t@, i as int));
                        }
                    }
                }
                i += 1;
            }
            proof {
                if sep is None {
                    assert(i + 4 > n);
                    assert(first_sep_from(t@, i as int) == -1);
                }
            }
        }
        if let Some(k) = sep {
            let content = string_of(sub_chars(t.as_slice(), 2, k).as_slice());
            let target = string_of(sub_chars(t.as_slice(), k + 4, n).as_slice());
            return Answer { content, is_correct: true, target: Some(target) };
        }
        assert(first_sep_from(t@, 2) == -1);
    }
    if n >= 6 && t[0] == '*' && t[1] == ' ' && t[2] == '*' && t[3] == '*' && t[n - 2] == '*' && t[n
        - 1] == '*' {
        let inner = trim_chars(&sub_chars(t.as_slice(), 4, n - 2));
        let content = string_of(inner.as_slice());
        Answer { content, is_correct: true, target: None }
    } else if n >= 2 {
        let inner = trim_chars(&sub_chars(t.as_slice(), 2, n));
        let content = string_of(inner.as_slice());
        Answer { content, is_correct: false, target: None }
    } else {
        Answer { content: String::new(), is_correct: false, target: None }
    }
}

/// The classified answers of an item list, before any boolean reordering.
pub open spec fn base_answers(items: Seq<Seq<char>>) -> Seq<(Seq<char>, bool, Option<Seq<char>>)> {
    items.map_values(|s: Seq<char>| spec_answer(s))
}

/// Whether the two texts are the two boolean tokens, in either order.
pub open spec fn is_bool_pair(a: Seq<char>, b: Seq<char>) -> bool {
    (a == "True"@ && b == "False"@) || (a == "False"@ && b == "True"@)
}

/// The classified answers of an item list, in canonical order: when the items
/// form a boolean pair listed negative-first, the pair is reversed so the
/// positive token comes first.
pub open spec fn spec_answers_of_items(items: Seq<Seq<char>>) -> Seq<
    (Seq<char>, bool, Option<Seq<char>>),
> {
    let base = base_answers(items);
    if items.len() == 2 && !any_target_upto(base, 2) && is_bool_pair(base[0].0, base[1].0)
        && base[0].0 == "False"@ {
        seq![base[1], base[0]]
    } else {
        base
    }
}

/// How many of the classified answers are marked correct, among the first `i`.
pub open spec fn correct_upto(ans: Seq<(Seq<char>, bool, Option<Seq<char>>)>, i: int) -> nat
    decreases i,
{
    if i <= 0 {
        0
    } else {
        correct_upto(ans, i - 1) + (if ans[i - 1].1 {
            1nat
        } else {
            0nat
        })
    }
}

/// Whether any classified answer in the first `i` carries a matching target.
pub open spec fn any_target_upto(ans: Seq<(Seq<char>, bool, Option<Seq<char>>)>, i: int) -> bool {
    exists|j: int| 0 <= j < i && ans[j].2 is Some
}

/// Whether all classified answers in the first `i` carry a matching target.
pub open spec fn all_target_upto(ans: Seq<(Seq<char>, bool, Option<Seq<char>>)>, i: int) -> bool {
    forall|j: int| 0 <= j < i ==> ans[j].2 is Some
}

/// The shape the classified answers give the question.
pub open spec fn spec_shape_of_items(items: Seq<Seq<char>>) -> Shape {
    let base = base_answers(items);
    if any_target_upto(base, items.len() as int) {
        Shape::Matching
    } else if items.len() == 2 && is_bool_pair(base[0].0, base[1].0) {
        Shape::Boolean
    } else if correct_upto(base, items.len() as int) == 1 {
        Shape::Single
    } else {
        Shape::Multi
    }
}

/// The classification error of an item list, if any: no items at all, a
/// mixture of matching and non-matching items, or no correct option.
pub open spec fn spec_classify_err(items: Seq<Seq<char>>) -> Option<ParseError> {
    let base = base_answers(items);
    let n = items.len() as int;
    if n == 0 {
        Some(ParseError::NoAnswerItems)
    } else if any_target_upto(base, n) && !all_target_upto(base, n) {
        Some(ParseError::MixedMatching)
    } else if !any_target_upto(base, n) && correct_upto(base, n) == 0 {
        Some(ParseError::NoCorrectAnswer)
    } else {
        None
    }
}

/// Well-formedness of a question: at least one answer; matching questions
/// have a target on every answer and no other shape has any; a boolean
/// question is exactly the positive/negative token pair; the count of correct
/// answers agrees with the shape.
pub open spec fn question_wf(q: &Question) -> bool {
    let ans = q.answers@;
    &&& ans.len() > 0
    &&& (q.shape == Shape::Matching ==> forall|i: int|
        0 <= i < ans.len() ==> ans[i].target is Some && ans[i].is_correct)
    &&& (q.shape != Shape::Matching ==> forall|i: int| 0 <= i < ans.len() ==> ans[i].target is None)
    &&& (q.shape != Shape::Matching ==> exists|i: int| 0 <= i < ans.len() && ans[i].is_correct)
    &&& (q.shape == Shape::Boolean ==> ans.len() == 2 && ans[0].content@ == "True"@
        && ans[1].content@ == "False"@)
}

/// The views of a question's classified answers.
pub open spec fn answers_view(ans: Seq<Answer>) -> Seq<(Seq<char>, bool, Option<Seq<char>>)> {
    ans.map_values(|a: Answer| answer_view(a))
}

/// The view of a whole question: its prompt fragments, its classified
/// answers, and its shape.
pub type QuestionView = (Seq<Seq<char>>, Seq<(Seq<char>, bool, Option<Seq<char>>)>, Shape);

/// What a question carries, at the level of character sequences.
pub open spec fn question_view(q: Question) -> QuestionView {
    (crate::md::frags_view(q.content@), answers_view(q.answers@), q.shape)
}

proof fn lemma_correct_upto_positive(ans: Seq<(Seq<char>, bool, Option<Seq<char>>)>, i: int)
    requires
        correct_upto(ans, i) > 0,
        i <= ans.len(),
    ensures
        exists|j: int| 0 <= j < i && ans[j].1,
    decreases i,
{
    if i > 0 {
        if ans[i - 1].1 {
        } else {
            lemma_correct_upto_positive(ans, i - 1);
        }
    }
}

proof fn lemma_correct_upto_zero(ans: Seq<(Seq<char>, bool, Option<Seq<char>>)>, i: int, j: int)
    requires
        correct_upto(ans, i) == 0,
        0 <= j < i,
    ensures
        !ans[j].1,
    decreases i,
{
    if j < i - 1 {
        lemma_correct_upto_zero(ans, i - 1, j);
    }
}

/// Classifies the items of a block's answer list into a question with the
/// given prompt fragments. Fails exactly when the list has no items, mixes
/// matching and non-matching items, or marks no option correct.
pub fn question_of_items(content: Vec<String>, items: &Vec<String>) -> (r: Result<
    Question,
    ParseError,
>)
    ensures
        match r {
            Result::Err(e) => spec_classify_err(crate::md::frags_view(items@)) == Some(e),
            Result::Ok(q) => {
                let iv = crate::md::frags_view(items@);
                &&& spec_classify_err(iv) is None
                &&& question_wf(&q)
                &&& q.content == content
                &&& q.shape == spec_shape_of_items(iv)
                &&& answers_view(q.answers@) == spec_answers_of_items(iv)
            },
        },
{
    let ghost iv = crate::md::frags_view(items@);
    let n = items.len();
    if n == 0 {
        return Err(ParseError::NoAnswerItems);
    }
    let mut answers: Vec<Answer> = Vec::new();
    let mut i: usize = 0;
    while i < n
        invariant
            i <= n,
            n == items@.len(),
            iv == crate::md::frags_view(items@),
            answers@.len() == i,
            forall|j: int| 0 <= j < i ==> answer_view(answers@[j]) == spec_answer(iv[j]),
        decreases n - i,
    {
        let cs = chars_of(items[i].as_str());
        let a = answer_from_item(&cs);
        answers.push(a);
        assert(iv[i as int] == items@[i as int]@);
        i += 1;
    }
    proof {
        assert(answers_view(answers@) =~= base_answers(iv));
    }
    let ghost base = base_answers(iv);

    let mut any_target = false;
    let mut all_target = true;
    let mut ncorrect: usize = 0;
    let mut k: usize = 0;
    while k < n
        invariant
            k <= n,
            n == answers@.len(),
            answers_view(answers@) == base,
            n == base.len(),
            any_target == any_target_upto(base, k as int),
            all_target == all_target_upto(base, k as int),
            ncorrect == correct_upto(base, k as int),
            ncorrect <= k,
        decreases n - k,
    {
        assert(answer_view(answers@[k as int]) == base[k as int]);
        if answers[k].target.is_some() {
            any_target = true;
        } else {
            all_target = false;
        }
        if answers[k].is_correct {
            ncorrect += 1;
        }
        assert(any_target_upto(base, k + 1) == (any_target_upto(base, k as int) || base[k as int].2
            is Some));
        assert(all_target_upto(base, k + 1) == (all_target_upto(base, k as int) && base[k as int].2
            is Some));
        k += 1;
    }

    if any_target && !all_target {
        return Err(ParseError::MixedMatching);
    }
    if !any_target && ncorrect == 0 {
        return Err(ParseError::NoCorrectAnswer);
    }

    if any_target {
        // All items carry targets: a matching question in item order.
        let q = Question { content, answers, shape: Shape::Matching };
        proof {
            assert forall|j: int| 0 <= j < q.answers@.len() implies q.answers@[j].target is Some
                && q.answers@[j].is_correct by {
                assert(answer_view(q.answers@[j]) == base[j]);
                assert(base[j].2 is Some);
                assert(base[j] == spec_answer(iv[j]));
            }
            assert(spec_shape_of_items(iv) == Shape::Matching);
            assert(spec_answers_of_items(iv) == base);
        }
        return Ok(q);
    }

    proof {
        lemma_correct_upto_positive(base, n as int);
        let w = choose|j: int| 0 <= j < n && base[j].1;
        assert(answer_view(answers@[w]) == base[w]);
        assert forall|j: int| 0 <= j < answers@.len() implies answers@[j].target is None by {
            assert(answer_view(answers@[j]) == base[j]);
            assert(!(base[j].2 is Some));
        }
    }

    let is_bool = n == 2 && ((str_eq(answers[0].content.as_str(), "True") && str_eq(
        answers[1].content.as_str(),
        "False",
    )) || (str_eq(answers[0].content.as_str(), "False") && str_eq(
        answers[1].content.as_str(),
        "True",
    )));

    if is_bool {
        assert(is_bool_pair(base[0].0, base[1].0));
        let mut answers = answers;
        if str_eq(answers[0].content.as_str(), "False") {
            let first = answers.remove(0);
            answers.push(first);
            proof {
                assert(answers_view(answers@) =~= seq![base[1], base[0]]);
            }
        }
        let q = Question { content, answers, shape: Shape::Boolean };
        proof {
            assert(spec_shape_of_items(iv) == Shape::Boolean);
            assert(q.answers@[0].content@ == "True"@);
            assert(q.answers@[1].content@ == "False"@);
            assert(exists|i: int|
                0 <= i < q.answers@.len() && q.answers@[i].is_correct) by {
                let w = choose|j: int| 0 <= j < base.len() && base[j].1;
                assert(answer_view(q.answers@[0]) == base[0] || answer_view(q.answers@[0])
                    == base[1]);
                if answers_view(q.answers@) == base {
                    assert(answer_view(q.answers@[w]) == base[w]);
                } else {
                    assert(answer_view(q.answers@[1 - w]) == base[w]);
                }
            }
        }
        return Ok(q);
    }

    let shape = if ncorrect == 1 {
        Shape::Single
    } else {
        Shape::Multi
    };
    let q = Question { content, answers, shape };
    proof {
        assert(spec_shape_of_items(iv) == shape);
        assert(spec_answers_of_items(iv) == base);
    }
    Ok(q)
}

} // verus!
