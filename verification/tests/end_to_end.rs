use quixote::bank::{Bank, BankError, Document};
use quixote::grade::Class;
use quixote::key::Answers;
use quixote::question::Shape;

fn doc(text: &str) -> Document {
    Document { path: String::from("test.md"), text: String::from(text) }
}

const TWO_QUESTIONS: &str = "\
Q1 prompt

* one
* **two**
* three
* four

---

Q2 prompt

* **True**
* False
";

#[test]
fn bank_parses_two_questions() {
    let bank = Bank::new(vec![doc(TWO_QUESTIONS)]).unwrap();
    assert_eq!(bank.questions.len(), 2);
    assert!(matches!(bank.questions[0].shape, Shape::Single));
    assert!(matches!(bank.questions[1].shape, Shape::Boolean));
    assert_eq!(bank.questions[1].answers[0].content, "True");
    assert_eq!(bank.questions[1].answers[1].content, "False");
}

#[test]
fn unshuffled_quiz_key_json() {
    let bank = Bank::new(vec![doc(TWO_QUESTIONS)]).unwrap();
    let quiz = bank.quiz(false);
    let answers = quiz.answers();
    assert_eq!(answers.json(), "{\"1\":[[\"B\"],false],\"2\":[[\"A\"],false]}");
}

#[test]
fn blank_quiz_markdown() {
    let bank = Bank::new(vec![doc(TWO_QUESTIONS)]).unwrap();
    let quiz = bank.quiz(false);
    let expected = "1. Q1 prompt\n\n    * [ ] A. one\n\n    * [ ] B. two\n\n    * [ ] C. three\n\n    * [ ] D. four\n\n2. Q2 prompt\n\n    * [ ] A. True\n\n    * [ ] B. False\n\n";
    assert_eq!(quiz.markdown(), expected);
}

#[test]
fn annotated_quiz_marks_correct_letters() {
    let bank = Bank::new(vec![doc(TWO_QUESTIONS)]).unwrap();
    let quiz = bank.quiz(false);
    let answers = quiz.answers();
    let md = answers.markdown().as_ref().unwrap().clone();
    let expected = "1. Q1 prompt\n\n    * [ ] A. one\n\n    * [X] **B. two**\n\n    * [ ] C. three\n\n    * [ ] D. four\n\n2. Q2 prompt\n\n    * [X] **A. True**\n\n    * [ ] B. False\n\n";
    assert_eq!(md, expected);
}

#[test]
fn end_to_end_grading_report() {
    let bank = Bank::new(vec![doc(TWO_QUESTIONS)]).unwrap();
    let quiz = bank.quiz(false);
    let json = quiz.answers().json();
    assert_eq!(json, "{\"1\":[[\"B\"],false],\"2\":[[\"A\"],false]}");
    let answers = Answers::from(&json).unwrap();
    let sub = "{\"description\":\"Quiz 1\",\"students\":{\"stu\":{\"1\":[\"B\"],\"2\":[\"B\"]}}}";
    let mut class = Class::from(sub).unwrap();
    class.grade(&answers);
    assert_eq!(class.total, 2);
    assert_eq!(class.questions, 2);
    assert_eq!(class.scores.len(), 1);
    assert_eq!(class.scores[0].name, "stu");
    assert_eq!(class.scores[0].score, 1);
    assert_eq!(class.scores[0].wrong, vec![2]);
    let report = class.markdown();
    let expected = "# Quiz 1\n\n\
        Name|Score|Percent|Grade|Questions\n-|-:|-:|-|-\n\
        stu|1|50.0%|F|2\n\
        \n\
        Description|Value|Percent|Grade\n-|-:|-:|-\n\
        Number of students|1||\n\
        Number of questions|2||\n\
        Total points|2||\n\
        High score|1|50.0%|F\n\
        Low score|1|50.0%|F\n\
        Mean score|1|50.0%|F\n\
        A|0|0.0%|\n\
        B|0|0.0%|\n\
        C|0|0.0%|\n\
        D|0|0.0%|\n\
        F|1|100.0%|\n";
    assert_eq!(report, expected);
}

#[test]
fn shuffled_quiz_preserves_questions() {
    let bank = Bank::new(vec![doc(TWO_QUESTIONS)]).unwrap();
    let quiz = bank.quiz(true);
    assert_eq!(quiz.questions.len(), 2);
    let mut bank_prompts: Vec<String> = bank
        .questions
        .iter()
        .map(|q| q.content.join("\n"))
        .collect();
    let mut quiz_prompts: Vec<String> = quiz
        .questions
        .iter()
        .map(|(q, _)| q.content.join("\n"))
        .collect();
    bank_prompts.sort();
    quiz_prompts.sort();
    assert_eq!(bank_prompts, quiz_prompts);
    for (q, _) in &quiz.questions {
        let mut bank_match = None;
        for bq in &bank.questions {
            if bq.content == q.content {
                bank_match = Some(bq);
            }
        }
        let bq = bank_match.unwrap();
        let mut a: Vec<(String, bool)> =
            q.answers.iter().map(|x| (x.content.clone(), x.is_correct)).collect();
        let mut b: Vec<(String, bool)> =
            bq.answers.iter().map(|x| (x.content.clone(), x.is_correct)).collect();
        a.sort();
        b.sort();
        assert_eq!(a, b);
    }
}

#[test]
fn boolean_questions_keep_positive_token_first() {
    let mut docs = Vec::new();
    docs.push(doc("Is it?\n\n* **True**\n* False\n"));
    let bank = Bank::new(docs).unwrap();
    for _ in 0..20 {
        let quiz = bank.quiz(true);
        for (q, _) in &quiz.questions {
            assert!(matches!(q.shape, Shape::Boolean));
            assert_eq!(q.answers[0].content, "True");
            assert_eq!(q.answers[1].content, "False");
        }
    }
}

#[test]
fn boolean_listed_negative_first_is_reversed() {
    let bank = Bank::new(vec![doc("Really?\n\n* False\n* **True**\n")]).unwrap();
    assert_eq!(bank.questions[0].answers[0].content, "True");
    assert!(bank.questions[0].answers[0].is_correct);
    assert_eq!(bank.questions[0].answers[1].content, "False");
    assert!(!bank.questions[0].answers[1].is_correct);
}

#[test]
fn empty_inputs_are_an_error() {
    match Bank::new(Vec::new()) {
        Err(BankError::NoInputs) => {}
        _ => panic!("expected the no-inputs error"),
    }
}

#[test]
fn block_without_answer_items_is_an_error() {
    match Bank::new(vec![doc("Just a paragraph with no list at all.")]) {
        Err(BankError::Documents(errs)) => {
            assert_eq!(errs.len(), 1);
            assert_eq!(errs[0].path, "test.md");
        }
        _ => panic!("expected a per-document error"),
    }
}

#[test]
fn mixed_matching_items_are_an_error() {
    match Bank::new(vec![doc("Mixed.\n\n- left => right\n- plain option\n")]) {
        Err(BankError::Documents(errs)) => {
            assert!(matches!(errs[0].error, quixote::question::ParseError::MixedMatching));
        }
        _ => panic!("expected a mixed-matching error"),
    }
}

#[test]
fn no_correct_option_is_an_error() {
    match Bank::new(vec![doc("None right.\n\n* one\n* two\n")]) {
        Err(BankError::Documents(errs)) => {
            assert!(matches!(errs[0].error, quixote::question::ParseError::NoCorrectAnswer));
        }
        _ => panic!("expected a no-correct-answer error"),
    }
}

#[test]
fn multi_fragment_prompt_is_joined_with_indentation() {
    let text = "First para\n\nSecond para\n\n* **x**\n* y\n";
    let bank = Bank::new(vec![doc(text)]).unwrap();
    let quiz = bank.quiz(false);
    let expected =
        "1. First para\n\n   Second para\n\n    * [ ] A. x\n\n    * [ ] B. y\n\n";
    assert_eq!(quiz.markdown(), expected);
}

#[test]
fn score_never_goes_below_zero() {
    let answers = Answers::from("{\"1\":[[\"A\",\"C\"],false]}").unwrap();
    let sub = "{\"description\":\"d\",\"students\":{\"s\":{\"1\":[\"X\",\"Y\",\"Z\",\"W\"]}}}";
    let mut class = Class::from(sub).unwrap();
    class.grade(&answers);
    assert_eq!(class.total, 2);
    assert_eq!(class.scores[0].score, 0);
    assert_eq!(class.scores[0].wrong, vec![1]);
}

#[test]
fn matching_question_quiz_and_full_marks() {
    let text = "Match these.\n\n- alpha => 1\n- beta => 2\n- gamma => 3\n";
    let bank = Bank::new(vec![doc(text)]).unwrap();
    assert!(matches!(bank.questions[0].shape, Shape::Matching));
    let quiz = bank.quiz(false);
    let (_, block) = &quiz.questions[0];
    let (content, key) = block.as_ref().unwrap();
    assert_eq!(key.len(), 3);
    assert!(content.contains("    - A. "));
    assert!(content.contains("    - B. "));
    assert!(content.contains("    - C. "));
    let answers = quiz.answers();
    assert!(answers.answers[0].matching);
    let json = answers.json();
    let loaded = Answers::from(&json).unwrap();
    // A submission copying the key letters exactly scores every pair.
    let mut sub = String::from("{\"description\":\"d\",\"students\":{\"s\":{\"1\":[");
    for (i, letter) in loaded.answers[0].letters.iter().enumerate() {
        if i > 0 {
            sub.push(',');
        }
        sub.push('"');
        sub.push_str(letter);
        sub.push('"');
    }
    sub.push_str("]}}}");
    let mut class = Class::from(&sub).unwrap();
    class.grade(&loaded);
    assert_eq!(class.total, 3);
    assert_eq!(class.scores[0].score, 3);
    assert!(class.scores[0].wrong.is_empty());
}
