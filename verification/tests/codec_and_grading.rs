use std::collections::BTreeMap;

use quixote::grade::Class;
use quixote::key::Answers;
use quixote::letters::letters;

#[test]
fn letter_labels() {
    assert_eq!(letters(0), "A");
    assert_eq!(letters(1), "B");
    assert_eq!(letters(25), "Z");
    assert_eq!(letters(26), "AA");
    assert_eq!(letters(27), "AB");
    assert_eq!(letters(51), "AZ");
    assert_eq!(letters(52), "BA");
    assert_eq!(letters(701), "ZZ");
    assert_eq!(letters(702), "AAA");
}

#[test]
fn key_round_trip() {
    let json = "{\"1\":[[\"B\"],false],\"2\":[[\"A\",\"C\"],true],\"3\":[[],false]}";
    let answers = Answers::from(json).unwrap();
    assert_eq!(answers.answers.len(), 3);
    assert_eq!(answers.answers[0].position, 1);
    assert_eq!(answers.answers[0].letters, vec!["B"]);
    assert!(!answers.answers[0].matching);
    assert_eq!(answers.answers[1].letters, vec!["A", "C"]);
    assert!(answers.answers[1].matching);
    assert!(answers.answers[2].letters.is_empty());
    assert_eq!(answers.json(), json);
}

#[test]
fn key_escapes_round_trip() {
    let json = "{\"1\":[[\"a\\\"b\",\"c\\\\d\"],false]}";
    let answers = Answers::from(json).unwrap();
    assert_eq!(answers.answers[0].letters, vec!["a\"b", "c\\d"]);
    assert_eq!(answers.json(), json);
}

#[test]
fn key_format_is_a_plain_json_position_map() {
    let answers = Answers::from("{\"1\":[[\"B\"],false],\"2\":[[\"A\",\"C\"],true]}").unwrap();
    let reparsed: BTreeMap<usize, (Vec<String>, bool)> =
        serde_json::from_str(&answers.json()).unwrap();
    let mut expected = BTreeMap::new();
    expected.insert(1usize, (vec![String::from("B")], false));
    expected.insert(2usize, (vec![String::from("A"), String::from("C")], true));
    assert_eq!(reparsed, expected);
}

#[test]
fn malformed_key_is_rejected() {
    assert!(Answers::from("").is_err());
    assert!(Answers::from("{").is_err());
    assert!(Answers::from("{\"1\":[[\"B\"],false]").is_err());
    assert!(Answers::from("{\"x\":[[\"B\"],false]}").is_err());
    assert!(Answers::from("[1,2]").is_err());
}

#[test]
fn malformed_submission_is_rejected() {
    assert!(Class::from("").is_err());
    assert!(Class::from("{}").is_err());
    assert!(Class::from("{\"description\":\"d\"}").is_err());
    assert!(Class::from("{\"students\":{}}").is_err());
}

#[test]
fn submission_fields_in_either_order() {
    let a = Class::from("{\"description\":\"d\",\"students\":{\"s\":{\"1\":[\"A\"]}}}").unwrap();
    let b = Class::from("{\"students\":{\"s\":{\"1\":[\"A\"]}},\"description\":\"d\"}").unwrap();
    assert_eq!(a.description, "d");
    assert_eq!(b.description, "d");
    assert_eq!(a.students.len(), 1);
    assert_eq!(b.students.len(), 1);
    assert_eq!(a.students[0].name, "s");
    assert_eq!(a.students[0].answers[0].position, 1);
    assert_eq!(a.students[0].answers[0].letters, vec!["A"]);
}

fn grade_one(key: &str, letters_sub: &[&str]) -> (usize, usize, Vec<usize>) {
    let answers = Answers::from(key).unwrap();
    let mut sub = String::from("{\"description\":\"d\",\"students\":{\"s\":{\"1\":[");
    for (i, l) in letters_sub.iter().enumerate() {
        if i > 0 {
            sub.push(',');
        }
        sub.push('"');
        sub.push_str(l);
        sub.push('"');
    }
    sub.push_str("]}}}");
    let mut class = Class::from(&sub).unwrap();
    class.grade(&answers);
    (class.total, class.scores[0].score, class.scores[0].wrong.clone())
}

#[test]
fn single_answer_grading() {
    // Correct single answer misses nothing.
    let (total, score, wrong) = grade_one("{\"1\":[[\"B\"],false]}", &["B"]);
    assert_eq!((total, score), (1, 1));
    assert!(wrong.is_empty());
    // A wrong single answer misses one point and flags the question.
    let (total, score, wrong) = grade_one("{\"1\":[[\"B\"],false]}", &["A"]);
    assert_eq!((total, score), (1, 0));
    assert_eq!(wrong, vec![1]);
}

#[test]
fn multi_answer_grading() {
    // Missing one correct letter misses one point.
    let (total, score, wrong) = grade_one("{\"1\":[[\"A\",\"C\"],false]}", &["A"]);
    assert_eq!((total, score), (2, 1));
    assert_eq!(wrong, vec![1]);
    // One extra incorrect letter misses one point.
    let (total, score, wrong) = grade_one("{\"1\":[[\"A\",\"C\"],false]}", &["A", "B", "C"]);
    assert_eq!((total, score), (2, 1));
    assert_eq!(wrong, vec![1]);
    // The exact set misses nothing.
    let (total, score, wrong) = grade_one("{\"1\":[[\"A\",\"C\"],false]}", &["A", "C"]);
    assert_eq!((total, score), (2, 2));
    assert!(wrong.is_empty());
}

#[test]
fn matching_grading() {
    // One wrong pair misses exactly one point.
    let (total, score, wrong) = grade_one("{\"1\":[[\"B\",\"A\",\"C\"],true]}", &["B", "A", "D"]);
    assert_eq!((total, score), (3, 2));
    assert_eq!(wrong, vec![1]);
    // All pairs right misses nothing.
    let (total, score, wrong) = grade_one("{\"1\":[[\"B\",\"A\",\"C\"],true]}", &["B", "A", "C"]);
    assert_eq!((total, score), (3, 3));
    assert!(wrong.is_empty());
}

#[test]
fn grading_is_idempotent() {
    let key = "{\"1\":[[\"B\"],false],\"2\":[[\"A\",\"C\"],true]}";
    let sub = "{\"description\":\"d\",\"students\":{\"s\":{\"1\":[\"B\"],\"2\":[\"A\",\"A\"]}}}";
    let answers1 = Answers::from(key).unwrap();
    let answers2 = Answers::from(key).unwrap();
    let mut class1 = Class::from(sub).unwrap();
    let mut class2 = Class::from(sub).unwrap();
    class1.grade(&answers1);
    class2.grade(&answers2);
    class1.grade(&answers1);
    let rows1: Vec<(String, usize, Vec<usize>)> =
        class1.scores.iter().map(|r| (r.name.clone(), r.score, r.wrong.clone())).collect();
    let rows2: Vec<(String, usize, Vec<usize>)> =
        class2.scores.iter().map(|r| (r.name.clone(), r.score, r.wrong.clone())).collect();
    assert_eq!(rows1, rows2);
}

#[test]
fn wrong_set_is_ascending_even_for_unordered_submissions() {
    let answers = Answers::from("{\"1\":[[\"A\"],false],\"2\":[[\"B\"],false],\"3\":[[\"C\"],false]}")
        .unwrap();
    // Positions arrive out of order; the wrong set still comes out ascending.
    let sub = "{\"description\":\"d\",\"students\":{\"s\":{\"3\":[\"X\"],\"1\":[\"X\"],\"2\":[\"B\"]}}}";
    let mut class = Class::from(sub).unwrap();
    class.grade(&answers);
    assert_eq!(class.scores[0].score, 1);
    assert_eq!(class.scores[0].wrong, vec![1, 3]);
}

#[test]
fn report_breaks_score_ties_by_ascending_name() {
    let key = "{\"1\":[[\"A\"],false]}";
    let sub = "{\"description\":\"Tie\",\"students\":{\
        \"zeta\":{\"1\":[\"A\"]},\
        \"alpha\":{\"1\":[\"A\"]},\
        \"mike\":{\"1\":[\"A\"]}}}";
    let answers = Answers::from(key).unwrap();
    let mut class = Class::from(sub).unwrap();
    class.grade(&answers);
    let report = class.markdown();
    let a = report.find("alpha|1|100.0%|A|").unwrap();
    let m = report.find("mike|1|100.0%|A|").unwrap();
    let z = report.find("zeta|1|100.0%|A|").unwrap();
    assert!(a < m && m < z);
}

#[test]
fn report_ranks_by_descending_score() {
    let key = "{\"1\":[[\"A\"],false],\"2\":[[\"B\"],false]}";
    let sub = "{\"description\":\"Exam\",\"students\":{\
        \"low\":{\"1\":[\"B\"],\"2\":[\"A\"]},\
        \"top\":{\"1\":[\"A\"],\"2\":[\"B\"]},\
        \"mid\":{\"1\":[\"A\"],\"2\":[\"A\"]}}}";
    let answers = Answers::from(key).unwrap();
    let mut class = Class::from(sub).unwrap();
    class.grade(&answers);
    let report = class.markdown();
    let top = report.find("top|2|100.0%|A|").unwrap();
    let mid = report.find("mid|1|50.0%|F|2").unwrap();
    let low = report.find("low|0|0.0%|F|1, 2").unwrap();
    assert!(top < mid && mid < low);
    assert!(report.contains("High score|2|100.0%|A"));
    assert!(report.contains("Low score|0|0.0%|F"));
    assert!(report.contains("Mean score|1|50.0%|F"));
    assert!(report.contains("A|1|33.3%|"));
    assert!(report.contains("F|2|66.7%|"));
}
