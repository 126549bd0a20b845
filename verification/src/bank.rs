//! The question bank: questions parsed from every input document, with parse
//! failures collected across all documents and reported together. Everything
//! a document yields is pinned to `events_of`, the named tokenizer stream of
//! its prepared text.

use vstd::prelude::*;

use crate::md::{
    events_of, events_view, frags_view, items_of_events, md_events, segment_blocks, spec_blocks,
    spec_items,
};
use crate::question::{
    question_of_items, question_view, question_wf, spec_answers_of_items, spec_classify_err,
    spec_shape_of_items, ParseError, Question, QuestionView,
};
use crate::text::{chars_of, spec_trim, string_of, trim_chars};

verus! {

/// One input document: where it came from and its full text.
pub struct Document {
    pub path: String,
    pub text: String,
}

/// The parse failure of one document, attributed to its path.
#[derive(Debug)]
pub struct DocError {
    pub path: String,
    pub error: ParseError,
}

/// Why a bank could not be built: no input documents at all, or parse
/// failures, one per failing document, collected across all documents.
#[derive(Debug)]
pub enum BankError {
    NoInputs,
    Documents(Vec<DocError>),
}

/// Question bank.
#[derive(Debug)]
pub struct Bank {
    pub questions: Vec<Question>,
}

/// Every question of the bank is well formed.
pub open spec fn bank_wf(b: &Bank) -> bool {
    forall|i: int| 0 <= i < b.questions@.len() ==> question_wf(&b.questions@[i])
}

/// The items of a raw block's answer list: the top-level list items of its
/// last fragment's event stream.
pub open spec fn block_items(b: Seq<Seq<char>>) -> Seq<Seq<char>>
    recommends
        b.len() > 0,
{
    spec_items(events_of(b[b.len() - 1]))
}

/// Why a raw block fails to classify, if it does: no fragments at all, or a
/// classification error of its answer-list items.
pub open spec fn block_err(b: Seq<Seq<char>>) -> Option<ParseError> {
    if b.len() == 0 {
        Some(ParseError::NoAnswerItems)
    } else {
        spec_classify_err(block_items(b))
    }
}

/// The question a raw block classifies to: all fragments but the last as the
/// prompt, the last fragment's items as the answers.
pub open spec fn block_question(b: Seq<Seq<char>>) -> QuestionView {
    (
        b.take(b.len() - 1),
        spec_answers_of_items(block_items(b)),
        spec_shape_of_items(block_items(b)),
    )
}

/// A document's text as handed to the tokenizer: trimmed, then a closing
/// thematic break appended (after a blank line) when the text does not
/// already end in one, so the final block is delimited like every other.
pub open spec fn spec_prepared(text: Seq<char>) -> Seq<char> {
    let t = spec_trim(text);
    if t.len() >= 3 && t[t.len() - 1] == '-' && t[t.len() - 2] == '-' && t[t.len() - 3] == '-' {
        t + "\n\n"@
    } else {
        t + "\n\n---\n\n"@
    }
}

/// The raw question blocks of a document.
pub open spec fn doc_blocks(text: Seq<char>) -> Seq<Seq<Seq<char>>> {
    spec_blocks(events_of(spec_prepared(text)))
}

/// The first failing block at or after `i`, or -1 when every block from `i`
/// on classifies.
pub open spec fn first_bad(blocks: Seq<Seq<Seq<char>>>, i: int) -> int
    decreases blocks.len() - i,
{
    if i < 0 || i >= blocks.len() {
        -1
    } else if block_err(blocks[i]) is Some {
        i
    } else {
        first_bad(blocks, i + 1)
    }
}

/// Why a document fails to parse, if it does: the error of its first failing
/// block.
pub open spec fn doc_err(text: Seq<char>) -> Option<ParseError> {
    let bl = doc_blocks(text);
    let fb = first_bad(bl, 0);
    if fb == -1 {
        None
    } else {
        block_err(bl[fb])
    }
}

/// The questions of a document, one per block, in block order.
pub open spec fn doc_questions(text: Seq<char>) -> Seq<QuestionView> {
    doc_blocks(text).map_values(|b: Seq<Seq<char>>| block_question(b))
}

/// The parse failures among the first `i` documents, each as its path and
/// error, in document order.
pub open spec fn failing_docs(docs: Seq<Document>, i: int) -> Seq<(Seq<char>, ParseError)>
    decreases i,
{
    if i <= 0 {
        Seq::empty()
    } else {
        let prev = failing_docs(docs, i - 1);
        match doc_err(docs[i - 1].text@) {
            Some(e) => prev.push((docs[i - 1].path@, e)),
            None => prev,
        }
    }
}

/// The questions of the first `i` documents that parsed, concatenated in
/// document order.
pub open spec fn bank_questions(docs: Seq<Document>, i: int) -> Seq<QuestionView>
    decreases i,
{
    if i <= 0 {
        Seq::empty()
    } else {
        let prev = bank_questions(docs, i - 1);
        if doc_err(docs[i - 1].text@) is None {
            prev + doc_questions(docs[i - 1].text@)
        } else {
            prev
        }
    }
}

/// The path and error of each listed failure.
pub open spec fn doc_errors_view(v: Seq<DocError>) -> Seq<(Seq<char>, ParseError)> {
    v.map_values(|e: DocError| (e.path@, e.error))
}

/// The views of a bank's questions.
pub open spec fn questions_view(qs: Seq<Question>) -> Seq<QuestionView> {
    qs.map_values(|q: Question| question_view(q))
}

/// Builds one question from a raw block: the last fragment is the answer
/// list, all fragments before it are prompt content. The result is exactly
/// the block's classification.
pub fn question_from_block(fragments: &Vec<String>) -> (r: Result<Question, ParseError>)
    ensures
        match r {
            Result::Ok(q) => {
                &&& question_wf(&q)
                &&& block_err(frags_view(fragments@)) is None
                &&& question_view(q) == block_question(frags_view(fragments@))
            },
            Result::Err(e) => block_err(frags_view(fragments@)) == Some(e),
        },
{
    let ghost fv = frags_view(fragments@);
    let m = fragments.len();
    if m == 0 {
        return Err(ParseError::NoAnswerItems);
    }
    let mut content: Vec<String> = Vec::new();
    let mut j: usize = 0;
    while j < m - 1
        invariant
            j <= m - 1,
            m == fragments@.len(),
            m >= 1,
            content@.len() == j,
            forall|k: int| 0 <= k < j ==> content@[k]@ == fragments@[k]@,
        decreases m - 1 - j,
    {
        content.push(fragments[j].clone());
        j += 1;
    }
    proof {
        assert(frags_view(content@) =~= fv.take(m - 1));
        assert(fv[m - 1] == fragments@[m - 1]@);
    }
    let events = md_events(fragments[m - 1].as_str());
    let items = items_of_events(&events);
    proof {
        assert(frags_view(items@) == block_items(fv));
    }
    question_of_items(content, &items)
}

/// Parses one document's text into its ordered questions: the text is
/// prepared, and each block between thematic breaks becomes one question, in
/// block order. Fails with the error of the document's first failing block.
pub fn questions_from_doc(text: &str) -> (r: Result<Vec<Question>, ParseError>)
    ensures
        match r {
            Result::Ok(qs) => {
                &&& doc_err(text@) is None
                &&& qs@.len() == doc_blocks(text@).len()
                &&& forall|k: int|
                    0 <= k < qs@.len() ==> question_wf(&qs@[k]) && question_view(#[trigger] qs@[k])
                        == doc_questions(text@)[k]
            },
            Result::Err(e) => doc_err(text@) == Some(e),
        },
{
    let tv0 = chars_of(text);
    let tv = trim_chars(&tv0);
    let n = tv.len();
    let ends_in_break = n >= 3 && tv[n - 1] == '-' && tv[n - 2] == '-' && tv[n - 3] == '-';
    let mut input = string_of(tv.as_slice());
    if ends_in_break {
        input.append("\n\n");
    } else {
        input.append("\n\n---\n\n");
    }
    proof {
        assert(input@ == spec_prepared(text@));
    }
    let events = md_events(input.as_str());
    let blocks = segment_blocks(&events);
    let ghost bl = doc_blocks(text@);
    proof {
        assert(crate::md::blocks_view(blocks@) == bl);
    }
    let nb = blocks.len();
    let mut qs: Vec<Question> = Vec::new();
    let mut i: usize = 0;
    while i < nb
        invariant
            i <= nb,
            nb == blocks@.len(),
            bl == doc_blocks(text@),
            bl == crate::md::blocks_view(blocks@),
            bl.len() == nb,
            first_bad(bl, 0) == first_bad(bl, i as int),
            qs@.len() == i,
            forall|k: int|
                0 <= k < i ==> question_wf(&qs@[k]) && question_view(#[trigger] qs@[k])
                    == doc_questions(text@)[k],
        decreases nb - i,
    {
        proof {
            assert(frags_view(blocks@[i as int]@) == bl[i as int]);
        }
        match question_from_block(&blocks[i]) {
            Ok(q) => {
                qs.push(q);
                proof {
                    assert(doc_questions(text@)[i as int] == block_question(bl[i as int]));
                    assert(first_bad(bl, i as int) == first_bad(bl, i + 1));
                }
            },
            Err(e) => {
                proof {
                    assert(first_bad(bl, i as int) == i);
                    assert(doc_err(text@) == block_err(bl[i as int]));
                }
                return Err(e);
            },
        }
        i += 1;
    }
    proof {
        assert(first_bad(bl, nb as int) == -1);
    }
    Ok(qs)
}

impl Bank {
    /// Builds the bank from the given documents: the concatenation, in
    /// document order, of every document's parsed questions. Parse failures
    /// are collected across all documents and reported together, naming
    /// every failing document; a bank is returned exactly when there is at
    /// least one document and every document parses.
    pub fn new(docs: Vec<Document>) -> (r: Result<Bank, BankError>)
        ensures
            match r {
                Result::Ok(b) => {
                    &&& docs@.len() > 0
                    &&& failing_docs(docs@, docs@.len() as int).len() == 0
                    &&& bank_wf(&b)
                    &&& questions_view(b.questions@) == bank_questions(docs@, docs@.len() as int)
                },
                Result::Err(e) => match e {
                    BankError::NoInputs => docs@.len() == 0,
                    BankError::Documents(v) => {
                        &&& docs@.len() > 0
                        &&& v@.len() > 0
                        &&& doc_errors_view(v@) == failing_docs(docs@, docs@.len() as int)
                    },
                },
            },
            docs@.len() == 0 ==> r == Result::<Bank, BankError>::Err(BankError::NoInputs),
            docs@.len() > 0 && failing_docs(docs@, docs@.len() as int).len() == 0 ==> r is Ok,
    {
        let nd = docs.len();
        if nd == 0 {
            return Err(BankError::NoInputs);
        }
        let mut questions: Vec<Question> = Vec::new();
        let mut failures: Vec<DocError> = Vec::new();
        let mut i: usize = 0;
        proof {
            assert(questions_view(questions@) =~= bank_questions(docs@, 0));
            assert(doc_errors_view(failures@) =~= failing_docs(docs@, 0));
        }
        while i < nd
            invariant
                i <= nd,
                nd == docs@.len(),
                questions_view(questions@) == bank_questions(docs@, i as int),
                doc_errors_view(failures@) == failing_docs(docs@, i as int),
                forall|k: int| 0 <= k < questions@.len() ==> question_wf(&questions@[k]),
            decreases nd - i,
        {
            let ghost pre_q = questions_view(questions@);
            let ghost pre_f = doc_errors_view(failures@);
            match questions_from_doc(docs[i].text.as_str()) {
                Ok(mut qs) => {
                    proof {
                        assert(questions_view(qs@) =~= doc_questions(docs@[i as int].text@));
                    }
                    questions.append(&mut qs);
                    proof {
                        assert(questions_view(questions@) =~= pre_q + doc_questions(
                            docs@[i as int].text@,
                        ));
                        assert(doc_errors_view(failures@) =~= failing_docs(docs@, i + 1));
                    }
                },
                Err(e) => {
                    failures.push(DocError { path: docs[i].path.clone(), error: e });
                    proof {
                        assert(doc_errors_view(failures@) =~= pre_f.push(
                            (docs@[i as int].path@, e),
                        ));
                        assert(questions_view(questions@) =~= bank_questions(docs@, i + 1));
                    }
                },
            }
            i += 1;
        }
        if failures.len() > 0 {
            Err(BankError::Documents(failures))
        } else {
            proof {
                assert(failing_docs(docs@, nd as int).len() == 0);
            }
            Ok(Bank { questions })
        }
    }
}

} // verus!
