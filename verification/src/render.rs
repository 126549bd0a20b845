//! Rendering a quiz to Markdown: the blank quiz and the annotated answer
//! document share one letter assignment and one layout, so the letters are
//! identical between the two renderings of the same quiz.

use vstd::prelude::*;

use crate::letters::{letters, spec_letters};
use crate::md::frags_view;
use crate::question::{Answer, Question};
use crate::text::{append_dec, chars_of, push_char, spec_dec};

verus! {

/// One quiz entry: a question with, for matching shape, its generated
/// right-hand block and key.
pub type QEntry = (Question, Option<(String, Vec<String>)>);

/// `n` spaces.
pub open spec fn spaces(n: nat) -> Seq<char> {
    Seq::new(n, |i: int| ' ')
}

/// The numbering prefix of the question at 0-based position `i`: `"1. "`,
/// `"2. "`, ...
pub open spec fn pre_of(i: nat) -> Seq<char> {
    spec_dec(i + 1) + ". "@
}

/// What each newline inside a prompt fragment of question `i` is replaced
/// by: a newline plus indentation as wide as the numbering prefix.
pub open spec fn rep_of(i: nat) -> Seq<char> {
    seq!['\n'] + spaces(pre_of(i).len())
}

/// `s` with every newline replaced by `rep`.
pub open spec fn rnl(s: Seq<char>, rep: Seq<char>) -> Seq<char>
    decreases s.len(),
{
    if s.len() == 0 {
        Seq::empty()
    } else {
        rnl(s.drop_last(), rep) + (if s.last() == '\n' {
            rep
        } else {
            seq![s.last()]
        })
    }
}

/// The prompt fragments joined by a blank indented line, each fragment's
/// newlines replaced by `rep`.
pub open spec fn jf(frags: Seq<Seq<char>>, rep: Seq<char>) -> Seq<char>
    decreases frags.len(),
{
    if frags.len() == 0 {
        Seq::empty()
    } else if frags.len() == 1 {
        rnl(frags[0], rep)
    } else {
        jf(frags.drop_last(), rep) + "\n"@ + rep + rnl(frags.last(), rep)
    }
}

/// The first `i` lines of a matching question's blank left-hand list.
pub open spec fn blank_match_lines(ans: Seq<Answer>, i: int) -> Seq<char>
    decreases i,
{
    if i <= 0 {
        Seq::empty()
    } else {
        blank_match_lines(ans, i - 1) + "    * _____ "@ + ans[i - 1].content@ + "\n"@
    }
}

/// The first `i` lines of a choice question's blank option list, lettered in
/// order.
pub open spec fn blank_choice_lines(ans: Seq<Answer>, i: int) -> Seq<char>
    decreases i,
{
    if i <= 0 {
        Seq::empty()
    } else {
        blank_choice_lines(ans, i - 1) + "    * [ ] "@ + spec_letters((i - 1) as nat) + ". "@
            + ans[i - 1].content@ + "\n\n"@
    }
}

/// The blank rendering of the question at 0-based position `i`.
pub open spec fn blank_entry(i: nat, e: QEntry) -> Seq<char> {
    let q = e.0;
    let rep = rep_of(i);
    let head = pre_of(i) + jf(frags_view(q.content@), rep) + "\n\n"@;
    match e.1 {
        Some(ck) => head + ck.0@ + "\n"@ + blank_match_lines(q.answers@, q.answers@.len() as int)
            + "\n"@,
        None => head + blank_choice_lines(q.answers@, q.answers@.len() as int),
    }
}

/// The blank rendering of the first `i` questions.
pub open spec fn blank_doc(es: Seq<QEntry>, i: int) -> Seq<char>
    decreases i,
{
    if i <= 0 {
        Seq::empty()
    } else {
        blank_doc(es, i - 1) + blank_entry((i - 1) as nat, es[i - 1])
    }
}

/// The first `i` lines of a matching question's annotated list: each left
/// item with its key letter marked.
pub open spec fn ann_match_lines(ans: Seq<Answer>, key: Seq<String>, i: int) -> Seq<char>
    decreases i,
{
    if i <= 0 {
        Seq::empty()
    } else {
        ann_match_lines(ans, key, i - 1) + "    * "@ + ans[i - 1].content@ + ": **"@ + key[i
            - 1]@ + "**\n\n"@
    }
}

/// One line of a choice question's annotated option list: checked and bold
/// exactly when the option is correct.
pub open spec fn ann_choice_line(j: nat, a: Answer) -> Seq<char> {
    if a.is_correct {
        "    * [X] **"@ + spec_letters(j) + ". "@ + a.content@ + "**\n\n"@
    } else {
        "    * [ ] "@ + spec_letters(j) + ". "@ + a.content@ + "\n\n"@
    }
}

/// The first `i` lines of a choice question's annotated option list.
pub open spec fn ann_choice_lines(ans: Seq<Answer>, i: int) -> Seq<char>
    decreases i,
{
    if i <= 0 {
        Seq::empty()
    } else {
        ann_choice_lines(ans, i - 1) + ann_choice_line((i - 1) as nat, ans[i - 1])
    }
}

/// Whether the rendered option line of answer `j` is the checked, bold form.
pub open spec fn ann_line_marked(j: nat, a: Answer) -> bool {
    ann_choice_line(j, a) == "    * [X] **"@ + spec_letters(j) + ". "@ + a.content@ + "**\n\n"@
}

/// The letters of the first `i` option lines whose rendered text is the
/// checked, bold form.
pub open spec fn marked_letters(ans: Seq<Answer>, i: int) -> Seq<Seq<char>>
    decreases i,
{
    if i <= 0 {
        Seq::empty()
    } else {
        let prev = marked_letters(ans, i - 1);
        if ann_line_marked((i - 1) as nat, ans[i - 1]) {
            prev.push(spec_letters((i - 1) as nat))
        } else {
            prev
        }
    }
}

/// The annotated rendering of the question at 0-based position `i`.
pub open spec fn ann_entry(i: nat, e: QEntry) -> Seq<char> {
    let q = e.0;
    let rep = rep_of(i);
    let head = pre_of(i) + jf(frags_view(q.content@), rep) + "\n\n"@;
    match e.1 {
        Some(ck) => head + ck.0@ + "\n"@ + ann_match_lines(
            q.answers@,
            ck.1@,
            q.answers@.len() as int,
        ),
        None => head + ann_choice_lines(q.answers@, q.answers@.len() as int),
    }
}

/// The annotated rendering of the first `i` questions.
pub open spec fn ann_doc(es: Seq<QEntry>, i: int) -> Seq<char>
    decreases i,
{
    if i <= 0 {
        Seq::empty()
    } else {
        ann_doc(es, i - 1) + ann_entry((i - 1) as nat, es[i - 1])
    }
}

/// Appends `frag` with every newline replaced by `rep`.
fn append_replaced(out: &mut String, frag: &str, rep: &str)
    ensures
        final(out)@ == old(out)@ + rnl(frag@, rep@),
{
    let cs = chars_of(frag);
    let n = cs.len();
    let mut j: usize = 0;
    proof {
        assert(cs@.take(0) =~= Seq::<char>::empty());
    }
    while j < n
        invariant
            j <= n,
            n == cs@.len(),
            cs@ == frag@,
            out@ == old(out)@ + rnl(cs@.take(j as int), rep@),
        decreases n - j,
    {
        let c = cs[j];
        if c == '\n' {
            out.append(rep);
        } else {
            push_char(out, c);
        }
        proof {
            let t = cs@.take(j + 1);
            assert(t.drop_last() =~= cs@.take(j as int));
            assert(t.last() == cs@[j as int]);
            assert(out@ =~= old(out)@ + rnl(t, rep@));
        }
        j += 1;
    }
    proof {
        assert(cs@.take(n as int) =~= frag@);
    }
}

/// Appends the prompt fragments joined by blank indented lines.
fn append_joined(out: &mut String, frags: &Vec<String>, rep: &str)
    ensures
        final(out)@ == old(out)@ + jf(frags_view(frags@), rep@),
{
    let n = frags.len();
    let mut j: usize = 0;
    proof {
        assert(frags_view(frags@).take(0) =~= Seq::<Seq<char>>::empty());
    }
    while j < n
        invariant
            j <= n,
            n == frags@.len(),
            out@ == old(out)@ + jf(frags_view(frags@).take(j as int), rep@),
        decreases n - j,
    {
        if j > 0 {
            out.append("\n");
            out.append(rep);
        }
        append_replaced(out, frags[j].as_str(), rep);
        proof {
            let fv = frags_view(frags@);
            let t = fv.take(j + 1);
            assert(t.drop_last() =~= fv.take(j as int));
            assert(t.last() == frags@[j as int]@);
            if j == 0 {
                assert(out@ =~= old(out)@ + jf(t, rep@));
            } else {
                assert(out@ =~= old(out)@ + jf(t, rep@));
            }
        }
        j += 1;
    }
    proof {
        assert(frags_view(frags@).take(n as int) =~= frags_view(frags@));
    }
}

/// Appends the numbering prefix of question `i` and returns the newline
/// replacement of that question.
fn start_entry(out: &mut String, i: usize) -> (rep: String)
    requires
        i < usize::MAX,
    ensures
        final(out)@ == old(out)@ + pre_of(i as nat),
        rep@ == rep_of(i as nat),
{
    let mut pre = String::new();
    append_dec(&mut pre, (i + 1) as u64);
    pre.append(". ");
    assert((i + 1) as u64 as nat == i as nat + 1);
    assert(pre@ =~= pre_of(i as nat));
    let np = pre.as_str().unicode_len();
    let mut rep = String::new();
    push_char(&mut rep, '\n');
    let mut k: usize = 0;
    proof {
        assert(rep@ =~= seq!['\n'] + spaces(0));
    }
    while k < np
        invariant
            k <= np,
            rep@ == seq!['\n'] + spaces(k as nat),
        decreases np - k,
    {
        push_char(&mut rep, ' ');
        proof {
            assert(rep@ =~= seq!['\n'] + spaces((k + 1) as nat));
        }
        k += 1;
    }
    out.append(pre.as_str());
    proof {
        assert(np as nat == pre_of(i as nat).len());
        assert(rep@ =~= rep_of(i as nat));
    }
    rep
}

/// Appends the blank left-hand lines of a matching question.
fn append_blank_match_lines(out: &mut String, ans: &Vec<Answer>)
    ensures
        final(out)@ == old(out)@ + blank_match_lines(ans@, ans@.len() as int),
{
    let n = ans.len();
    let mut j: usize = 0;
    while j < n
        invariant
            j <= n,
            n == ans@.len(),
            out@ == old(out)@ + blank_match_lines(ans@, j as int),
        decreases n - j,
    {
        out.append("    * _____ ");
        out.append(ans[j].content.as_str());
        out.append("\n");
        proof {
            assert(out@ =~= old(out)@ + blank_match_lines(ans@, j + 1));
        }
        j += 1;
    }
}

/// Appends the blank lettered option lines of a choice question.
fn append_blank_choice_lines(out: &mut String, ans: &Vec<Answer>)
    ensures
        final(out)@ == old(out)@ + blank_choice_lines(ans@, ans@.len() as int),
{
    let n = ans.len();
    let mut j: usize = 0;
    while j < n
        invariant
            j <= n,
            n == ans@.len(),
            out@ == old(out)@ + blank_choice_lines(ans@, j as int),
        decreases n - j,
    {
        out.append("    * [ ] ");
        let l = letters(j);
        out.append(l.as_str());
        out.append(". ");
        out.append(ans[j].content.as_str());
        out.append("\n\n");
        proof {
            assert(out@ =~= old(out)@ + blank_choice_lines(ans@, j + 1));
        }
        j += 1;
    }
}

/// Appends the annotated lines of a matching question: each left item with
/// its key letter.
fn append_ann_match_lines(out: &mut String, ans: &Vec<Answer>, key: &Vec<String>)
    requires
        key@.len() == ans@.len(),
    ensures
        final(out)@ == old(out)@ + ann_match_lines(ans@, key@, ans@.len() as int),
{
    let n = ans.len();
    let mut j: usize = 0;
    while j < n
        invariant
            j <= n,
            n == ans@.len(),
            key@.len() == n,
            out@ == old(out)@ + ann_match_lines(ans@, key@, j as int),
        decreases n - j,
    {
        out.append("    * ");
        out.append(ans[j].content.as_str());
        out.append(": **");
        out.append(key[j].as_str());
        out.append("**\n\n");
        proof {
            assert(out@ =~= old(out)@ + ann_match_lines(ans@, key@, j + 1));
        }
        j += 1;
    }
}

/// Appends the annotated option lines of a choice question: correct options
/// are checked and bold.
fn append_ann_choice_lines(out: &mut String, ans: &Vec<Answer>)
    ensures
        final(out)@ == old(out)@ + ann_choice_lines(ans@, ans@.len() as int),
{
    let n = ans.len();
    let mut j: usize = 0;
    while j < n
        invariant
            j <= n,
            n == ans@.len(),
            out@ == old(out)@ + ann_choice_lines(ans@, j as int),
        decreases n - j,
    {
        let l = letters(j);
        if ans[j].is_correct {
            out.append("    * [X] **");
            out.append(l.as_str());
            out.append(". ");
            out.append(ans[j].content.as_str());
            out.append("**\n\n");
        } else {
            out.append("    * [ ] ");
            out.append(l.as_str());
            out.append(". ");
            out.append(ans[j].content.as_str());
            out.append("\n\n");
        }
        proof {
            assert(out@ =~= old(out)@ + ann_choice_lines(ans@, j + 1));
        }
        j += 1;
    }
}

/// Appends the blank rendering of one quiz entry.
pub(crate) fn append_blank_entry(out: &mut String, i: usize, e: &QEntry)
    requires
        i < usize::MAX,
    ensures
        final(out)@ == old(out)@ + blank_entry(i as nat, *e),
{
    let rep = start_entry(out, i);
    append_joined(out, &e.0.content, rep.as_str());
    out.append("\n\n");
    match &e.1 {
        Some(ck) => {
            out.append(ck.0.as_str());
            out.append("\n");
            append_blank_match_lines(out, &e.0.answers);
            out.append("\n");
        },
        None => {
            append_blank_choice_lines(out, &e.0.answers);
        },
    }
    proof {
        assert(out@ =~= old(out)@ + blank_entry(i as nat, *e));
    }
}

/// Appends the annotated rendering of one quiz entry.
pub(crate) fn append_ann_entry(out: &mut String, i: usize, e: &QEntry)
    requires
        i < usize::MAX,
        match e.1 {
            Some(ck) => ck.1@.len() == e.0.answers@.len(),
            None => true,
        },
    ensures
        final(out)@ == old(out)@ + ann_entry(i as nat, *e),
{
    let rep = start_entry(out, i);
    append_joined(out, &e.0.content, rep.as_str());
    out.append("\n\n");
    match &e.1 {
        Some(ck) => {
            out.append(ck.0.as_str());
            out.append("\n");
            append_ann_match_lines(out, &e.0.answers, &ck.1);
        },
        None => {
            append_ann_choice_lines(out, &e.0.answers);
        },
    }
    proof {
        assert(out@ =~= old(out)@ + ann_entry(i as nat, *e));
    }
}

impl crate::quiz::Quiz {
    /// The blank quiz document: every question rendered in order with fresh
    /// letters per question, matching questions with their generated
    /// right-hand list.
    pub fn markdown(&self) -> (r: String)
        ensures
            r@ == blank_doc(self.questions@, self.questions@.len() as int),
    {
        let n = self.questions.len();
        let mut out = String::new();
        let mut i: usize = 0;
        while i < n
            invariant
                i <= n,
                n == self.questions@.len(),
                out@ == blank_doc(self.questions@, i as int),
            decreases n - i,
        {
            append_blank_entry(&mut out, i, &self.questions[i]);
            proof {
                assert(out@ =~= blank_doc(self.questions@, i + 1));
            }
            i += 1;
        }
        out
    }
}

} // verus!
