//! Block segmentation of one Markdown document: the token stream is walked
//! tracking nesting depth; every top-level element's trimmed source span
//! becomes one fragment of the current block, and a thematic break closes the
//! block. The tokenizer is `pulldown_cmark`; its event stream for a given
//! text is named `events_of`, and everything after it is verified against
//! that name.

use vstd::prelude::*;

use pulldown_cmark as pd;

use crate::text::{chars_of, spec_trim, string_of, trim_chars};

verus! {

/// The kind of one Markdown event, as far as segmentation needs it.
#[derive(Clone, Copy, PartialEq, Eq, Structural)]
pub enum MdKind {
    /// Start of a tagged element.
    Start,
    /// End of a list item.
    EndItem,
    /// End of any other tagged element.
    End,
    /// A thematic break.
    Rule,
    /// Any other event.
    Other,
}

/// One Markdown event: its kind and the verbatim source span it covers.
pub struct MdEvent {
    pub kind: MdKind,
    pub text: String,
}

/// What the tokenizer yields for a text: each event of the stream in order,
/// as its kind and the verbatim source span it covers. The parse is a
/// function of the text alone.
pub uninterp spec fn events_of(s: Seq<char>) -> Seq<(MdKind, Seq<char>)>;

/// The kind and span text of each event of a stream.
pub open spec fn events_view(v: Seq<MdEvent>) -> Seq<(MdKind, Seq<char>)> {
    v.map_values(|e: MdEvent| (e.kind, e.text@))
}

/// Relies on `pulldown_cmark::Parser`: tokenizes CommonMark (all extensions
/// enabled) into an ordered event stream; each event is paired with the byte
/// range of the source it covers, which is returned here as the verbatim
/// span text. The stream depends on the input text alone.
#[verifier::external_body]
pub(crate) fn md_events(input: &str) -> (r: Vec<MdEvent>)
    ensures
        events_view(r@) == events_of(input@),
{
    pd::Parser::new_ext(input, pd::Options::all())
        .into_offset_iter()
        .map(|(event, range)| MdEvent {
            kind: match event {
                pd::Event::Start(_) => MdKind::Start,
                pd::Event::End(pd::TagEnd::Item) => MdKind::EndItem,
                pd::Event::End(_) => MdKind::End,
                pd::Event::Rule => MdKind::Rule,
                _ => MdKind::Other,
            },
            text: input[range].to_string(),
        })
        .collect()
}

/// The characters of each fragment of a block.
pub open spec fn frags_view(v: Seq<String>) -> Seq<Seq<char>> {
    v.map_values(|s: String| s@)
}

/// The fragment characters of each block of a document.
pub open spec fn blocks_view(v: Seq<Vec<String>>) -> Seq<Seq<Seq<char>>> {
    v.map_values(|b: Vec<String>| frags_view(b@))
}

/// One step per event of the segmentation walk: `depth` is the structural
/// nesting depth, `cur` the fragments of the block being collected, `out` the
/// closed blocks.
pub open spec fn spec_segment(
    events: Seq<(MdKind, Seq<char>)>,
    i: int,
    depth: nat,
    cur: Seq<Seq<char>>,
    out: Seq<Seq<Seq<char>>>,
) -> Seq<Seq<Seq<char>>>
    decreases events.len() - i,
{
    if i < 0 || i >= events.len() {
        out
    } else {
        let e = events[i];
        if e.0 == MdKind::Start {
            spec_segment(events, i + 1, depth + 1, cur, out)
        } else if e.0 == MdKind::End || e.0 == MdKind::EndItem {
            if depth == 1 {
                spec_segment(events, i + 1, 0, cur.push(spec_trim(e.1)), out)
            } else if depth == 0 {
                spec_segment(events, i + 1, 0, cur, out)
            } else {
                spec_segment(events, i + 1, (depth - 1) as nat, cur, out)
            }
        } else if e.0 == MdKind::Rule {
            if cur.len() > 0 {
                spec_segment(events, i + 1, depth, Seq::empty(), out.push(cur))
            } else {
                spec_segment(events, i + 1, depth, cur, out)
            }
        } else {
            spec_segment(events, i + 1, depth, cur, out)
        }
    }
}

/// The raw blocks of a document's event stream: every top-level element's
/// trimmed span is a fragment of the current block; a thematic break closes
/// the current block; blocks with no fragments are dropped.
pub open spec fn spec_blocks(events: Seq<(MdKind, Seq<char>)>) -> Seq<Seq<Seq<char>>> {
    spec_segment(events, 0, 0, Seq::empty(), Seq::empty())
}

/// One step per event of the item walk over an answer list's event stream:
/// the trimmed span of every list item nested exactly one level inside the
/// top-level list becomes one item.
pub open spec fn spec_items_walk(
    events: Seq<(MdKind, Seq<char>)>,
    i: int,
    depth: nat,
    acc: Seq<Seq<char>>,
) -> Seq<Seq<char>>
    decreases events.len() - i,
{
    if i < 0 || i >= events.len() {
        acc
    } else {
        let e = events[i];
        if e.0 == MdKind::Start {
            spec_items_walk(events, i + 1, depth + 1, acc)
        } else if e.0 == MdKind::End || e.0 == MdKind::EndItem {
            let d = if depth == 0 {
                0
            } else {
                (depth - 1) as nat
            };
            if d == 1 && e.0 == MdKind::EndItem {
                spec_items_walk(events, i + 1, d, acc.push(spec_trim(e.1)))
            } else {
                spec_items_walk(events, i + 1, d, acc)
            }
        } else {
            spec_items_walk(events, i + 1, depth, acc)
        }
    }
}

/// The trimmed texts of the top-level list items of an answer list's event
/// stream.
pub open spec fn spec_items(events: Seq<(MdKind, Seq<char>)>) -> Seq<Seq<char>> {
    spec_items_walk(events, 0, 0, Seq::empty())
}

/// Extracts the trimmed texts of the top-level list items of an answer list's
/// event stream.
pub fn items_of_events(events: &Vec<MdEvent>) -> (r: Vec<String>)
    ensures
        frags_view(r@) == spec_items(events_view(events@)),
{
    let ghost ev = events_view(events@);
    let n = events.len();
    let mut depth: usize = 0;
    let mut acc: Vec<String> = Vec::new();
    let mut i: usize = 0;
    proof {
        assert(frags_view(acc@) =~= Seq::<Seq<char>>::empty());
    }
    while i < n
        invariant
            i <= n,
            n == events@.len(),
            ev == events_view(events@),
            ev.len() == n,
            depth <= i,
            spec_items(ev) == spec_items_walk(ev, i as int, depth as nat, frags_view(acc@)),
        decreases n - i,
    {
        let ghost pre_acc = frags_view(acc@);
        let e = &events[i];
        proof {
            assert(ev[i as int] == (e.kind, e.text@));
        }
        match e.kind {
            MdKind::Start => {
                depth = depth + 1;
            },
            MdKind::End | MdKind::EndItem => {
                if depth > 0 {
                    depth = depth - 1;
                }
                if depth == 1 && matches!(e.kind, MdKind::EndItem) {
                    let span = chars_of(e.text.as_str());
                    let trimmed = trim_chars(&span);
                    acc.push(string_of(trimmed.as_slice()));
                    proof {
                        assert(frags_view(acc@) =~= pre_acc.push(spec_trim(ev[i as int].1)));
                    }
                }
            },
            MdKind::Rule => {},
            MdKind::Other => {},
        }
        i = i + 1;
    }
    acc
}

/// Splits a document's event stream into raw question blocks, each an ordered
/// list of trimmed top-level fragments.
pub fn segment_blocks(events: &Vec<MdEvent>) -> (r: Vec<Vec<String>>)
    ensures
        blocks_view(r@) == spec_blocks(events_view(events@)),
{
    let ghost ev = events_view(events@);
    let n = events.len();
    let mut depth: usize = 0;
    let mut cur: Vec<String> = Vec::new();
    let mut out: Vec<Vec<String>> = Vec::new();
    let mut i: usize = 0;
    proof {
        assert(frags_view(cur@) =~= Seq::<Seq<char>>::empty());
        assert(blocks_view(out@) =~= Seq::<Seq<Seq<char>>>::empty());
    }
    while i < n
        invariant
            i <= n,
            n == events@.len(),
            ev == events_view(events@),
            ev.len() == n,
            depth <= i,
            spec_blocks(ev) == spec_segment(
                ev,
                i as int,
                depth as nat,
                frags_view(cur@),
                blocks_view(out@),
            ),
        decreases n - i,
    {
        let ghost pre_cur = frags_view(cur@);
        let ghost pre_out = blocks_view(out@);
        let e = &events[i];
        proof {
            assert(ev[i as int] == (e.kind, e.text@));
        }
        match e.kind {
            MdKind::Start => {
                depth = depth + 1;
            },
            MdKind::End | MdKind::EndItem => {
                if depth == 1 {
                    let span = chars_of(e.text.as_str());
                    let trimmed = trim_chars(&span);
                    cur.push(string_of(trimmed.as_slice()));
                    depth = 0;
                    proof {
                        assert(frags_view(cur@) =~= pre_cur.push(spec_trim(ev[i as int].1)));
                    }
                } else if depth > 0 {
                    depth = depth - 1;
                }
            },
            MdKind::Rule => {
                if cur.len() > 0 {
                    out.push(cur);
                    cur = Vec::new();
                    proof {
                        assert(blocks_view(out@) =~= pre_out.push(pre_cur));
                        assert(frags_view(cur@) =~= Seq::<Seq<char>>::empty());
                    }
                }
            },
            MdKind::Other => {},
        }
        i = i + 1;
    }
    out
}

} // verus!
