//! The machine format of answer keys and submissions: a compact JSON-shaped
//! text. A key serializes as an object from position to a pair of the
//! correct-letter list and the matching flag; a submission document holds a
//! description and each student's letters per position. Both directions are
//! verified, and deserializing a serialized key reproduces it exactly.

use vstd::prelude::*;

use crate::key::KeyEntry;
use crate::text::{append_dec, chars_of, push_char, spec_dec, string_of};

verus! {

/// The view of one key entry: position, letter texts, matching flag.
pub open spec fn key_entry_view(e: KeyEntry) -> (nat, Seq<Seq<char>>, bool) {
    (e.position as nat, crate::md::frags_view(e.letters@), e.matching)
}

/// The views of a key's entries.
pub open spec fn key_views(s: Seq<KeyEntry>) -> Seq<(nat, Seq<Seq<char>>, bool)> {
    s.map_values(|e: KeyEntry| key_entry_view(e))
}

/// How one character is written inside a string token: quotes and
/// backslashes get a backslash escape, everything else stands as itself.
pub open spec fn esc_char(c: char) -> Seq<char> {
    if c == '"' {
        seq!['\\', '"']
    } else if c == '\\' {
        seq!['\\', '\\']
    } else {
        seq![c]
    }
}

/// The escaped body of a string token.
pub open spec fn esc(s: Seq<char>) -> Seq<char>
    decreases s.len(),
{
    if s.len() == 0 {
        Seq::empty()
    } else {
        esc(s.drop_last()) + esc_char(s.last())
    }
}

/// A string token: the escaped text between double quotes.
pub open spec fn ser_string(s: Seq<char>) -> Seq<char> {
    seq!['"'] + esc(s) + seq!['"']
}

/// The body of a letters array: string tokens joined by commas.
pub open spec fn ser_letters_body(ls: Seq<Seq<char>>) -> Seq<char>
    decreases ls.len(),
{
    if ls.len() == 0 {
        Seq::empty()
    } else if ls.len() == 1 {
        ser_string(ls[0])
    } else {
        ser_letters_body(ls.drop_last()) + seq![','] + ser_string(ls.last())
    }
}

/// A letters array token.
pub open spec fn ser_letters(ls: Seq<Seq<char>>) -> Seq<char> {
    seq!['['] + ser_letters_body(ls) + seq![']']
}

/// A boolean token.
pub open spec fn ser_bool(b: bool) -> Seq<char> {
    if b {
        seq!['t', 'r', 'u', 'e']
    } else {
        seq!['f', 'a', 'l', 's', 'e']
    }
}

/// One serialized key entry: the position as a string key, then the pair of
/// the letters array and the matching flag.
pub open spec fn ser_entry(v: (nat, Seq<Seq<char>>, bool)) -> Seq<char> {
    seq!['"'] + spec_dec(v.0) + seq!['"', ':', '['] + ser_letters(v.1) + seq![','] + ser_bool(v.2)
        + seq![']']
}

/// The body of a serialized key: entries joined by commas.
pub open spec fn ser_key_body(vs: Seq<(nat, Seq<Seq<char>>, bool)>) -> Seq<char>
    decreases vs.len(),
{
    if vs.len() == 0 {
        Seq::empty()
    } else if vs.len() == 1 {
        ser_entry(vs[0])
    } else {
        ser_key_body(vs.drop_last()) + seq![','] + ser_entry(vs.last())
    }
}

/// A whole serialized answer key.
pub open spec fn ser_key(vs: Seq<(nat, Seq<Seq<char>>, bool)>) -> Seq<char> {
    seq!['{'] + ser_key_body(vs) + seq!['}']
}

/// Appends a string token.
fn append_string_token(out: &mut String, s: &str)
    ensures
        final(out)@ == old(out)@ + ser_string(s@),
{
    push_char(out, '"');
    let cs = chars_of(s);
    let n = cs.len();
    let mut i: usize = 0;
    proof {
        assert(esc(cs@.take(0)) =~= Seq::<char>::empty());
    }
    while i < n
        invariant
            i <= n,
            n == cs@.len(),
            cs@ == s@,
            out@ == old(out)@ + seq!['"'] + esc(cs@.take(i as int)),
        decreases n - i,
    {
        let c = cs[i];
        if c == '"' {
            push_char(out, '\\');
            push_char(out, '"');
        } else if c == '\\' {
            push_char(out, '\\');
            push_char(out, '\\');
        } else {
            push_char(out, c);
        }
        proof {
            let t = cs@.take(i + 1);
            assert(t.drop_last() =~= cs@.take(i as int));
            assert(t.last() == cs@[i as int]);
            assert(out@ =~= old(out)@ + seq!['"'] + esc(t));
        }
        i += 1;
    }
    push_char(out, '"');
    proof {
        assert(cs@.take(n as int) =~= s@);
        assert(out@ =~= old(out)@ + ser_string(s@));
    }
}

/// Appends a letters array token.
fn append_letters_token(out: &mut String, ls: &Vec<String>)
    ensures
        final(out)@ == old(out)@ + ser_letters(crate::md::frags_view(ls@)),
{
    let ghost lv = crate::md::frags_view(ls@);
    push_char(out, '[');
    let n = ls.len();
    let mut i: usize = 0;
    proof {
        assert(ser_letters_body(lv.take(0)) =~= Seq::<char>::empty());
    }
    while i < n
        invariant
            i <= n,
            n == ls@.len(),
            lv == crate::md::frags_view(ls@),
            out@ == old(out)@ + seq!['['] + ser_letters_body(lv.take(i as int)),
        decreases n - i,
    {
        if i > 0 {
            push_char(out, ',');
        }
        append_string_token(out, ls[i].as_str());
        proof {
            let t = lv.take(i + 1);
            assert(t.drop_last() =~= lv.take(i as int));
            assert(t.last() == lv[i as int]);
            assert(lv[i as int] == ls@[i as int]@);
            assert(out@ =~= old(out)@ + seq!['['] + ser_letters_body(t));
        }
        i += 1;
    }
    push_char(out, ']');
    proof {
        assert(lv.take(n as int) =~= lv);
        assert(out@ =~= old(out)@ + ser_letters(lv));
    }
}

/// Appends a boolean token.
fn append_bool_token(out: &mut String, b: bool)
    ensures
        final(out)@ == old(out)@ + ser_bool(b),
{
    if b {
        push_char(out, 't');
        push_char(out, 'r');
        push_char(out, 'u');
        push_char(out, 'e');
    } else {
        push_char(out, 'f');
        push_char(out, 'a');
        push_char(out, 'l');
        push_char(out, 's');
        push_char(out, 'e');
    }
    proof {
        assert(out@ =~= old(out)@ + ser_bool(b));
    }
}

/// Appends one serialized key entry.
fn append_entry_token(out: &mut String, e: &KeyEntry)
    ensures
        final(out)@ == old(out)@ + ser_entry(key_entry_view(*e)),
{
    push_char(out, '"');
    append_dec(out, e.position as u64);
    push_char(out, '"');
    push_char(out, ':');
    push_char(out, '[');
    append_letters_token(out, &e.letters);
    push_char(out, ',');
    append_bool_token(out, e.matching);
    push_char(out, ']');
    proof {
        assert(e.position as u64 as nat == e.position as nat);
        assert(out@ =~= old(out)@ + ser_entry(key_entry_view(*e)));
    }
}

/// Serializes a key's entries to the machine format.
pub(crate) fn key_to_json(entries: &Vec<KeyEntry>) -> (r: String)
    ensures
        r@ == ser_key(key_views(entries@)),
{
    let ghost kv = key_views(entries@);
    let mut out = String::new();
    push_char(&mut out, '{');
    let n = entries.len();
    let mut i: usize = 0;
    proof {
        assert(ser_key_body(kv.take(0)) =~= Seq::<char>::empty());
    }
    while i < n
        invariant
            i <= n,
            n == entries@.len(),
            kv == key_views(entries@),
            out@ == seq!['{'] + ser_key_body(kv.take(i as int)),
        decreases n - i,
    {
        if i > 0 {
            push_char(&mut out, ',');
        }
        append_entry_token(&mut out, &entries[i]);
        proof {
            let t = kv.take(i + 1);
            assert(t.drop_last() =~= kv.take(i as int));
            assert(t.last() == kv[i as int]);
            assert(kv[i as int] == key_entry_view(entries@[i as int]));
            assert(out@ =~= seq!['{'] + ser_key_body(t));
        }
        i += 1;
    }
    push_char(&mut out, '}');
    proof {
        assert(kv.take(n as int) =~= kv);
        assert(out@ =~= ser_key(kv));
    }
    out
}

impl crate::key::Answers {
    /// The machine-format text of this answer key.
    pub fn json(&self) -> (r: String)
        ensures
            r@ == ser_key(key_views(self.answers@)),
    {
        key_to_json(&self.answers)
    }
}

/// A machine-format document that could not be read.
#[derive(Clone, Copy, PartialEq, Eq, Structural, Debug)]
pub enum DecodeError {
    /// A malformed answer key document.
    KeyFormat,
    /// A malformed submission document.
    SubmissionFormat,
}

/// The format's whitespace characters.
pub open spec fn is_json_ws(c: char) -> bool {
    c == ' ' || c == '\t' || c == '\n' || c == '\r'
}

/// The first position at or after `i` holding no whitespace.
pub open spec fn sp_ws(s: Seq<char>, i: int) -> int
    decreases s.len() - i,
{
    if 0 <= i < s.len() && is_json_ws(s[i]) {
        sp_ws(s, i + 1)
    } else {
        i
    }
}

/// Reads a string token's body from `i` to its closing quote: a backslash
/// escapes a quote or a backslash; any other character stands as itself.
pub open spec fn sp_str_body(s: Seq<char>, i: int, acc: Seq<char>) -> Option<(Seq<char>, int)>
    decreases s.len() - i,
{
    if i < 0 || i >= s.len() {
        None
    } else if s[i] == '"' {
        Some((acc, i + 1))
    } else if s[i] == '\\' {
        if i + 1 < s.len() && (s[i + 1] == '"' || s[i + 1] == '\\') {
            sp_str_body(s, i + 2, acc.push(s[i + 1]))
        } else {
            None
        }
    } else {
        sp_str_body(s, i + 1, acc.push(s[i]))
    }
}

/// Reads a string token at `i`.
pub open spec fn sp_string(s: Seq<char>, i: int) -> Option<(Seq<char>, int)> {
    if 0 <= i < s.len() && s[i] == '"' {
        sp_str_body(s, i + 1, Seq::empty())
    } else {
        None
    }
}

/// A decimal digit.
pub open spec fn is_digit(c: char) -> bool {
    '0' as u32 <= c as u32 && c as u32 <= '9' as u32
}

/// The value of a decimal digit.
pub open spec fn dval(c: char) -> nat {
    (c as u32 - '0' as u32) as nat
}

/// The value of the digits of `cs` from `i` on, accumulated onto `acc`, or
/// nothing if any character is not a digit.
pub open spec fn nv(cs: Seq<char>, i: int, acc: nat) -> Option<nat>
    decreases cs.len() - i,
{
    if i < 0 {
        None
    } else if i >= cs.len() {
        Some(acc)
    } else if is_digit(cs[i]) {
        nv(cs, i + 1, acc * 10 + dval(cs[i]))
    } else {
        None
    }
}

/// The number a nonempty all-digit string denotes.
pub open spec fn num_of(cs: Seq<char>) -> Option<nat> {
    if cs.len() == 0 {
        None
    } else {
        nv(cs, 0, 0)
    }
}

/// Reads a boolean token at `i`.
pub open spec fn sp_bool(s: Seq<char>, i: int) -> Option<(bool, int)> {
    if 0 <= i && i + 4 <= s.len() && s[i] == 't' && s[i + 1] == 'r' && s[i + 2] == 'u' && s[i + 3]
        == 'e' {
        Some((true, i + 4))
    } else if 0 <= i && i + 5 <= s.len() && s[i] == 'f' && s[i + 1] == 'a' && s[i + 2] == 'l' && s[i
        + 3] == 's' && s[i + 4] == 'e' {
        Some((false, i + 5))
    } else {
        None
    }
}

/// Reads the items of a nonempty letters array, starting at the first string
/// token, up to the closing bracket.
pub open spec fn sp_letters_items(
    s: Seq<char>,
    i: int,
    acc: Seq<Seq<char>>,
    fuel: nat,
) -> Option<(Seq<Seq<char>>, int)>
    decreases fuel,
{
    if fuel == 0 {
        None
    } else {
        match sp_string(s, i) {
            None => None,
            Some((c, j)) => {
                let k = sp_ws(s, j);
                if 0 <= k < s.len() && s[k] == ',' {
                    sp_letters_items(s, sp_ws(s, k + 1), acc.push(c), (fuel - 1) as nat)
                } else if 0 <= k < s.len() && s[k] == ']' {
                    Some((acc.push(c), k + 1))
                } else {
                    None
                }
            },
        }
    }
}

/// Reads a letters array token at `i`.
pub open spec fn sp_letters(s: Seq<char>, i: int) -> Option<(Seq<Seq<char>>, int)> {
    if 0 <= i < s.len() && s[i] == '[' {
        let j = sp_ws(s, i + 1);
        if 0 <= j < s.len() && s[j] == ']' {
            Some((Seq::empty(), j + 1))
        } else {
            sp_letters_items(s, j, Seq::empty(), s.len())
        }
    } else {
        None
    }
}

/// Reads one key entry at `i`: a position as a string key, a colon, then the
/// pair of the letters array and the matching flag.
pub open spec fn sp_entry(s: Seq<char>, i: int) -> Option<((nat, Seq<Seq<char>>, bool), int)> {
    match sp_string(s, i) {
        None => None,
        Some((pcs, j)) => match num_of(pcs) {
            None => None,
            Some(pos) => if pos > usize::MAX as nat {
                None
            } else {
                let k = sp_ws(s, j);
                if 0 <= k < s.len() && s[k] == ':' {
                    let k2 = sp_ws(s, k + 1);
                    if 0 <= k2 < s.len() && s[k2] == '[' {
                        match sp_letters(s, sp_ws(s, k2 + 1)) {
                            None => None,
                            Some((ls, j2)) => {
                                let k3 = sp_ws(s, j2);
                                if 0 <= k3 < s.len() && s[k3] == ',' {
                                    match sp_bool(s, sp_ws(s, k3 + 1)) {
                                        None => None,
                                        Some((b, j3)) => {
                                            let k4 = sp_ws(s, j3);
                                            if 0 <= k4 < s.len() && s[k4] == ']' {
                                                Some(((pos, ls, b), k4 + 1))
                                            } else {
                                                None
                                            }
                                        },
                                    }
                                } else {
                                    None
                                }
                            },
                        }
                    } else {
                        None
                    }
                } else {
                    None
                }
            },
        },
    }
}

/// The first index of `vs` holding position `pos`, or -1.
pub open spec fn kv_idx(vs: Seq<(nat, Seq<Seq<char>>, bool)>, pos: nat) -> int
    decreases vs.len(),
{
    if vs.len() == 0 {
        -1
    } else if vs[0].0 == pos {
        0
    } else {
        let r = kv_idx(vs.drop_first(), pos);
        if r < 0 {
            -1
        } else {
            r + 1
        }
    }
}

/// Adds an entry to the parsed key: a repeated position replaces the earlier
/// entry, as a later duplicate key wins.
pub open spec fn kv_insert(
    vs: Seq<(nat, Seq<Seq<char>>, bool)>,
    e: (nat, Seq<Seq<char>>, bool),
) -> Seq<(nat, Seq<Seq<char>>, bool)> {
    let i = kv_idx(vs, e.0);
    if i >= 0 {
        vs.update(i, e)
    } else {
        vs.push(e)
    }
}

/// Reads the entries of a nonempty key object up to the closing brace.
pub open spec fn sp_key_entries(
    s: Seq<char>,
    i: int,
    acc: Seq<(nat, Seq<Seq<char>>, bool)>,
    fuel: nat,
) -> Option<(Seq<(nat, Seq<Seq<char>>, bool)>, int)>
    decreases fuel,
{
    if fuel == 0 {
        None
    } else {
        match sp_entry(s, i) {
            None => None,
            Some((e, j)) => {
                let k = sp_ws(s, j);
                if 0 <= k < s.len() && s[k] == ',' {
                    sp_key_entries(s, sp_ws(s, k + 1), kv_insert(acc, e), (fuel - 1) as nat)
                } else if 0 <= k < s.len() && s[k] == '}' {
                    Some((kv_insert(acc, e), k + 1))
                } else {
                    None
                }
            },
        }
    }
}

/// Reads a whole answer key document, demanding nothing but whitespace after
/// the closing brace.
pub open spec fn sp_key(s: Seq<char>) -> Option<Seq<(nat, Seq<Seq<char>>, bool)>> {
    let i = sp_ws(s, 0);
    if 0 <= i < s.len() && s[i] == '{' {
        let j = sp_ws(s, i + 1);
        if 0 <= j < s.len() && s[j] == '}' {
            if sp_ws(s, j + 1) == s.len() {
                Some(Seq::empty())
            } else {
                None
            }
        } else {
            match sp_key_entries(s, j, Seq::empty(), s.len()) {
                None => None,
                Some((m, j2)) => if sp_ws(s, j2) == s.len() {
                    Some(m)
                } else {
                    None
                },
            }
        }
    } else {
        None
    }
}

/// Skips whitespace from `i`.
fn skip_ws(v: &Vec<char>, i: usize) -> (r: usize)
    requires
        i <= v@.len(),
    ensures
        r as int == sp_ws(v@, i as int),
        i <= r <= v@.len(),
{
    let n = v.len();
    let mut j = i;
    while j < n && (v[j] == ' ' || v[j] == '\t' || v[j] == '\n' || v[j] == '\r')
        invariant
            i <= j <= n,
            n == v@.len(),
            sp_ws(v@, i as int) == sp_ws(v@, j as int),
        decreases n - j,
    {
        j += 1;
    }
    j
}

/// Reads a string token at `i`.
fn parse_string(v: &Vec<char>, i: usize) -> (r: Option<(Vec<char>, usize)>)
    requires
        i <= v@.len(),
    ensures
        match sp_string(v@, i as int) {
            Some(cj) => r matches Some(p) && p.0@ == cj.0 && p.1 as int == cj.1 && p.1 <= v@.len(),
            None => r is None,
        },
{
    let n = v.len();
    if !(i < n && v[i] == '"') {
        return None;
    }
    let mut j = i + 1;
    let mut acc: Vec<char> = Vec::new();
    while j < n
        invariant
            i + 1 <= j <= n,
            n == v@.len(),
            i < n,
            v@[i as int] == '"',
            sp_str_body(v@, i + 1, Seq::empty()) == sp_str_body(v@, j as int, acc@),
        decreases n - j,
    {
        let c = v[j];
        if c == '"' {
            proof {
                assert(sp_str_body(v@, j as int, acc@) == Some((acc@, j + 1 as int)));
            }
            return Some((acc, j + 1));
        } else if c == '\\' {
            if j + 1 < n && (v[j + 1] == '"' || v[j + 1] == '\\') {
                acc.push(v[j + 1]);
                j += 2;
            } else {
                return None;
            }
        } else {
            acc.push(c);
            j += 1;
        }
    }
    None
}

/// Reads a boolean token at `i`.
fn parse_bool(v: &Vec<char>, i: usize) -> (r: Option<(bool, usize)>)
    requires
        i <= v@.len(),
    ensures
        match sp_bool(v@, i as int) {
            Some(bj) => r matches Some(p) && p.0 == bj.0 && p.1 as int == bj.1 && p.1 <= v@.len(),
            None => r is None,
        },
{
    let n = v.len();
    if n - i >= 4 && v[i] == 't' && v[i + 1] == 'r' && v[i + 2] == 'u' && v[i + 3] == 'e' {
        Some((true, i + 4))
    } else if n - i >= 5 && v[i] == 'f' && v[i + 1] == 'a' && v[i + 2] == 'l' && v[i + 3] == 's'
        && v[i + 4] == 'e' {
        Some((false, i + 5))
    } else {
        None
    }
}

/// The number a nonempty all-digit character list denotes, when it fits the
/// position type.
fn parse_num(cs: &Vec<char>) -> (r: Option<usize>)
    ensures
        match num_of(cs@) {
            Some(p) => if p > usize::MAX as nat {
                r is None
            } else {
                r matches Some(x) && x as nat == p
            },
            None => r is None,
        },
{
    let n = cs.len();
    if n == 0 {
        return None;
    }
    let mut acc: usize = 0;
    let mut i: usize = 0;
    while i < n
        invariant
            i <= n,
            n == cs@.len(),
            n > 0,
            nv(cs@, 0, 0) == nv(cs@, i as int, acc as nat),
        decreases n - i,
    {
        let c = cs[i];
        let cu = c as u32;
        if !(cu >= '0' as u32 && cu <= '9' as u32) {
            return None;
        }
        let d = (cu - '0' as u32) as usize;
        proof {
            assert(is_digit(cs@[i as int]));
            assert(d as nat == dval(cs@[i as int]));
            assert(nv(cs@, i as int, acc as nat) == nv(
                cs@,
                i + 1,
                acc as nat * 10 + dval(cs@[i as int]),
            ));
        }
        if acc > (usize::MAX - d) / 10 {
            proof {
                lemma_nv_ge(cs@, i + 1, acc as nat * 10 + dval(cs@[i as int]));
                assert(usize::MAX as int - d == 10 * ((usize::MAX as int - d) / 10) + (usize::MAX
                    as int - d) % 10);
                assert(acc as int * 10 + d > usize::MAX as int);
            }
            return None;
        }
        acc = acc * 10 + d;
        i += 1;
    }
    Some(acc)
}

/// The digits from `i` on denote at least the accumulator.
proof fn lemma_nv_ge(cs: Seq<char>, i: int, acc: nat)
    ensures
        nv(cs, i, acc) matches Some(p) ==> p >= acc,
    decreases cs.len() - i,
{
    if 0 <= i < cs.len() && is_digit(cs[i]) {
        lemma_nv_ge(cs, i + 1, acc * 10 + dval(cs[i]));
    }
}

/// Reads a letters array token at `i`.
fn parse_letters(v: &Vec<char>, i: usize) -> (r: Option<(Vec<String>, usize)>)
    requires
        i <= v@.len(),
    ensures
        match sp_letters(v@, i as int) {
            Some(lj) => r matches Some(p) && crate::md::frags_view(p.0@) == lj.0 && p.1 as int
                == lj.1 && p.1 <= v@.len(),
            None => r is None,
        },
{
    let n = v.len();
    if !(i < n && v[i] == '[') {
        return None;
    }
    let j0 = skip_ws(v, i + 1);
    if j0 < n && v[j0] == ']' {
        let empty: Vec<String> = Vec::new();
        proof {
            assert(crate::md::frags_view(empty@) =~= Seq::<Seq<char>>::empty());
        }
        return Some((empty, j0 + 1));
    }
    let mut acc: Vec<String> = Vec::new();
    let mut j = j0;
    let mut fuel = n;
    proof {
        assert(crate::md::frags_view(acc@) =~= Seq::<Seq<char>>::empty());
    }
    while fuel > 0
        invariant
            j <= n,
            n == v@.len(),
            fuel <= n,
            sp_letters(v@, i as int) == sp_letters_items(v@, j0 as int, Seq::empty(), n as nat),
            sp_letters_items(v@, j0 as int, Seq::empty(), n as nat) == sp_letters_items(
                v@,
                j as int,
                crate::md::frags_view(acc@),
                fuel as nat,
            ),
        decreases fuel,
    {
        let ghost before = crate::md::frags_view(acc@);
        match parse_string(v, j) {
            None => {
                return None;
            },
            Some(p) => {
                let cs = p.0;
                let j2 = p.1;
                let k = skip_ws(v, j2);
                if k < n && v[k] == ',' {
                    let j3 = skip_ws(v, k + 1);
                    acc.push(string_of(cs.as_slice()));
                    proof {
                        assert(crate::md::frags_view(acc@) =~= before.push(cs@));
                    }
                    j = j3;
                    fuel -= 1;
                } else if k < n && v[k] == ']' {
                    acc.push(string_of(cs.as_slice()));
                    proof {
                        assert(crate::md::frags_view(acc@) =~= before.push(cs@));
                    }
                    return Some((acc, k + 1));
                } else {
                    return None;
                }
            },
        }
    }
    None
}

/// Reads one key entry at `i`.
fn parse_entry(v: &Vec<char>, i: usize) -> (r: Option<(KeyEntry, usize)>)
    requires
        i <= v@.len(),
    ensures
        match sp_entry(v@, i as int) {
            Some(ej) => r matches Some(p) && key_entry_view(p.0) == ej.0 && p.1 as int == ej.1
                && p.1 <= v@.len(),
            None => r is None,
        },
{
    let n = v.len();
    let p = match parse_string(v, i) {
        Some(p) => p,
        None => {
            return None;
        },
    };
    let pos = match parse_num(&p.0) {
        Some(x) => x,
        None => {
            return None;
        },
    };
    let k = skip_ws(v, p.1);
    if !(k < n && v[k] == ':') {
        return None;
    }
    let k2 = skip_ws(v, k + 1);
    if !(k2 < n && v[k2] == '[') {
        return None;
    }
    let lsp = match parse_letters(v, skip_ws(v, k2 + 1)) {
        Some(q) => q,
        None => {
            return None;
        },
    };
    let k3 = skip_ws(v, lsp.1);
    if !(k3 < n && v[k3] == ',') {
        return None;
    }
    let bp = match parse_bool(v, skip_ws(v, k3 + 1)) {
        Some(q) => q,
        None => {
            return None;
        },
    };
    let k4 = skip_ws(v, bp.1);
    if !(k4 < n && v[k4] == ']') {
        return None;
    }
    Some((KeyEntry { position: pos, letters: lsp.0, matching: bp.0 }, k4 + 1))
}

/// The first index of `vs` holding position `pos` is what `kv_idx` names.
proof fn lemma_kv_idx(vs: Seq<(nat, Seq<Seq<char>>, bool)>, pos: nat)
    ensures
        kv_idx(vs, pos) == -1 ==> forall|j: int| 0 <= j < vs.len() ==> (#[trigger] vs[j]).0 != pos,
        kv_idx(vs, pos) != -1 ==> 0 <= kv_idx(vs, pos) < vs.len() && vs[kv_idx(vs, pos)].0 == pos
            && (forall|j: int| 0 <= j < kv_idx(vs, pos) ==> (#[trigger] vs[j]).0 != pos),
    decreases vs.len(),
{
    if vs.len() > 0 && vs[0].0 != pos {
        lemma_kv_idx(vs.drop_first(), pos);
        assert forall|j: int| 1 <= j < vs.len() implies vs.drop_first()[j - 1] == vs[j] by {}
    }
}

/// Adds a parsed entry: a repeated position replaces the earlier entry.
fn kv_insert_exec(acc: &mut Vec<KeyEntry>, e: KeyEntry)
    ensures
        key_views(final(acc)@) == kv_insert(key_views(old(acc)@), key_entry_view(e)),
{
    let ghost vs = key_views(acc@);
    let ghost ev = key_entry_view(e);
    proof {
        lemma_kv_idx(vs, ev.0);
    }
    let n = acc.len();
    let mut m: usize = 0;
    while m < n
        invariant
            m <= n,
            n == acc@.len(),
            acc@ == old(acc)@,
            vs == key_views(acc@),
            ev == key_entry_view(e),
            kv_idx(vs, ev.0) == -1 ==> forall|j: int|
                0 <= j < vs.len() ==> (#[trigger] vs[j]).0 != ev.0,
            kv_idx(vs, ev.0) != -1 ==> 0 <= kv_idx(vs, ev.0) < vs.len() && vs[kv_idx(
                vs,
                ev.0,
            )].0 == ev.0 && (forall|j: int|
                0 <= j < kv_idx(vs, ev.0) ==> (#[trigger] vs[j]).0 != ev.0),
            forall|j: int| 0 <= j < m ==> (#[trigger] vs[j]).0 != ev.0,
        decreases n - m,
    {
        if acc[m].position == e.position {
            proof {
                assert(vs[m as int].0 == ev.0);
                assert(kv_idx(vs, ev.0) == m);
            }
            acc.set(m, e);
            proof {
                assert(key_views(acc@) =~= vs.update(m as int, ev));
            }
            return ;
        }
        proof {
            assert(vs[m as int] == key_entry_view(acc@[m as int]));
        }
        m += 1;
    }
    proof {
        if kv_idx(vs, ev.0) != -1 {
            assert(vs[kv_idx(vs, ev.0)].0 == ev.0);
            assert(false);
        }
    }
    acc.push(e);
    proof {
        assert(key_views(acc@) =~= vs.push(ev));
    }
}

/// Reads a whole answer key document.
fn parse_key(v: &Vec<char>) -> (r: Option<Vec<KeyEntry>>)
    ensures
        match sp_key(v@) {
            Some(m) => r matches Some(p) && key_views(p@) == m,
            None => r is None,
        },
{
    let n = v.len();
    let i = skip_ws(v, 0);
    if !(i < n && v[i] == '{') {
        return None;
    }
    let j0 = skip_ws(v, i + 1);
    if j0 < n && v[j0] == '}' {
        if skip_ws(v, j0 + 1) == n {
            let empty: Vec<KeyEntry> = Vec::new();
            proof {
                assert(key_views(empty@) =~= Seq::<(nat, Seq<Seq<char>>, bool)>::empty());
            }
            return Some(empty);
        } else {
            return None;
        }
    }
    let mut acc: Vec<KeyEntry> = Vec::new();
    let mut j = j0;
    let mut fuel = n;
    proof {
        assert(key_views(acc@) =~= Seq::<(nat, Seq<Seq<char>>, bool)>::empty());
    }
    while fuel > 0
        invariant
            j <= n,
            n == v@.len(),
            fuel <= n,
            sp_key(v@) == (match sp_key_entries(v@, j0 as int, Seq::empty(), n as nat) {
                None => None,
                Some((m, j2)) => if sp_ws(v@, j2) == v@.len() {
                    Some(m)
                } else {
                    None
                },
            }),
            sp_key_entries(v@, j0 as int, Seq::empty(), n as nat) == sp_key_entries(
                v@,
                j as int,
                key_views(acc@),
                fuel as nat,
            ),
        decreases fuel,
    {
        match parse_entry(v, j) {
            None => {
                return None;
            },
            Some(p) => {
                let j2 = p.1;
                let k = skip_ws(v, j2);
                if k < n && v[k] == ',' {
                    let j3 = skip_ws(v, k + 1);
                    kv_insert_exec(&mut acc, p.0);
                    j = j3;
                    fuel -= 1;
                } else if k < n && v[k] == '}' {
                    kv_insert_exec(&mut acc, p.0);
                    if skip_ws(v, k + 1) == n {
                        return Some(acc);
                    } else {
                        return None;
                    }
                } else {
                    return None;
                }
            },
        }
    }
    None
}

/// `t` stands verbatim in `s` at position `i`.
pub open spec fn matches_at(s: Seq<char>, i: int, t: Seq<char>) -> bool {
    0 <= i && i + t.len() <= s.len() && s.subrange(i, i + t.len()) == t
}

proof fn lemma_matches_split(s: Seq<char>, i: int, a: Seq<char>, b: Seq<char>)
    requires
        matches_at(s, i, a + b),
    ensures
        matches_at(s, i, a),
        matches_at(s, i + a.len(), b),
{
    assert(s.subrange(i, i + a.len()) =~= a) by {
        assert forall|k: int| 0 <= k < a.len() implies s.subrange(i, i + a.len())[k] == a[k] by {
            assert(s.subrange(i, i + (a + b).len())[k] == (a + b)[k]);
        }
    }
    assert(s.subrange(i + a.len(), i + a.len() + b.len()) =~= b) by {
        assert forall|k: int|
            0 <= k < b.len() implies s.subrange(i + a.len(), i + a.len() + b.len())[k] == b[k] by {
            assert(s.subrange(i, i + (a + b).len())[a.len() + k] == (a + b)[a.len() + k]);
        }
    }
}

proof fn lemma_matches_index(s: Seq<char>, i: int, t: Seq<char>, k: int)
    requires
        matches_at(s, i, t),
        0 <= k < t.len(),
    ensures
        s[i + k] == t[k],
{
    assert(s.subrange(i, i + t.len())[k] == t[k]);
}

/// Escaping distributes over a leading character.
proof fn lemma_esc_front(s: Seq<char>)
    requires
        s.len() > 0,
    ensures
        esc(s) == esc_char(s[0]) + esc(s.drop_first()),
    decreases s.len(),
{
    if s.len() == 1 {
        assert(s.drop_last() =~= Seq::<char>::empty());
        assert(s.drop_first() =~= Seq::<char>::empty());
        assert(esc(s) =~= esc_char(s[0]) + esc(s.drop_first()));
    } else {
        lemma_esc_front(s.drop_last());
        assert(s.drop_last()[0] == s[0]);
        assert(s.drop_last().drop_first() =~= s.drop_first().drop_last());
        assert(s.drop_first().last() == s.last());
        assert(esc(s) == esc(s.drop_last()) + esc_char(s.last()));
        assert(esc(s.drop_first()) == esc(s.drop_first().drop_last()) + esc_char(s.last()));
        assert(esc(s) =~= esc_char(s[0]) + esc(s.drop_first()));
    }
}

/// Reading a string token at a serialized string yields exactly its text.
proof fn lemma_parse_str_body(s: Seq<char>, i: int, c: Seq<char>, acc: Seq<char>)
    requires
        matches_at(s, i, esc(c) + seq!['"']),
    ensures
        sp_str_body(s, i, acc) == Some((acc + c, i + esc(c).len() + 1)),
    decreases c.len(),
{
    if c.len() == 0 {
        assert(esc(c) =~= Seq::<char>::empty());
        lemma_matches_index(s, i, esc(c) + seq!['"'], 0);
        assert(s[i] == '"');
        assert(acc + c =~= acc);
    } else {
        lemma_esc_front(c);
        let e0 = esc_char(c[0]);
        let rest = esc(c.drop_first()) + seq!['"'];
        assert(esc(c) + seq!['"'] =~= e0 + rest);
        lemma_matches_split(s, i, e0, rest);
        if c[0] == '"' {
            lemma_matches_index(s, i, e0, 0);
            lemma_matches_index(s, i, e0, 1);
            assert(s[i] == '\\' && s[i + 1] == '"');
            lemma_parse_str_body(s, i + 2, c.drop_first(), acc.push(c[0]));
            assert(acc.push(c[0]) + c.drop_first() =~= acc + c);
        } else if c[0] == '\\' {
            lemma_matches_index(s, i, e0, 0);
            lemma_matches_index(s, i, e0, 1);
            assert(s[i] == '\\' && s[i + 1] == '\\');
            lemma_parse_str_body(s, i + 2, c.drop_first(), acc.push(c[0]));
            assert(acc.push(c[0]) + c.drop_first() =~= acc + c);
        } else {
            lemma_matches_index(s, i, e0, 0);
            assert(s[i] == c[0]);
            lemma_parse_str_body(s, i + 1, c.drop_first(), acc.push(c[0]));
            assert(acc.push(c[0]) + c.drop_first() =~= acc + c);
        }
    }
}

/// Reading a string token at a serialized string yields exactly its text.
proof fn lemma_parse_string(s: Seq<char>, i: int, c: Seq<char>)
    requires
        matches_at(s, i, ser_string(c)),
    ensures
        sp_string(s, i) == Some((c, i + ser_string(c).len())),
{
    assert(ser_string(c) =~= seq!['"'] + (esc(c) + seq!['"']));
    lemma_matches_split(s, i, seq!['"'], esc(c) + seq!['"']);
    lemma_matches_index(s, i, seq!['"'], 0);
    assert(s[i] == '"');
    lemma_parse_str_body(s, i + 1, c, Seq::empty());
    assert(Seq::empty() + c =~= c);
}

/// Every character of a decimal rendering is a digit.
proof fn lemma_dec_digits(n: nat)
    ensures
        forall|k: int| 0 <= k < spec_dec(n).len() ==> is_digit(#[trigger] spec_dec(n)[k]),
        spec_dec(n).len() > 0,
    decreases n,
{
    if n >= 10 {
        lemma_dec_digits(n / 10);
    }
}

/// Digits escape to themselves.
proof fn lemma_esc_id(s: Seq<char>)
    requires
        forall|k: int| 0 <= k < s.len() ==> #[trigger] s[k] != '"' && s[k] != '\\',
    ensures
        esc(s) == s,
    decreases s.len(),
{
    if s.len() > 0 {
        lemma_esc_id(s.drop_last());
        assert(esc(s) =~= s);
    }
}

/// Appending a digit multiplies the read value by ten and adds the digit.
proof fn lemma_nv_push(cs: Seq<char>, i: int, acc: nat, d: char)
    requires
        0 <= i <= cs.len(),
        is_digit(d),
    ensures
        nv(cs.push(d), i, acc) == (match nv(cs, i, acc) {
            Some(v) => Some(v * 10 + dval(d)),
            None => None,
        }),
    decreases cs.len() - i,
{
    if i >= cs.len() {
        assert(cs.push(d)[i] == d);
        assert(nv(cs.push(d), i, acc) == nv(cs.push(d), i + 1, acc * 10 + dval(d)));
    } else {
        assert(cs.push(d)[i] == cs[i]);
        if is_digit(cs[i]) {
            lemma_nv_push(cs, i + 1, acc * 10 + dval(cs[i]), d);
        }
    }
}

/// Reading back a decimal rendering yields the number.
proof fn lemma_num_dec(n: nat)
    ensures
        num_of(spec_dec(n)) == Some(n),
    decreases n,
{
    if n < 10 {
        let c = spec_dec(n)[0];
        assert(c as u32 == '0' as u32 + n) by {
            assert(('0' as u8 + n) as u8 as char as u32 == '0' as u32 + n);
        }
        assert(is_digit(c));
        assert(dval(c) == n);
        assert(nv(spec_dec(n), 0, 0) == nv(spec_dec(n), 1, n));
    } else {
        lemma_num_dec(n / 10);
        let d = spec_dec(n % 10)[0];
        assert(spec_dec(n) =~= spec_dec(n / 10).push(d));
        assert(is_digit(d) && dval(d) == n % 10) by {
            assert(('0' as u8 + n % 10) as u8 as char as u32 == '0' as u32 + n % 10);
        }
        lemma_nv_push(spec_dec(n / 10), 0, 0, d);
        assert(n / 10 * 10 + n % 10 == n);
    }
}

/// No structural character of the format is whitespace, so reading
/// whitespace at one stands still.
proof fn lemma_ws_still(s: Seq<char>, i: int)
    requires
        0 <= i < s.len() ==> !is_json_ws(s[i]),
    ensures
        sp_ws(s, i) == i,
{
}

/// Reading the items of a serialized letters array yields exactly the list.
proof fn lemma_parse_letters_items(
    s: Seq<char>,
    i: int,
    ls: Seq<Seq<char>>,
    acc: Seq<Seq<char>>,
    fuel: nat,
)
    requires
        ls.len() >= 1,
        fuel >= ls.len(),
        matches_at(s, i, ser_letters_body(ls) + seq![']']),
    ensures
        sp_letters_items(s, i, acc, fuel) == Some(
            (acc + ls, i + ser_letters_body(ls).len() + 1),
        ),
    decreases ls.len(),
{
    if ls.len() == 1 {
        assert(ser_letters_body(ls) == ser_string(ls[0]));
        lemma_matches_split(s, i, ser_string(ls[0]), seq![']']);
        lemma_parse_string(s, i, ls[0]);
        let j = i + ser_string(ls[0]).len();
        lemma_matches_index(s, j, seq![']'], 0);
        assert(s[j] == ']');
        lemma_ws_still(s, j);
        assert(acc.push(ls[0]) =~= acc + ls);
    } else {
        let front = ls.drop_last();
        let hd = ls[0];
        let tl = ls.drop_first();
        assert(ser_letters_body(ls) == ser_letters_body(front) + seq![','] + ser_string(
            ls.last(),
        ));
        lemma_slb_front(ls);
        assert(ser_letters_body(ls) + seq![']'] =~= ser_string(hd) + (seq![','] + (
        ser_letters_body(tl) + seq![']'])));
        lemma_matches_split(s, i, ser_string(hd), seq![','] + (ser_letters_body(tl) + seq![']']));
        let j = i + ser_string(hd).len();
        lemma_matches_split(s, j, seq![','], ser_letters_body(tl) + seq![']']);
        lemma_parse_string(s, i, hd);
        lemma_matches_index(s, j, seq![','], 0);
        assert(s[j] == ',');
        lemma_ws_still(s, j);
        lemma_matches_index(s, j + 1, ser_letters_body(tl) + seq![']'], 0);
        lemma_slb_head_not_ws(tl);
        lemma_ws_still(s, j + 1);
        lemma_parse_letters_items(s, j + 1, tl, acc.push(hd), (fuel - 1) as nat);
        assert(acc.push(hd) + tl =~= acc + ls);
    }
}

/// The letters-array body splits around its first string token.
proof fn lemma_slb_front(ls: Seq<Seq<char>>)
    requires
        ls.len() >= 2,
    ensures
        ser_letters_body(ls) == ser_string(ls[0]) + seq![','] + ser_letters_body(ls.drop_first()),
    decreases ls.len(),
{
    if ls.len() == 2 {
        assert(ls.drop_last() =~= seq![ls[0]]);
        assert(ls.drop_first() =~= seq![ls[1]]);
        assert(seq![ls[0]].len() == 1 && seq![ls[0]][0] == ls[0]);
        assert(seq![ls[1]].len() == 1 && seq![ls[1]][0] == ls[1]);
        assert(ser_letters_body(seq![ls[0]]) == ser_string(ls[0]));
        assert(ser_letters_body(seq![ls[1]]) == ser_string(ls[1]));
        assert(ls.last() == ls[1]);
        assert(ser_letters_body(ls) == ser_letters_body(ls.drop_last()) + seq![','] + ser_string(
            ls.last(),
        ));
        assert(ser_letters_body(ls) =~= ser_string(ls[0]) + seq![','] + ser_letters_body(
            ls.drop_first(),
        ));
    } else {
        lemma_slb_front(ls.drop_last());
        assert(ls.drop_last()[0] == ls[0]);
        assert(ls.drop_last().drop_first() =~= ls.drop_first().drop_last());
        assert(ls.drop_first().last() == ls.last());
        assert(ser_letters_body(ls.drop_first()) == ser_letters_body(ls.drop_first().drop_last())
            + seq![','] + ser_string(ls.drop_first().last()));
        assert(ser_letters_body(ls) =~= ser_string(ls[0]) + seq![','] + ser_letters_body(
            ls.drop_first(),
        ));
    }
}

/// A letters-array body opens with a quote.
proof fn lemma_slb_head_not_ws(ls: Seq<Seq<char>>)
    requires
        ls.len() >= 1,
    ensures
        ser_letters_body(ls).len() >= 1,
        ser_letters_body(ls)[0] == '"',
    decreases ls.len(),
{
    if ls.len() == 1 {
        assert(ser_letters_body(ls)[0] == ser_string(ls[0])[0]);
    } else {
        lemma_slb_head_not_ws(ls.drop_last());
    }
}

/// Reading a letters array at its serialization yields exactly the list.
proof fn lemma_parse_letters(s: Seq<char>, i: int, ls: Seq<Seq<char>>)
    requires
        matches_at(s, i, ser_letters(ls)),
    ensures
        sp_letters(s, i) == Some((ls, i + ser_letters(ls).len())),
{
    assert(ser_letters(ls) =~= seq!['['] + (ser_letters_body(ls) + seq![']']));
    lemma_matches_split(s, i, seq!['['], ser_letters_body(ls) + seq![']']);
    lemma_matches_index(s, i, seq!['['], 0);
    assert(s[i] == '[');
    if ls.len() == 0 {
        lemma_matches_index(s, i + 1, ser_letters_body(ls) + seq![']'], 0);
        assert(s[i + 1] == ']');
        lemma_ws_still(s, i + 1);
    } else {
        lemma_slb_head_not_ws(ls);
        lemma_matches_index(s, i + 1, ser_letters_body(ls) + seq![']'], 0);
        assert(s[i + 1] == '"');
        lemma_ws_still(s, i + 1);
        assert(ls.len() <= ser_letters_body(ls).len()) by {
            lemma_slb_len_ge(ls);
        }
        lemma_parse_letters_items(s, i + 1, ls, Seq::empty(), s.len());
        assert(Seq::empty() + ls =~= ls);
    }
}

/// A letters-array body is at least as long as its list.
proof fn lemma_slb_len_ge(ls: Seq<Seq<char>>)
    requires
        ls.len() >= 1,
    ensures
        ser_letters_body(ls).len() >= ls.len(),
    decreases ls.len(),
{
    if ls.len() > 1 {
        lemma_slb_len_ge(ls.drop_last());
    }
}

/// Reading a boolean token at its serialization yields the value.
proof fn lemma_parse_bool(s: Seq<char>, i: int, b: bool)
    requires
        matches_at(s, i, ser_bool(b)),
    ensures
        sp_bool(s, i) == Some((b, i + ser_bool(b).len())),
{
    if b {
        lemma_matches_index(s, i, ser_bool(b), 0);
        lemma_matches_index(s, i, ser_bool(b), 1);
        lemma_matches_index(s, i, ser_bool(b), 2);
        lemma_matches_index(s, i, ser_bool(b), 3);
    } else {
        lemma_matches_index(s, i, ser_bool(b), 0);
        lemma_matches_index(s, i, ser_bool(b), 1);
        lemma_matches_index(s, i, ser_bool(b), 2);
        lemma_matches_index(s, i, ser_bool(b), 3);
        lemma_matches_index(s, i, ser_bool(b), 4);
    }
}

/// Reading one entry at its serialization yields exactly the entry.
proof fn lemma_parse_entry(s: Seq<char>, i: int, v: (nat, Seq<Seq<char>>, bool))
    requires
        matches_at(s, i, ser_entry(v)),
        v.0 <= usize::MAX,
    ensures
        sp_entry(s, i) == Some((v, i + ser_entry(v).len())),
{
    lemma_dec_digits(v.0);
    assert forall|k: int|
        0 <= k < spec_dec(v.0).len() implies #[trigger] spec_dec(v.0)[k] != '"' && spec_dec(
        v.0,
    )[k] != '\\' by {
        assert(is_digit(spec_dec(v.0)[k]));
    }
    lemma_esc_id(spec_dec(v.0));
    let st = ser_string(spec_dec(v.0));
    let tail1 = seq![':', '['] + ser_letters(v.1) + seq![','] + ser_bool(v.2) + seq![']'];
    assert(ser_entry(v) =~= st + tail1);
    lemma_matches_split(s, i, st, tail1);
    lemma_parse_string(s, i, spec_dec(v.0));
    lemma_num_dec(v.0);
    let j = i + st.len();
    assert(tail1 =~= seq![':'] + (seq!['['] + (ser_letters(v.1) + (seq![','] + (ser_bool(v.2)
        + seq![']'])))));
    lemma_matches_split(s, j, seq![':'], seq!['['] + (ser_letters(v.1) + (seq![','] + (ser_bool(
        v.2,
    ) + seq![']']))));
    lemma_matches_index(s, j, seq![':'], 0);
    lemma_ws_still(s, j);
    lemma_matches_split(s, j + 1, seq!['['], ser_letters(v.1) + (seq![','] + (ser_bool(v.2)
        + seq![']'])));
    lemma_matches_index(s, j + 1, seq!['['], 0);
    lemma_ws_still(s, j + 1);
    let j2 = j + 2;
    lemma_matches_split(s, j2, ser_letters(v.1), seq![','] + (ser_bool(v.2) + seq![']']));
    lemma_matches_index(s, j2, ser_letters(v.1), 0);
    lemma_ws_still(s, j2);
    lemma_parse_letters(s, j2, v.1);
    let j3 = j2 + ser_letters(v.1).len();
    lemma_matches_split(s, j3, seq![','], ser_bool(v.2) + seq![']']);
    lemma_matches_index(s, j3, seq![','], 0);
    lemma_ws_still(s, j3);
    lemma_matches_split(s, j3 + 1, ser_bool(v.2), seq![']']);
    lemma_matches_index(s, j3 + 1, ser_bool(v.2), 0);
    lemma_ws_still(s, j3 + 1);
    lemma_parse_bool(s, j3 + 1, v.2);
    let j4 = j3 + 1 + ser_bool(v.2).len();
    lemma_matches_index(s, j4, seq![']'], 0);
    lemma_ws_still(s, j4);
    assert(v == (v.0, v.1, v.2));
    assert(i + ser_entry(v).len() == j4 + 1);
}

/// No two of these entries share a position.
pub open spec fn distinct_pos(vs: Seq<(nat, Seq<Seq<char>>, bool)>) -> bool {
    forall|i: int, j: int|
        #![trigger vs[i].0, vs[j].0]
        0 <= i < j < vs.len() ==> vs[i].0 != vs[j].0
}

/// The key body splits around its first entry.
proof fn lemma_skb_front(vs: Seq<(nat, Seq<Seq<char>>, bool)>)
    requires
        vs.len() >= 2,
    ensures
        ser_key_body(vs) == ser_entry(vs[0]) + seq![','] + ser_key_body(vs.drop_first()),
    decreases vs.len(),
{
    if vs.len() == 2 {
        assert(vs.drop_last() =~= seq![vs[0]]);
        assert(vs.drop_first() =~= seq![vs[1]]);
        assert(seq![vs[0]].len() == 1 && seq![vs[0]][0] == vs[0]);
        assert(seq![vs[1]].len() == 1 && seq![vs[1]][0] == vs[1]);
        assert(ser_key_body(seq![vs[0]]) == ser_entry(vs[0]));
        assert(ser_key_body(seq![vs[1]]) == ser_entry(vs[1]));
        assert(vs.last() == vs[1]);
        assert(ser_key_body(vs) == ser_key_body(vs.drop_last()) + seq![','] + ser_entry(
            vs.last(),
        ));
        assert(ser_key_body(vs) =~= ser_entry(vs[0]) + seq![','] + ser_key_body(vs.drop_first()));
    } else {
        lemma_skb_front(vs.drop_last());
        assert(vs.drop_last()[0] == vs[0]);
        assert(vs.drop_last().drop_first() =~= vs.drop_first().drop_last());
        assert(vs.drop_first().last() == vs.last());
        assert(ser_key_body(vs.drop_first()) == ser_key_body(vs.drop_first().drop_last())
            + seq![','] + ser_entry(vs.drop_first().last()));
        assert(ser_key_body(vs) =~= ser_entry(vs[0]) + seq![','] + ser_key_body(vs.drop_first()));
    }
}

/// A key body opens with a quote.
proof fn lemma_skb_head(vs: Seq<(nat, Seq<Seq<char>>, bool)>)
    requires
        vs.len() >= 1,
    ensures
        ser_key_body(vs).len() >= 1,
        ser_key_body(vs)[0] == '"',
    decreases vs.len(),
{
    if vs.len() == 1 {
        assert(ser_key_body(vs)[0] == ser_entry(vs[0])[0]);
    } else {
        lemma_skb_head(vs.drop_last());
    }
}

/// A key body is at least as long as its entry list.
proof fn lemma_skb_len_ge(vs: Seq<(nat, Seq<Seq<char>>, bool)>)
    requires
        vs.len() >= 1,
    ensures
        ser_key_body(vs).len() >= vs.len(),
    decreases vs.len(),
{
    if vs.len() > 1 {
        lemma_skb_len_ge(vs.drop_last());
    }
}

/// Reading the entries of a serialized key, with no repeated positions,
/// appends them in order.
proof fn lemma_parse_key_entries(
    s: Seq<char>,
    i: int,
    vs: Seq<(nat, Seq<Seq<char>>, bool)>,
    acc: Seq<(nat, Seq<Seq<char>>, bool)>,
    fuel: nat,
)
    requires
        vs.len() >= 1,
        fuel >= vs.len(),
        matches_at(s, i, ser_key_body(vs) + seq!['}']),
        distinct_pos(acc + vs),
        forall|k: int| 0 <= k < vs.len() ==> (#[trigger] vs[k]).0 <= usize::MAX,
    ensures
        sp_key_entries(s, i, acc, fuel) == Some((acc + vs, i + ser_key_body(vs).len() + 1)),
    decreases vs.len(),
{
    let hd = vs[0];
    assert(hd.0 <= usize::MAX);
    lemma_kv_idx(acc, hd.0);
    if kv_idx(acc, hd.0) != -1 {
        let m = kv_idx(acc, hd.0);
        assert((acc + vs)[m] == acc[m]);
        assert((acc + vs)[acc.len() as int] == hd);
        assert(false);
    }
    assert(kv_insert(acc, hd) == acc.push(hd));
    if vs.len() == 1 {
        assert(ser_key_body(vs) == ser_entry(hd));
        lemma_matches_split(s, i, ser_entry(hd), seq!['}']);
        lemma_parse_entry(s, i, hd);
        let j = i + ser_entry(hd).len();
        lemma_matches_index(s, j, seq!['}'], 0);
        lemma_ws_still(s, j);
        assert(acc.push(hd) =~= acc + vs);
    } else {
        let tl = vs.drop_first();
        lemma_skb_front(vs);
        assert(ser_key_body(vs) + seq!['}'] =~= ser_entry(hd) + (seq![','] + (ser_key_body(tl)
            + seq!['}'])));
        lemma_matches_split(s, i, ser_entry(hd), seq![','] + (ser_key_body(tl) + seq!['}']));
        lemma_parse_entry(s, i, hd);
        let j = i + ser_entry(hd).len();
        lemma_matches_split(s, j, seq![','], ser_key_body(tl) + seq!['}']);
        lemma_matches_index(s, j, seq![','], 0);
        lemma_ws_still(s, j);
        lemma_skb_head(tl);
        lemma_matches_index(s, j + 1, ser_key_body(tl) + seq!['}'], 0);
        lemma_ws_still(s, j + 1);
        assert(acc.push(hd) + tl =~= acc + vs);
        assert forall|k: int| 0 <= k < tl.len() implies (#[trigger] tl[k]).0 <= usize::MAX by {
            assert(tl[k] == vs[k + 1]);
        }
        lemma_parse_key_entries(s, j + 1, tl, acc.push(hd), (fuel - 1) as nat);
    }
}

/// Deserializing a serialized answer key reproduces exactly the same
/// position-to-letters-and-flag entries: nothing is lost or reordered.
pub proof fn lemma_key_round_trip(entries: Seq<crate::key::KeyEntry>)
    requires
        crate::key::key_sorted(entries),
    ensures
        sp_key(ser_key(key_views(entries))) == Some(key_views(entries)),
{
    let vs = key_views(entries);
    let s = ser_key(vs);
    assert(vs.len() == entries.len());
    assert forall|k: int| 0 <= k < vs.len() implies (#[trigger] vs[k]).0 <= usize::MAX by {
        assert(vs[k] == key_entry_view(entries[k]));
    }
    assert(distinct_pos(vs)) by {
        assert forall|i: int, j: int|
            0 <= i < j < vs.len() implies (#[trigger] vs[i].0) != (#[trigger] vs[j].0) by {
            assert(vs[i] == key_entry_view(entries[i]));
            assert(vs[j] == key_entry_view(entries[j]));
            assert(entries[i].position < entries[j].position);
        }
    }
    assert(s =~= seq!['{'] + (ser_key_body(vs) + seq!['}']));
    assert(matches_at(s, 0, seq!['{'] + (ser_key_body(vs) + seq!['}']))) by {
        assert(s.subrange(0, s.len() as int) =~= s);
    }
    lemma_matches_split(s, 0, seq!['{'], ser_key_body(vs) + seq!['}']);
    lemma_matches_index(s, 0, seq!['{'], 0);
    lemma_ws_still(s, 0);
    if vs.len() == 0 {
        assert(ser_key_body(vs) =~= Seq::<char>::empty());
        lemma_matches_index(s, 1, ser_key_body(vs) + seq!['}'], 0);
        assert(s[1] == '}');
        lemma_ws_still(s, 1);
        assert(sp_ws(s, 2) == 2);
        assert(s.len() == 2);
    } else {
        lemma_skb_head(vs);
        lemma_matches_index(s, 1, ser_key_body(vs) + seq!['}'], 0);
        assert(s[1] == '"');
        lemma_ws_still(s, 1);
        lemma_skb_len_ge(vs);
        assert(Seq::<(nat, Seq<Seq<char>>, bool)>::empty() + vs =~= vs);
        lemma_parse_key_entries(s, 1, vs, Seq::empty(), s.len());
        let j2 = 1 + ser_key_body(vs).len() as int + 1;
        assert(j2 == s.len());
        lemma_ws_still(s, j2);
    }
}

impl crate::key::Answers {
    /// Loads an answer key from its machine-format text; a key loaded this
    /// way carries no annotated Markdown.
    pub fn from(text: &str) -> (r: Result<crate::key::Answers, DecodeError>)
        ensures
            match sp_key(text@) {
                Some(m) => r matches Ok(a) && key_views(a.answers@) == m && a.markdown is None,
                None => r == Err::<crate::key::Answers, DecodeError>(DecodeError::KeyFormat),
            },
{
        let cs = chars_of(text);
        match parse_key(&cs) {
            Some(entries) => Ok(crate::key::Answers { answers: entries, markdown: None }),
            None => Err(DecodeError::KeyFormat),
        }
    }
}

/// The view of one submitted answer: position and letter texts.
pub open spec fn sub_view(e: crate::grade::SubEntry) -> (nat, Seq<Seq<char>>) {
    (e.position as nat, crate::md::frags_view(e.letters@))
}

/// The views of a student's answers.
pub open spec fn subs_view(v: Seq<crate::grade::SubEntry>) -> Seq<(nat, Seq<Seq<char>>)> {
    v.map_values(|e: crate::grade::SubEntry| sub_view(e))
}

/// The view of one student: name and answers.
pub open spec fn student_view(st: crate::grade::Student) -> (Seq<char>, Seq<(nat, Seq<Seq<char>>)>) {
    (st.name@, subs_view(st.answers@))
}

/// The views of a class's students.
pub open spec fn students_view(v: Seq<crate::grade::Student>) -> Seq<
    (Seq<char>, Seq<(nat, Seq<Seq<char>>)>),
> {
    v.map_values(|st: crate::grade::Student| student_view(st))
}

/// The first index of `vs` holding position `pos`, or -1.
pub open spec fn sv_idx(vs: Seq<(nat, Seq<Seq<char>>)>, pos: nat) -> int
    decreases vs.len(),
{
    if vs.len() == 0 {
        -1
    } else if vs[0].0 == pos {
        0
    } else {
        let r = sv_idx(vs.drop_first(), pos);
        if r < 0 {
            -1
        } else {
            r + 1
        }
    }
}

/// Adds a parsed answer: a repeated position replaces the earlier one.
pub open spec fn sv_insert(vs: Seq<(nat, Seq<Seq<char>>)>, e: (nat, Seq<Seq<char>>)) -> Seq<
    (nat, Seq<Seq<char>>),
> {
    let i = sv_idx(vs, e.0);
    if i >= 0 {
        vs.update(i, e)
    } else {
        vs.push(e)
    }
}

/// The first index of `vs` holding this student name, or -1.
pub open spec fn st_idx(
    vs: Seq<(Seq<char>, Seq<(nat, Seq<Seq<char>>)>)>,
    name: Seq<char>,
) -> int
    decreases vs.len(),
{
    if vs.len() == 0 {
        -1
    } else if vs[0].0 == name {
        0
    } else {
        let r = st_idx(vs.drop_first(), name);
        if r < 0 {
            -1
        } else {
            r + 1
        }
    }
}

/// Adds a parsed student: a repeated name replaces the earlier one.
pub open spec fn st_insert(
    vs: Seq<(Seq<char>, Seq<(nat, Seq<Seq<char>>)>)>,
    e: (Seq<char>, Seq<(nat, Seq<Seq<char>>)>),
) -> Seq<(Seq<char>, Seq<(nat, Seq<Seq<char>>)>)> {
    let i = st_idx(vs, e.0);
    if i >= 0 {
        vs.update(i, e)
    } else {
        vs.push(e)
    }
}

/// Reads the entries of a nonempty per-student answer object up to its
/// closing brace.
pub open spec fn sp_sub_entries(
    s: Seq<char>,
    i: int,
    acc: Seq<(nat, Seq<Seq<char>>)>,
    fuel: nat,
) -> Option<(Seq<(nat, Seq<Seq<char>>)>, int)>
    decreases fuel,
{
    if fuel == 0 {
        None
    } else {
        match sp_string(s, i) {
            None => None,
            Some((pcs, j)) => match num_of(pcs) {
                None => None,
                Some(pos) => if pos > usize::MAX as nat {
                    None
                } else {
                    let k = sp_ws(s, j);
                    if 0 <= k < s.len() && s[k] == ':' {
                        match sp_letters(s, sp_ws(s, k + 1)) {
                            None => None,
                            Some((ls, j2)) => {
                                let k2 = sp_ws(s, j2);
                                if 0 <= k2 < s.len() && s[k2] == ',' {
                                    sp_sub_entries(
                                        s,
                                        sp_ws(s, k2 + 1),
                                        sv_insert(acc, (pos, ls)),
                                        (fuel - 1) as nat,
                                    )
                                } else if 0 <= k2 < s.len() && s[k2] == '}' {
                                    Some((sv_insert(acc, (pos, ls)), k2 + 1))
                                } else {
                                    None
                                }
                            },
                        }
                    } else {
                        None
                    }
                },
            },
        }
    }
}

/// Reads one student's answer object at `i`.
pub open spec fn sp_sub_map(s: Seq<char>, i: int) -> Option<(Seq<(nat, Seq<Seq<char>>)>, int)> {
    if 0 <= i < s.len() && s[i] == '{' {
        let j = sp_ws(s, i + 1);
        if 0 <= j < s.len() && s[j] == '}' {
            Some((Seq::empty(), j + 1))
        } else {
            sp_sub_entries(s, j, Seq::empty(), s.len())
        }
    } else {
        None
    }
}

/// Reads the entries of a nonempty students object up to its closing brace.
pub open spec fn sp_students_entries(
    s: Seq<char>,
    i: int,
    acc: Seq<(Seq<char>, Seq<(nat, Seq<Seq<char>>)>)>,
    fuel: nat,
) -> Option<(Seq<(Seq<char>, Seq<(nat, Seq<Seq<char>>)>)>, int)>
    decreases fuel,
{
    if fuel == 0 {
        None
    } else {
        match sp_string(s, i) {
            None => None,
            Some((name, j)) => {
                let k = sp_ws(s, j);
                if 0 <= k < s.len() && s[k] == ':' {
                    match sp_sub_map(s, sp_ws(s, k + 1)) {
                        None => None,
                        Some((subs, j2)) => {
                            let k2 = sp_ws(s, j2);
                            if 0 <= k2 < s.len() && s[k2] == ',' {
                                sp_students_entries(
                                    s,
                                    sp_ws(s, k2 + 1),
                                    st_insert(acc, (name, subs)),
                                    (fuel - 1) as nat,
                                )
                            } else if 0 <= k2 < s.len() && s[k2] == '}' {
                                Some((st_insert(acc, (name, subs)), k2 + 1))
                            } else {
                                None
                            }
                        },
                    }
                } else {
                    None
                }
            },
        }
    }
}

/// Reads a students object at `i`.
pub open spec fn sp_students(s: Seq<char>, i: int) -> Option<
    (Seq<(Seq<char>, Seq<(nat, Seq<Seq<char>>)>)>, int),
> {
    if 0 <= i < s.len() && s[i] == '{' {
        let j = sp_ws(s, i + 1);
        if 0 <= j < s.len() && s[j] == '}' {
            Some((Seq::empty(), j + 1))
        } else {
            sp_students_entries(s, j, Seq::empty(), s.len())
        }
    } else {
        None
    }
}

/// Reads the rest of a submission document after its opening brace, with the
/// description field first.
pub open spec fn sp_class_desc_first(s: Seq<char>, i: int) -> Option<
    (Seq<char>, Seq<(Seq<char>, Seq<(nat, Seq<Seq<char>>)>)>),
> {
    match sp_string(s, i) {
        None => None,
        Some((desc, j)) => {
            let k = sp_ws(s, j);
            if 0 <= k < s.len() && s[k] == ',' {
                match sp_string(s, sp_ws(s, k + 1)) {
                    None => None,
                    Some((f2, j2)) => if f2 == "students"@ {
                        let k2 = sp_ws(s, j2);
                        if 0 <= k2 < s.len() && s[k2] == ':' {
                            match sp_students(s, sp_ws(s, k2 + 1)) {
                                None => None,
                                Some((sts, j3)) => {
                                    let k3 = sp_ws(s, j3);
                                    if 0 <= k3 < s.len() && s[k3] == '}' && sp_ws(s, k3 + 1)
                                        == s.len() {
                                        Some((desc, sts))
                                    } else {
                                        None
                                    }
                                },
                            }
                        } else {
                            None
                        }
                    } else {
                        None
                    },
                }
            } else {
                None
            }
        },
    }
}

/// Reads the rest of a submission document after its opening brace, with the
/// students field first.
pub open spec fn sp_class_students_first(s: Seq<char>, i: int) -> Option<
    (Seq<char>, Seq<(Seq<char>, Seq<(nat, Seq<Seq<char>>)>)>),
> {
    match sp_students(s, i) {
        None => None,
        Some((sts, j)) => {
            let k = sp_ws(s, j);
            if 0 <= k < s.len() && s[k] == ',' {
                match sp_string(s, sp_ws(s, k + 1)) {
                    None => None,
                    Some((f2, j2)) => if f2 == "description"@ {
                        let k2 = sp_ws(s, j2);
                        if 0 <= k2 < s.len() && s[k2] == ':' {
                            match sp_string(s, sp_ws(s, k2 + 1)) {
                                None => None,
                                Some((desc, j3)) => {
                                    let k3 = sp_ws(s, j3);
                                    if 0 <= k3 < s.len() && s[k3] == '}' && sp_ws(s, k3 + 1)
                                        == s.len() {
                                        Some((desc, sts))
                                    } else {
                                        None
                                    }
                                },
                            }
                        } else {
                            None
                        }
                    } else {
                        None
                    },
                }
            } else {
                None
            }
        },
    }
}

/// Reads a whole submission document: an object holding exactly a
/// `description` string and a `students` object, in either order.
pub open spec fn sp_class(s: Seq<char>) -> Option<
    (Seq<char>, Seq<(Seq<char>, Seq<(nat, Seq<Seq<char>>)>)>),
> {
    let i = sp_ws(s, 0);
    if 0 <= i < s.len() && s[i] == '{' {
        let j = sp_ws(s, i + 1);
        match sp_string(s, j) {
            None => None,
            Some((f1, j1)) => {
                let k = sp_ws(s, j1);
                if 0 <= k < s.len() && s[k] == ':' {
                    let k2 = sp_ws(s, k + 1);
                    if f1 == "description"@ {
                        sp_class_desc_first(s, k2)
                    } else if f1 == "students"@ {
                        sp_class_students_first(s, k2)
                    } else {
                        None
                    }
                } else {
                    None
                }
            },
        }
    } else {
        None
    }
}

/// The first index of `vs` holding position `pos` is what `sv_idx` names.
proof fn lemma_sv_idx(vs: Seq<(nat, Seq<Seq<char>>)>, pos: nat)
    ensures
        sv_idx(vs, pos) == -1 ==> forall|j: int| 0 <= j < vs.len() ==> (#[trigger] vs[j]).0 != pos,
        sv_idx(vs, pos) != -1 ==> 0 <= sv_idx(vs, pos) < vs.len() && vs[sv_idx(vs, pos)].0 == pos
            && (forall|j: int| 0 <= j < sv_idx(vs, pos) ==> (#[trigger] vs[j]).0 != pos),
    decreases vs.len(),
{
    if vs.len() > 0 && vs[0].0 != pos {
        lemma_sv_idx(vs.drop_first(), pos);
        assert forall|j: int| 1 <= j < vs.len() implies vs.drop_first()[j - 1] == vs[j] by {}
    }
}

/// The first index of `vs` holding this name is what `st_idx` names.
proof fn lemma_st_idx(vs: Seq<(Seq<char>, Seq<(nat, Seq<Seq<char>>)>)>, name: Seq<char>)
    ensures
        st_idx(vs, name) == -1 ==> forall|j: int|
            0 <= j < vs.len() ==> (#[trigger] vs[j]).0 != name,
        st_idx(vs, name) != -1 ==> 0 <= st_idx(vs, name) < vs.len() && vs[st_idx(vs, name)].0
            == name && (forall|j: int| 0 <= j < st_idx(vs, name) ==> (#[trigger] vs[j]).0 != name),
    decreases vs.len(),
{
    if vs.len() > 0 && vs[0].0 != name {
        lemma_st_idx(vs.drop_first(), name);
        assert forall|j: int| 1 <= j < vs.len() implies vs.drop_first()[j - 1] == vs[j] by {}
    }
}

/// Adds a parsed answer: a repeated position replaces the earlier one.
fn sv_insert_exec(acc: &mut Vec<crate::grade::SubEntry>, e: crate::grade::SubEntry)
    ensures
        subs_view(final(acc)@) == sv_insert(subs_view(old(acc)@), sub_view(e)),
{
    let ghost vs = subs_view(acc@);
    let ghost ev = sub_view(e);
    proof {
        lemma_sv_idx(vs, ev.0);
    }
    let n = acc.len();
    let mut m: usize = 0;
    while m < n
        invariant
            m <= n,
            n == acc@.len(),
            acc@ == old(acc)@,
            vs == subs_view(acc@),
            ev == sub_view(e),
            sv_idx(vs, ev.0) == -1 ==> forall|j: int|
                0 <= j < vs.len() ==> (#[trigger] vs[j]).0 != ev.0,
            sv_idx(vs, ev.0) != -1 ==> 0 <= sv_idx(vs, ev.0) < vs.len() && vs[sv_idx(
                vs,
                ev.0,
            )].0 == ev.0 && (forall|j: int|
                0 <= j < sv_idx(vs, ev.0) ==> (#[trigger] vs[j]).0 != ev.0),
            forall|j: int| 0 <= j < m ==> (#[trigger] vs[j]).0 != ev.0,
        decreases n - m,
    {
        if acc[m].position == e.position {
            proof {
                assert(vs[m as int].0 == ev.0);
                assert(sv_idx(vs, ev.0) == m);
            }
            acc.set(m, e);
            proof {
                assert(subs_view(acc@) =~= vs.update(m as int, ev));
            }
            return ;
        }
        proof {
            assert(vs[m as int] == sub_view(acc@[m as int]));
        }
        m += 1;
    }
    proof {
        if sv_idx(vs, ev.0) != -1 {
            assert(vs[sv_idx(vs, ev.0)].0 == ev.0);
            assert(false);
        }
    }
    acc.push(e);
    proof {
        assert(subs_view(acc@) =~= vs.push(ev));
    }
}

/// Adds a parsed student: a repeated name replaces the earlier one.
fn st_insert_exec(acc: &mut Vec<crate::grade::Student>, e: crate::grade::Student)
    ensures
        students_view(final(acc)@) == st_insert(students_view(old(acc)@), student_view(e)),
{
    let ghost vs = students_view(acc@);
    let ghost ev = student_view(e);
    proof {
        lemma_st_idx(vs, ev.0);
    }
    let n = acc.len();
    let mut m: usize = 0;
    while m < n
        invariant
            m <= n,
            n == acc@.len(),
            acc@ == old(acc)@,
            vs == students_view(acc@),
            ev == student_view(e),
            st_idx(vs, ev.0) == -1 ==> forall|j: int|
                0 <= j < vs.len() ==> (#[trigger] vs[j]).0 != ev.0,
            st_idx(vs, ev.0) != -1 ==> 0 <= st_idx(vs, ev.0) < vs.len() && vs[st_idx(
                vs,
                ev.0,
            )].0 == ev.0 && (forall|j: int|
                0 <= j < st_idx(vs, ev.0) ==> (#[trigger] vs[j]).0 != ev.0),
            forall|j: int| 0 <= j < m ==> (#[trigger] vs[j]).0 != ev.0,
        decreases n - m,
    {
        if crate::text::str_eq(acc[m].name.as_str(), e.name.as_str()) {
            proof {
                assert(vs[m as int].0 == ev.0);
                assert(st_idx(vs, ev.0) == m);
            }
            acc.set(m, e);
            proof {
                assert(students_view(acc@) =~= vs.update(m as int, ev));
            }
            return ;
        }
        proof {
            assert(vs[m as int] == student_view(acc@[m as int]));
        }
        m += 1;
    }
    proof {
        if st_idx(vs, ev.0) != -1 {
            assert(vs[st_idx(vs, ev.0)].0 == ev.0);
            assert(false);
        }
    }
    acc.push(e);
    proof {
        assert(students_view(acc@) =~= vs.push(ev));
    }
}

/// Reads one student's answer object at `i`.
fn parse_sub_map(v: &Vec<char>, i: usize) -> (r: Option<(Vec<crate::grade::SubEntry>, usize)>)
    requires
        i <= v@.len(),
    ensures
        match sp_sub_map(v@, i as int) {
            Some(mj) => r matches Some(p) && subs_view(p.0@) == mj.0 && p.1 as int == mj.1 && p.1
                <= v@.len(),
            None => r is None,
        },
{
    let n = v.len();
    if !(i < n && v[i] == '{') {
        return None;
    }
    let j0 = skip_ws(v, i + 1);
    if j0 < n && v[j0] == '}' {
        let empty: Vec<crate::grade::SubEntry> = Vec::new();
        proof {
            assert(subs_view(empty@) =~= Seq::<(nat, Seq<Seq<char>>)>::empty());
        }
        return Some((empty, j0 + 1));
    }
    let mut acc: Vec<crate::grade::SubEntry> = Vec::new();
    let mut j = j0;
    let mut fuel = n;
    proof {
        assert(subs_view(acc@) =~= Seq::<(nat, Seq<Seq<char>>)>::empty());
    }
    while fuel > 0
        invariant
            j <= n,
            n == v@.len(),
            fuel <= n,
            sp_sub_map(v@, i as int) == sp_sub_entries(v@, j0 as int, Seq::empty(), n as nat),
            sp_sub_entries(v@, j0 as int, Seq::empty(), n as nat) == sp_sub_entries(
                v@,
                j as int,
                subs_view(acc@),
                fuel as nat,
            ),
        decreases fuel,
    {
        let p = match parse_string(v, j) {
            Some(p) => p,
            None => {
                return None;
            },
        };
        let pos = match parse_num(&p.0) {
            Some(x) => x,
            None => {
                return None;
            },
        };
        let k = skip_ws(v, p.1);
        if !(k < n && v[k] == ':') {
            return None;
        }
        let lsp = match parse_letters(v, skip_ws(v, k + 1)) {
            Some(q) => q,
            None => {
                return None;
            },
        };
        let k2 = skip_ws(v, lsp.1);
        let entry = crate::grade::SubEntry { position: pos, letters: lsp.0 };
        if k2 < n && v[k2] == ',' {
            let j3 = skip_ws(v, k2 + 1);
            sv_insert_exec(&mut acc, entry);
            j = j3;
            fuel -= 1;
        } else if k2 < n && v[k2] == '}' {
            sv_insert_exec(&mut acc, entry);
            return Some((acc, k2 + 1));
        } else {
            return None;
        }
    }
    None
}

/// Reads a students object at `i`.
fn parse_students(v: &Vec<char>, i: usize) -> (r: Option<(Vec<crate::grade::Student>, usize)>)
    requires
        i <= v@.len(),
    ensures
        match sp_students(v@, i as int) {
            Some(mj) => r matches Some(p) && students_view(p.0@) == mj.0 && p.1 as int == mj.1
                && p.1 <= v@.len(),
            None => r is None,
        },
{
    let n = v.len();
    if !(i < n && v[i] == '{') {
        return None;
    }
    let j0 = skip_ws(v, i + 1);
    if j0 < n && v[j0] == '}' {
        let empty: Vec<crate::grade::Student> = Vec::new();
        proof {
            assert(students_view(empty@) =~= Seq::<
                (Seq<char>, Seq<(nat, Seq<Seq<char>>)>),
            >::empty());
        }
        return Some((empty, j0 + 1));
    }
    let mut acc: Vec<crate::grade::Student> = Vec::new();
    let mut j = j0;
    let mut fuel = n;
    proof {
        assert(students_view(acc@) =~= Seq::<(Seq<char>, Seq<(nat, Seq<Seq<char>>)>)>::empty());
    }
    while fuel > 0
        invariant
            j <= n,
            n == v@.len(),
            fuel <= n,
            sp_students(v@, i as int) == sp_students_entries(
                v@,
                j0 as int,
                Seq::empty(),
                n as nat,
            ),
            sp_students_entries(v@, j0 as int, Seq::empty(), n as nat) == sp_students_entries(
                v@,
                j as int,
                students_view(acc@),
                fuel as nat,
            ),
        decreases fuel,
    {
        let p = match parse_string(v, j) {
            Some(p) => p,
            None => {
                return None;
            },
        };
        let k = skip_ws(v, p.1);
        if !(k < n && v[k] == ':') {
            return None;
        }
        let sm = match parse_sub_map(v, skip_ws(v, k + 1)) {
            Some(q) => q,
            None => {
                return None;
            },
        };
        let k2 = skip_ws(v, sm.1);
        let st = crate::grade::Student { name: string_of(p.0.as_slice()), answers: sm.0 };
        if k2 < n && v[k2] == ',' {
            let j3 = skip_ws(v, k2 + 1);
            st_insert_exec(&mut acc, st);
            j = j3;
            fuel -= 1;
        } else if k2 < n && v[k2] == '}' {
            st_insert_exec(&mut acc, st);
            return Some((acc, k2 + 1));
        } else {
            return None;
        }
    }
    None
}

impl crate::grade::Class {
    /// Loads a submission document: a description plus each student's
    /// per-question letters. The totals and scores are left empty until
    /// grading.
    pub fn from(text: &str) -> (r: Result<crate::grade::Class, DecodeError>)
        ensures
            match sp_class(text@) {
                Some(ds) => r matches Ok(c) && c.description@ == ds.0 && students_view(c.students@)
                    == ds.1 && c.total == 0 && c.questions == 0 && c.scores@.len() == 0,
                None => r == Err::<crate::grade::Class, DecodeError>(DecodeError::SubmissionFormat),
            },
{
        let v = chars_of(text);
        let n = v.len();
        let i = skip_ws(&v, 0);
        if !(i < n && v[i] == '{') {
            return Err(DecodeError::SubmissionFormat);
        }
        let j = skip_ws(&v, i + 1);
        let f1 = match parse_string(&v, j) {
            Some(p) => p,
            None => {
                return Err(DecodeError::SubmissionFormat);
            },
        };
        let k = skip_ws(&v, f1.1);
        if !(k < n && v[k] == ':') {
            return Err(DecodeError::SubmissionFormat);
        }
        let k2 = skip_ws(&v, k + 1);
        let f1name = string_of(f1.0.as_slice());
        if crate::text::str_eq(f1name.as_str(), "description") {
            // description first, then students
            let d = match parse_string(&v, k2) {
                Some(p) => p,
                None => {
                    return Err(DecodeError::SubmissionFormat);
                },
            };
            let k3 = skip_ws(&v, d.1);
            if !(k3 < n && v[k3] == ',') {
                return Err(DecodeError::SubmissionFormat);
            }
            let f2 = match parse_string(&v, skip_ws(&v, k3 + 1)) {
                Some(p) => p,
                None => {
                    return Err(DecodeError::SubmissionFormat);
                },
            };
            let f2name = string_of(f2.0.as_slice());
            if !crate::text::str_eq(f2name.as_str(), "students") {
                return Err(DecodeError::SubmissionFormat);
            }
            let k4 = skip_ws(&v, f2.1);
            if !(k4 < n && v[k4] == ':') {
                return Err(DecodeError::SubmissionFormat);
            }
            let sts = match parse_students(&v, skip_ws(&v, k4 + 1)) {
                Some(p) => p,
                None => {
                    return Err(DecodeError::SubmissionFormat);
                },
            };
            let k5 = skip_ws(&v, sts.1);
            if !(k5 < n && v[k5] == '}') {
                return Err(DecodeError::SubmissionFormat);
            }
            if skip_ws(&v, k5 + 1) != n {
                return Err(DecodeError::SubmissionFormat);
            }
            Ok(
                crate::grade::Class {
                    description: string_of(d.0.as_slice()),
                    students: sts.0,
                    total: 0,
                    questions: 0,
                    scores: Vec::new(),
                },
            )
        } else if crate::text::str_eq(f1name.as_str(), "students") {
            // students first, then description
            let sts = match parse_students(&v, k2) {
                Some(p) => p,
                None => {
                    return Err(DecodeError::SubmissionFormat);
                },
            };
            let k3 = skip_ws(&v, sts.1);
            if !(k3 < n && v[k3] == ',') {
                return Err(DecodeError::SubmissionFormat);
            }
            let f2 = match parse_string(&v, skip_ws(&v, k3 + 1)) {
                Some(p) => p,
                None => {
                    return Err(DecodeError::SubmissionFormat);
                },
            };
            let f2name = string_of(f2.0.as_slice());
            if !crate::text::str_eq(f2name.as_str(), "description") {
                return Err(DecodeError::SubmissionFormat);
            }
            let k4 = skip_ws(&v, f2.1);
            if !(k4 < n && v[k4] == ':') {
                return Err(DecodeError::SubmissionFormat);
            }
            let d = match parse_string(&v, skip_ws(&v, k4 + 1)) {
                Some(p) => p,
                None => {
                    return Err(DecodeError::SubmissionFormat);
                },
            };
            let k5 = skip_ws(&v, d.1);
            if !(k5 < n && v[k5] == '}') {
                return Err(DecodeError::SubmissionFormat);
            }
            if skip_ws(&v, k5 + 1) != n {
                return Err(DecodeError::SubmissionFormat);
            }
            Ok(
                crate::grade::Class {
                    description: string_of(d.0.as_slice()),
                    students: sts.0,
                    total: 0,
                    questions: 0,
                    scores: Vec::new(),
                },
            )
        } else {
            Err(DecodeError::SubmissionFormat)
        }
    }
}

} // verus!
