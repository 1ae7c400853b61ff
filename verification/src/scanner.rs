//! The line scanner and sequence resolver.
//!
//! A data line has the shape `<spec> ; ... # <description>`: the code-point
//! spec stands before the first `;`, and the description after the first `#`
//! that follows it. The spec is either an inclusive range `<hex>..<hex>` or
//! a whitespace-separated list of uppercase-hex code points. Lines that do
//! not match the grammar, and specs whose code points are not Unicode scalar
//! values, yield no record: they are skipped, never an error.

use vstd::prelude::*;

use crate::hex::{
    all_hex, check_all_hex, hex_value, is_hex_digit, is_hex_digit_char, is_scalar_value,
    scan_hex_scalar,
};
use crate::text::{
    chars_of, copy_range, find_char, find_from, is_space, is_space_char, lemma_find_from,
    lemma_find_from_found, string_of, trim_range, trimmed,
};

verus! {

/// A resolved code-point spec: an inclusive range of scalar values, or a
/// literal sequence of code points already joined into text.
pub enum Sequence {
    Range(char, char),
    Literal(String),
}

/// Mathematical shape of a resolved spec.
pub enum SequenceView {
    Range { low: char, high: char },
    Literal { text: Seq<char> },
}

impl View for Sequence {
    type V = SequenceView;

    open spec fn view(&self) -> SequenceView {
        match self {
            Sequence::Range(low, high) => SequenceView::Range { low: *low, high: *high },
            Sequence::Literal(text) => SequenceView::Literal { text: text@ },
        }
    }
}

/// One scanned record: a resolved spec and its trimmed description.
pub struct Emoji {
    pub sequence: Sequence,
    pub description: String,
}

/// Mathematical shape of one scanned record.
pub struct EmojiView {
    pub sequence: SequenceView,
    pub description: Seq<char>,
}

impl View for Emoji {
    type V = EmojiView;

    open spec fn view(&self) -> EmojiView {
        EmojiView { sequence: self.sequence@, description: self.description@ }
    }
}

/// The views of a vector of records, in order.
pub open spec fn views_of(s: Seq<Emoji>) -> Seq<EmojiView> {
    s.map_values(|e: Emoji| e@)
}

/// The spec matches `<hex>..<hex>`: one maximal run of uppercase hex digits,
/// exactly two dots, and a second run, nothing else.
pub open spec fn range_shape(s: Seq<char>) -> bool {
    let i = find_from(s, '.', 0);
    &&& 1 <= i
    &&& i + 2 < s.len()
    &&& s[i + 1] == '.'
    &&& all_hex(s.take(i))
    &&& all_hex(s.skip(i + 2))
}

/// The spec matches one or more whitespace-separated runs of uppercase hex
/// digits.
pub open spec fn literal_shape(s: Seq<char>) -> bool {
    &&& s.len() > 0
    &&& forall|i: int| 0 <= i < s.len() ==> is_hex_digit(s[i]) || is_space(s[i])
    &&& is_hex_digit(s[0])
    &&& is_hex_digit(s[s.len() - 1])
}

/// End of the non-space run that starts at `i`: the first index at or after
/// `i` holding whitespace, or the length.
pub open spec fn token_end(s: Seq<char>, i: int) -> int
    decreases s.len() - i,
{
    if i < 0 || i >= s.len() {
        s.len() as int
    } else if is_space(s[i]) {
        i
    } else {
        token_end(s, i + 1)
    }
}

pub proof fn lemma_token_end(s: Seq<char>, i: int)
    requires
        0 <= i <= s.len(),
    ensures
        i <= token_end(s, i) <= s.len(),
        i < s.len() && !is_space(s[i]) ==> token_end(s, i) >= i + 1,
        forall|m: int| i <= m < token_end(s, i) ==> !is_space(s[m]),
        token_end(s, i) < s.len() ==> is_space(s[token_end(s, i)]),
    decreases s.len() - i,
{
    if i < s.len() && !is_space(s[i]) {
        lemma_token_end(s, i + 1);
    }
}

/// The run ends exactly at the first whitespace witness.
pub proof fn lemma_token_end_found(s: Seq<char>, i: int, j: int)
    requires
        0 <= i <= j <= s.len(),
        forall|m: int| i <= m < j ==> !is_space(s[m]),
        j < s.len() ==> is_space(s[j]),
    ensures
        token_end(s, i) == j,
    decreases j - i,
{
    if i < j {
        lemma_token_end_found(s, i + 1, j);
    }
}

/// The whitespace-separated runs of `s` from position `i` on, in order.
pub open spec fn tokens_from(s: Seq<char>, i: int) -> Seq<Seq<char>>
    decreases s.len() - i,
    via tokens_from_decreases
{
    if i < 0 || i >= s.len() {
        Seq::empty()
    } else if is_space(s[i]) {
        tokens_from(s, i + 1)
    } else {
        seq![s.subrange(i, token_end(s, i))] + tokens_from(s, token_end(s, i))
    }
}

#[via_fn]
proof fn tokens_from_decreases(s: Seq<char>, i: int) {
    if 0 <= i < s.len() && !is_space(s[i]) {
        lemma_token_end(s, i);
    }
}

/// Every token names a Unicode scalar value.
pub open spec fn all_tokens_valid(ts: Seq<Seq<char>>) -> bool {
    forall|k: int| 0 <= k < ts.len() ==> is_scalar_value(hex_value(ts[k]) as int)
}

/// The characters named by the tokens, in order.
pub open spec fn chars_of_tokens(ts: Seq<Seq<char>>) -> Seq<char>
    decreases ts.len(),
{
    if ts.len() == 0 {
        Seq::empty()
    } else {
        seq![(hex_value(ts[0]) as u32) as char] + chars_of_tokens(ts.drop_first())
    }
}

proof fn lemma_tokens_cons(tok: Seq<char>, rest: Seq<Seq<char>>)
    ensures
        all_tokens_valid(seq![tok] + rest) <==> (is_scalar_value(hex_value(tok) as int)
            && all_tokens_valid(rest)),
        chars_of_tokens(seq![tok] + rest) == seq![(hex_value(tok) as u32) as char]
            + chars_of_tokens(rest),
{
    let ts = seq![tok] + rest;
    assert(ts[0] == tok);
    assert(ts.drop_first() =~= rest);
    if is_scalar_value(hex_value(tok) as int) && all_tokens_valid(rest) {
        assert forall|k: int| 0 <= k < ts.len() implies is_scalar_value(
            hex_value(ts[k]) as int,
        ) by {
            if k > 0 {
                assert(ts[k] == rest[k - 1]);
            }
        }
    }
    if all_tokens_valid(ts) {
        assert forall|k: int| 0 <= k < rest.len() implies is_scalar_value(
            hex_value(rest[k]) as int,
        ) by {
            assert(rest[k] == ts[k + 1]);
        }
    }
}

/// What a trimmed spec resolves to: a range, a literal, or nothing.
pub open spec fn spec_scan_seq(s: Seq<char>) -> Option<SequenceView> {
    if range_shape(s) {
        let i = find_from(s, '.', 0);
        let lo = hex_value(s.take(i));
        let hi = hex_value(s.skip(i + 2));
        if is_scalar_value(lo as int) && is_scalar_value(hi as int) {
            Some(SequenceView::Range { low: (lo as u32) as char, high: (hi as u32) as char })
        } else {
            None
        }
    } else if literal_shape(s) {
        if all_tokens_valid(tokens_from(s, 0)) {
            Some(SequenceView::Literal { text: chars_of_tokens(tokens_from(s, 0)) })
        } else {
            None
        }
    } else {
        None
    }
}

/// What one raw line yields: a record when the line has a `;`, a later `#`,
/// and a spec that resolves; nothing otherwise.
pub open spec fn spec_scan_line(l: Seq<char>) -> Option<EmojiView> {
    let i = find_from(l, ';', 0);
    if i == l.len() {
        None
    } else {
        let k = find_from(l, '#', i + 1);
        if k == l.len() {
            None
        } else {
            match spec_scan_seq(trimmed(l.take(i))) {
                Some(sq) => Some(
                    EmojiView { sequence: sq, description: trimmed(l.skip(k + 1)) },
                ),
                None => None,
            }
        }
    }
}

/// A line with its trailing carriage return removed, as line splitting
/// produces it.
pub open spec fn strip_cr(l: Seq<char>) -> Seq<char> {
    if l.len() > 0 && l[l.len() - 1] == '\r' {
        l.drop_last()
    } else {
        l
    }
}

/// The records of the lines of `t` from position `i` on, in order.
pub open spec fn spec_scan_text_from(t: Seq<char>, i: int) -> Seq<EmojiView>
    decreases t.len() - i,
    via spec_scan_text_from_decreases
{
    if i < 0 || i >= t.len() {
        Seq::empty()
    } else {
        let e = find_from(t, '\n', i);
        let head = match spec_scan_line(strip_cr(t.subrange(i, e))) {
            Some(r) => seq![r],
            None => Seq::<EmojiView>::empty(),
        };
        let rest = if e < t.len() {
            spec_scan_text_from(t, e + 1)
        } else {
            Seq::<EmojiView>::empty()
        };
        head + rest
    }
}

#[via_fn]
proof fn spec_scan_text_from_decreases(t: Seq<char>, i: int) {
    if 0 <= i < t.len() {
        lemma_find_from(t, '\n', i);
    }
}

/// The records of every line of `t`, in line order.
pub open spec fn spec_scan_text(t: Seq<char>) -> Seq<EmojiView> {
    spec_scan_text_from(t, 0)
}

/// End of the non-space run that starts at `i`.
fn token_run_end(v: &Vec<char>, i: usize) -> (j: usize)
    requires
        i < v@.len(),
        !is_space(v@[i as int]),
    ensures
        j == token_end(v@, i as int),
        i < j <= v@.len(),
        forall|m: int| i <= m < j ==> !is_space(v@[m]),
        j < v@.len() ==> is_space(v@[j as int]),
{
    let n = v.len();
    let mut j: usize = i;
    while j < n
        invariant
            i <= j <= n == v@.len(),
            i < n,
            !is_space(v@[i as int]),
            forall|m: int| i <= m < j ==> !is_space(v@[m]),
        decreases n - j,
    {
        let c = v[j];
        if is_space_char(c) {
            proof {
                assert(i != j);
                lemma_token_end_found(v@, i as int, j as int);
            }
            return j;
        }
        j = j + 1;
    }
    proof {
        lemma_token_end_found(v@, i as int, j as int);
    }
    j
}

/// Whether `v` matches the literal shape.
fn check_literal_shape(v: &Vec<char>) -> (b: bool)
    ensures
        b == literal_shape(v@),
{
    let n = v.len();
    if n == 0 {
        return false;
    }
    if !is_hex_digit_char(v[0]) {
        return false;
    }
    if !is_hex_digit_char(v[n - 1]) {
        return false;
    }
    let mut m: usize = 0;
    while m < n
        invariant
            0 <= m <= n == v@.len(),
            forall|k: int| 0 <= k < m ==> is_hex_digit(v@[k]) || is_space(v@[k]),
        decreases n - m,
    {
        let c = v[m];
        if !is_hex_digit_char(c) && !is_space_char(c) {
            return false;
        }
        m = m + 1;
    }
    true
}

/// Resolves a spec already known not to match the range shape.
fn scan_literal(v: &Vec<char>) -> (r: Option<Sequence>)
    requires
        !range_shape(v@),
    ensures
        r is Some <==> spec_scan_seq(v@) is Some,
        r matches Some(sq) ==> spec_scan_seq(v@) == Some(sq@),
{
    let n = v.len();
    if !check_literal_shape(v) {
        return None;
    }
    let mut out: Vec<char> = Vec::new();
    let mut i: usize = 0;
    while i < n
        invariant
            n == v@.len(),
            0 <= i <= n,
            literal_shape(v@),
            !range_shape(v@),
            all_tokens_valid(tokens_from(v@, 0)) <==> all_tokens_valid(tokens_from(v@, i as int)),
            chars_of_tokens(tokens_from(v@, 0)) == out@ + chars_of_tokens(
                tokens_from(v@, i as int),
            ),
        decreases n - i,
    {
        if is_space_char(v[i]) {
            proof {
                assert(tokens_from(v@, i as int) == tokens_from(v@, i + 1));
            }
            i = i + 1;
            continue;
        }
        let j = token_run_end(v, i);
        let ghost tok = v@.subrange(i as int, j as int);
        let ghost rest = tokens_from(v@, j as int);
        proof {
            assert(tok.len() > 0);
            assert forall|m: int| 0 <= m < tok.len() implies is_hex_digit(tok[m]) by {
                assert(tok[m] == v@[i + m]);
                assert(!is_space(v@[i + m]));
            }
            assert(tokens_from(v@, i as int) == seq![tok] + rest);
            lemma_tokens_cons(tok, rest);
        }
        let c_opt = scan_hex_scalar(v, i, j);
        match c_opt {
            Some(c) => {
                proof {
                    vstd::utf8::char_u32_cast(c, hex_value(tok) as u32);
                    assert((hex_value(tok) as u32) as char == c);
                }
                let ghost old_out = out@;
                out.push(c);
                i = j;
                proof {
                    assert(old_out + (seq![c] + chars_of_tokens(rest)) =~= (old_out + seq![c])
                        + chars_of_tokens(rest));
                    assert(old_out + seq![c] =~= out@);
                }
            },
            None => {
                proof {
                    assert(!is_scalar_value(hex_value(tok) as int));
                    assert(!all_tokens_valid(tokens_from(v@, i as int)));
                }
                return None;
            },
        }
    }
    proof {
        assert(tokens_from(v@, n as int) == Seq::<Seq<char>>::empty());
        assert(chars_of_tokens(tokens_from(v@, n as int)) == Seq::<char>::empty());
        assert(out@ + Seq::<char>::empty() =~= out@);
        assert(all_tokens_valid(tokens_from(v@, n as int)));
    }
    let text = string_of(&out);
    Some(Sequence::Literal(text))
}

/// Resolves a trimmed spec held as characters.
fn scan_seq_chars(v: &Vec<char>) -> (r: Option<Sequence>)
    ensures
        r is Some <==> spec_scan_seq(v@) is Some,
        r matches Some(sq) ==> spec_scan_seq(v@) == Some(sq@),
{
    let n = v.len();
    let i = find_char(v, '.', 0);
    if i >= 1 && n >= 3 && i <= n - 3 && v[i + 1] == '.' {
        let pre_hex = check_all_hex(v, 0, i);
        let suf_hex = check_all_hex(v, i + 2, n);
        proof {
            assert(v@.subrange(0, i as int) =~= v@.take(i as int));
            assert(v@.subrange(i + 2, n as int) =~= v@.skip(i + 2));
        }
        if pre_hex && suf_hex {
            proof {
                assert(range_shape(v@));
            }
            let lo = scan_hex_scalar(v, 0, i);
            let hi = scan_hex_scalar(v, i + 2, n);
            match (lo, hi) {
                (Some(l), Some(h)) => {
                    proof {
                        vstd::utf8::char_u32_cast(l, hex_value(v@.take(i as int)) as u32);
                        vstd::utf8::char_u32_cast(h, hex_value(v@.skip(i + 2)) as u32);
                    }
                    Some(Sequence::Range(l, h))
                },
                _ => None,
            }
        } else {
            proof {
                assert(!range_shape(v@));
                assert(v@[i as int] == '.');
                assert(!is_hex_digit('.') && !is_space('.'));
                assert(!literal_shape(v@));
            }
            None
        }
    } else if i < n {
        proof {
            assert(!range_shape(v@));
            assert(v@[i as int] == '.');
            assert(!is_hex_digit('.') && !is_space('.'));
            assert(!literal_shape(v@));
        }
        None
    } else {
        proof {
            assert(!range_shape(v@));
        }
        scan_literal(v)
    }
}

/// Scans one raw line held as characters.
fn scan_line_chars(v: &Vec<char>) -> (r: Option<Emoji>)
    ensures
        r is Some <==> spec_scan_line(v@) is Some,
        r matches Some(em) ==> spec_scan_line(v@) == Some(em@),
{
    let n = v.len();
    let i = find_char(v, ';', 0);
    if i == n {
        return None;
    }
    let k = find_char(v, '#', i + 1);
    if k == n {
        return None;
    }
    let field1 = trim_range(v, 0, i);
    proof {
        assert(v@.subrange(0, i as int) =~= v@.take(i as int));
    }
    let sq_opt = scan_seq_chars(&field1);
    match sq_opt {
        Some(sq) => {
            let desc = trim_range(v, k + 1, n);
            proof {
                assert(v@.subrange(k + 1, n as int) =~= v@.skip(k + 1));
            }
            Some(Emoji { sequence: sq, description: string_of(&desc) })
        },
        None => None,
    }
}

/// The scanner over raw data-file text. It carries no state: the grammar is
/// fixed.
pub struct Scanner {}

impl Scanner {
    pub fn new() -> (r: Scanner) {
        Scanner {}
    }

    /// Resolves one trimmed code-point spec.
    pub fn scan_seq(&self, raw: &str) -> (r: Option<Sequence>)
        ensures
            r is Some <==> spec_scan_seq(raw@) is Some,
            r matches Some(sq) ==> spec_scan_seq(raw@) == Some(sq@),
    {
        let v = chars_of(raw);
        scan_seq_chars(&v)
    }

    /// Scans one raw line.
    pub fn scan_line(&self, line: &str) -> (r: Option<Emoji>)
        ensures
            r is Some <==> spec_scan_line(line@) is Some,
            r matches Some(em) ==> spec_scan_line(line@) == Some(em@),
    {
        let v = chars_of(line);
        scan_line_chars(&v)
    }

    /// Scans the full text of one data file, yielding the records of its
    /// matching lines in order.
    pub fn emoji(&self, text: &str) -> (r: Vec<Emoji>)
        ensures
            views_of(r@) == spec_scan_text(text@),
    {
        let v = chars_of(text);
        let n = v.len();
        let mut out: Vec<Emoji> = Vec::new();
        let mut i: usize = 0;
        proof {
            assert(views_of(out@) =~= Seq::<EmojiView>::empty());
            assert(Seq::<EmojiView>::empty() + spec_scan_text_from(v@, 0) =~= spec_scan_text_from(
                v@,
                0,
            ));
        }
        while i < n
            invariant
                v@ == text@,
                n == v@.len(),
                0 <= i <= n,
                spec_scan_text(text@) == views_of(out@) + spec_scan_text_from(v@, i as int),
            decreases n - i,
        {
            let e = find_char(&v, '\n', i);
            let stop = if e > i && v[e - 1] == '\r' {
                e - 1
            } else {
                e
            };
            let line = copy_range(&v, i, stop);
            let ghost raw = v@.subrange(i as int, e as int);
            proof {
                if e > i && v@[e - 1] == '\r' {
                    assert(raw[raw.len() - 1] == '\r');
                    assert(line@ =~= strip_cr(raw));
                } else {
                    assert(line@ =~= strip_cr(raw));
                }
            }
            let rec = scan_line_chars(&line);
            let ghost old_out = out@;
            let ghost head = match spec_scan_line(strip_cr(raw)) {
                Some(r_) => seq![r_],
                None => Seq::<EmojiView>::empty(),
            };
            match rec {
                Some(em) => {
                    proof {
                        assert(head =~= seq![em@]);
                    }
                    out.push(em);
                    proof {
                        assert(views_of(out@) =~= views_of(old_out) + head);
                    }
                },
                None => {
                    proof {
                        assert(views_of(out@) + head =~= views_of(out@));
                    }
                },
            }
            let ghost rest = if e < n {
                spec_scan_text_from(v@, e + 1)
            } else {
                Seq::<EmojiView>::empty()
            };
            proof {
                assert(spec_scan_text_from(v@, i as int) == head + rest);
                assert(views_of(old_out) + (head + rest) =~= (views_of(old_out) + head) + rest);
            }
            if e < n {
                i = e + 1;
            } else {
                i = n;
                proof {
                    assert(views_of(out@) + Seq::<EmojiView>::empty() =~= views_of(out@));
                    assert(spec_scan_text_from(v@, n as int) == Seq::<EmojiView>::empty());
                }
            }
        }
        proof {
            assert(spec_scan_text_from(v@, i as int) == Seq::<EmojiView>::empty());
            assert(views_of(out@) + Seq::<EmojiView>::empty() =~= views_of(out@));
        }
        out
    }
}

/// A well-formed data line splits at its first `;` and at the first `#`
/// after it: it yields a record exactly when its first field resolves, and
/// the record holds that resolution and the trimmed description.
pub proof fn lemma_scan_line_shape(f1: Seq<char>, mid: Seq<char>, desc: Seq<char>)
    requires
        forall|m: int| 0 <= m < f1.len() ==> f1[m] != ';',
        forall|m: int| 0 <= m < mid.len() ==> mid[m] != '#',
    ensures
        ({
            let l = f1 + seq![';'] + mid + seq!['#'] + desc;
            spec_scan_line(l) == match spec_scan_seq(trimmed(f1)) {
                Some(sq) => Some(EmojiView { sequence: sq, description: trimmed(desc) }),
                None => None,
            }
        }),
{
    let l = f1 + seq![';'] + mid + seq!['#'] + desc;
    let i = f1.len() as int;
    let k = i + 1 + mid.len();
    assert(l[i] == ';');
    assert(l[k] == '#');
    assert forall|m: int| 0 <= m < i implies l[m] != ';' by {
        assert(l[m] == f1[m]);
    }
    lemma_find_from_found(l, ';', 0, i);
    assert forall|m: int| i + 1 <= m < k implies l[m] != '#' by {
        assert(l[m] == mid[m - i - 1]);
    }
    lemma_find_from_found(l, '#', i + 1, k);
    assert(l.take(i) =~= f1);
    assert(l.skip(k + 1) =~= desc);
}

/// A line holding no `;` at all — a comment or a blank line — yields no
/// record.
pub proof fn lemma_line_without_semicolon(l: Seq<char>)
    requires
        forall|m: int| 0 <= m < l.len() ==> l[m] != ';',
    ensures
        spec_scan_line(l) is None,
{
    lemma_find_from(l, ';', 0);
    assert(find_from(l, ';', 0) == l.len());
}

/// A spec holding any character that is neither an uppercase hex digit, nor
/// whitespace, nor a dot resolves to nothing.
pub proof fn lemma_foreign_char_rejected(s: Seq<char>, i: int)
    requires
        0 <= i < s.len(),
        !is_hex_digit(s[i]),
        !is_space(s[i]),
        s[i] != '.',
    ensures
        spec_scan_seq(s) is None,
{
    if range_shape(s) {
        let d = find_from(s, '.', 0);
        lemma_find_from(s, '.', 0);
        if i < d {
            assert(s.take(d)[i] == s[i]);
            assert(is_hex_digit(s[i]));
        } else if i == d || i == d + 1 {
            assert(s[i] == '.');
        } else {
            assert(s.skip(d + 2)[i - d - 2] == s[i]);
            assert(is_hex_digit(s[i]));
        }
    }
    assert(!literal_shape(s));
}

} // verus!
