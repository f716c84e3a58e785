//! Non-octal decimal escapes (`\8`, `\9`) in string literals, and their fixes.
use vstd::prelude::*;
use vstd::string::*;

use vstd::utf8::{encode_utf8, is_char_boundary};
use core::ops::Range;
use rustc_hash::FxHashSet;

use crate::diagnostic::RuleDiagnostic;
use crate::fx_hash::insert_pair;
use crate::text_range::{range_of, TextRange};
use crate::utf8_text::{byte_offset, chars_of, lemma_byte_offset_step, lemma_encode_utf8_concat, utf8_len, utf8_width};

verus! {

/// The pre-check from character `i` on: `in_regex` flips on every unescaped `/`,
/// `escaped` flips on `\` and clears on any other character.
pub open spec fn precheck_from(cs: Seq<char>, i: int, in_regex: bool, escaped: bool) -> bool
    decreases cs.len() - i,
{
    if i < 0 || i >= cs.len() {
        false
    } else {
        let ch = cs[i];
        if ch == '/' && !escaped {
            precheck_from(cs, i + 1, !in_regex, escaped)
        } else if (ch == '8' || ch == '9') && escaped && !in_regex {
            true
        } else if ch == '\\' {
            precheck_from(cs, i + 1, in_regex, !escaped)
        } else {
            precheck_from(cs, i + 1, in_regex, false)
        }
    }
}

/// Whether `cs` holds a `\8` or `\9` escape outside what looks like a regular expression.
pub open spec fn has_nonoctal_escape(cs: Seq<char>) -> bool {
    precheck_from(cs, 0, false, false)
}

/// Returns true if input holds a non-octal decimal escape sequence that is not
/// inside a JavaScript regular expression.
pub fn is_octal_escape_sequence(input: &str) -> (r: bool)
    ensures
        r == has_nonoctal_escape(input@),
{
    let cs = chars_of(input);
    let n = cs.len();
    let mut in_regex = false;
    let mut prev_char_was_escape = false;
    let mut i: usize = 0;
    while i < n
        invariant
            n == cs@.len(),
            cs@ == input@,
            i <= n,
            has_nonoctal_escape(cs@) == precheck_from(cs@, i as int, in_regex, prev_char_was_escape),
        decreases n - i,
    {
        let ch = cs[i];
        if ch == '/' && !prev_char_was_escape {
            in_regex = !in_regex;
        } else if (ch == '8' || ch == '9') && prev_char_was_escape && !in_regex {
            return true;
        } else if ch == '\\' {
            prev_char_was_escape = !prev_char_was_escape;
        } else {
            prev_char_was_escape = false;
        }
        i += 1;
    }
    false
}

/// One lexed escape: the text of what came just before it (a `\0` escape or a
/// single character, if any since the last escape), its digit, and its byte range.
pub type LexedEscape = (Option<Seq<char>>, char, int, int);

/// The lexer from character `i` on. `prev` is the text of the last `\0` escape or
/// plain character; `pending` the byte offset of a `\` that a `8` or `9` follows.
pub open spec fn lex_from(cs: Seq<char>, i: int, prev: Option<Seq<char>>, pending: Option<int>) -> Seq<
    LexedEscape,
>
    decreases cs.len() - i,
{
    if i < 0 || i >= cs.len() {
        seq![]
    } else {
        let ch = cs[i];
        if ch == '\\' {
            if i + 1 < cs.len() && cs[i + 1] == '0' {
                lex_from(cs, i + 2, Some(seq!['\\', '0']), pending)
            } else if i + 1 < cs.len() && (cs[i + 1] == '8' || cs[i + 1] == '9') {
                lex_from(cs, i + 1, prev, Some(byte_offset(cs, i) as int))
            } else {
                lex_from(cs, i + 1, prev, pending)
            }
        } else if (ch == '8' || ch == '9') && pending is Some {
            seq![(prev, ch, pending->0, byte_offset(cs, i) + 1int)] + lex_from(cs, i + 1, None, None)
        } else {
            lex_from(cs, i + 1, Some(seq![ch]), pending)
        }
    }
}

/// Every `\8` and `\9` escape of `cs`, in order.
pub open spec fn lexed_escapes(cs: Seq<char>) -> Seq<LexedEscape> {
    lex_from(cs, 0, None, None)
}

/// Every escape the lexer finds from character `i` on is a `\8` or `\9` that spans
/// two bytes.
proof fn lemma_lex_from_shape(cs: Seq<char>, i: int, prev: Option<Seq<char>>, pending: Option<int>)
    requires
        0 <= i,
        pending is Some ==> i < cs.len() && (cs[i] == '8' || cs[i] == '9') && pending->0 + 1
            == byte_offset(cs, i),
    ensures
        forall|k: int|
            0 <= k < lex_from(cs, i, prev, pending).len() ==> {
                let e = #[trigger] lex_from(cs, i, prev, pending)[k];
                &&& e.3 == e.2 + 2
                &&& (e.1 == '8' || e.1 == '9')
            },
    decreases cs.len() - i,
{
    if i < cs.len() {
        lemma_byte_offset_step(cs, i);
        let ch = cs[i];
        if ch == '\\' {
            if i + 1 < cs.len() && cs[i + 1] == '0' {
                lemma_lex_from_shape(cs, i + 2, Some(seq!['\\', '0']), pending);
                assert(lex_from(cs, i, prev, pending) == lex_from(cs, i + 2, Some(seq!['\\', '0']), pending));
            } else if i + 1 < cs.len() && (cs[i + 1] == '8' || cs[i + 1] == '9') {
                assert(utf8_width('\\') == 1);
                lemma_lex_from_shape(cs, i + 1, prev, Some(byte_offset(cs, i) as int));
                assert(lex_from(cs, i, prev, pending) == lex_from(cs, i + 1, prev, Some(byte_offset(cs, i) as int)));
            } else {
                lemma_lex_from_shape(cs, i + 1, prev, pending);
                assert(lex_from(cs, i, prev, pending) == lex_from(cs, i + 1, prev, pending));
            }
        } else if (ch == '8' || ch == '9') && pending is Some {
            lemma_lex_from_shape(cs, i + 1, None, None);
            let head = seq![(prev, ch, pending->0, byte_offset(cs, i) + 1int)];
            let tail = lex_from(cs, i + 1, None, None);
            assert(lex_from(cs, i, prev, pending) == head + tail);
            assert forall|k: int| 0 <= k < (head + tail).len() implies {
                let e = #[trigger] (head + tail)[k];
                &&& e.3 == e.2 + 2
                &&& (e.1 == '8' || e.1 == '9')
            } by {
                if k > 0 {
                    assert((head + tail)[k] == tail[k - 1]);
                }
            }
        } else {
            lemma_lex_from_shape(cs, i + 1, Some(seq![ch]), pending);
            assert(lex_from(cs, i, prev, pending) == lex_from(cs, i + 1, Some(seq![ch]), pending));
        }
    }
}

/// The escapes the lexer finds from character `i` on start no earlier than the
/// pending backslash, or the current byte, and each starts at or after the end of
/// the one before.
proof fn lemma_lex_from_order(cs: Seq<char>, i: int, prev: Option<Seq<char>>, pending: Option<int>)
    requires
        0 <= i,
        pending is Some ==> i < cs.len() && (cs[i] == '8' || cs[i] == '9') && pending->0 + 1
            == byte_offset(cs, i),
    ensures
        forall|k: int|
            0 <= k < lex_from(cs, i, prev, pending).len() ==> (#[trigger] lex_from(
                cs,
                i,
                prev,
                pending,
            )[k]).2 >= (match pending {
                Some(b) => b,
                None => byte_offset(cs, i) as int,
            }),
        forall|k: int|
            0 <= k < lex_from(cs, i, prev, pending).len() - 1 ==> (#[trigger] lex_from(
                cs,
                i,
                prev,
                pending,
            )[k]).3 <= lex_from(cs, i, prev, pending)[k + 1].2,
    decreases cs.len() - i,
{
    if i < cs.len() {
        lemma_byte_offset_step(cs, i);
        let ch = cs[i];
        if ch == '\\' {
            if i + 1 < cs.len() && cs[i + 1] == '0' {
                lemma_byte_offset_step(cs, i + 1);
                lemma_lex_from_order(cs, i + 2, Some(seq!['\\', '0']), pending);
                assert(lex_from(cs, i, prev, pending) == lex_from(cs, i + 2, Some(seq!['\\', '0']), pending));
            } else if i + 1 < cs.len() && (cs[i + 1] == '8' || cs[i + 1] == '9') {
                assert(utf8_width('\\') == 1);
                lemma_lex_from_order(cs, i + 1, prev, Some(byte_offset(cs, i) as int));
                assert(lex_from(cs, i, prev, pending) == lex_from(cs, i + 1, prev, Some(byte_offset(cs, i) as int)));
            } else {
                lemma_lex_from_order(cs, i + 1, prev, pending);
                assert(lex_from(cs, i, prev, pending) == lex_from(cs, i + 1, prev, pending));
            }
        } else if (ch == '8' || ch == '9') && pending is Some {
            assert(utf8_width(ch) == 1);
            lemma_lex_from_order(cs, i + 1, None, None);
            let head = seq![(prev, ch, pending->0, byte_offset(cs, i) + 1int)];
            let tail = lex_from(cs, i + 1, None, None);
            assert(lex_from(cs, i, prev, pending) == head + tail);
            assert forall|k: int| 0 <= k < (head + tail).len() implies (#[trigger] (head + tail)[k]).2
                >= pending->0 by {
                if k > 0 {
                    assert((head + tail)[k] == tail[k - 1]);
                }
            }
            assert forall|k: int| 0 <= k < (head + tail).len() - 1 implies (#[trigger] (head
                + tail)[k]).3 <= (head + tail)[k + 1].2 by {
                assert((head + tail)[k + 1] == tail[k]);
                if k > 0 {
                    assert((head + tail)[k] == tail[k - 1]);
                }
            }
        } else {
            lemma_lex_from_order(cs, i + 1, Some(seq![ch]), pending);
            assert(lex_from(cs, i, prev, pending) == lex_from(cs, i + 1, Some(seq![ch]), pending));
        }
    }
}

/// Every lexed escape is `\8` or `\9` and spans exactly its two bytes.
pub proof fn lemma_lexed_escape_shape(cs: Seq<char>)
    ensures
        forall|k: int|
            0 <= k < lexed_escapes(cs).len() ==> {
                let e = #[trigger] lexed_escapes(cs)[k];
                &&& e.3 == e.2 + 2
                &&& (e.1 == '8' || e.1 == '9')
            },
{
    lemma_lex_from_shape(cs, 0, None, None);
}

/// A decimal escape found in a string literal's text.
#[derive(Debug, PartialEq, Eq)]
pub struct EscapeSequence {
    /// The `\0` escape or single character just before it, if any.
    pub previous_escape: Option<String>,
    /// The escape itself: `\8` or `\9`.
    pub decimal_escape: String,
    /// The byte range of the escape in the literal's text.
    pub decimal_escape_range: (usize, usize),
}

pub open spec fn opt_view(o: Option<String>) -> Option<Seq<char>> {
    match o {
        Some(s) => Some(s@),
        None => None,
    }
}

impl View for EscapeSequence {
    type V = LexedEscape;

    open spec fn view(&self) -> LexedEscape {
        (
            opt_view(self.previous_escape),
            self.decimal_escape@[1],
            self.decimal_escape_range.0 as int,
            self.decimal_escape_range.1 as int,
        )
    }
}

impl EscapeSequence {
    pub open spec fn wf(&self) -> bool {
        self.decimal_escape@ == seq!['\\', self.decimal_escape@[1]]
    }
}

/// Relies on `ToString` for `char`: the string holds exactly that character.
#[verifier::external_body]
fn char_to_string(c: char) -> (r: String)
    ensures
        r@ == seq![c],
{
    c.to_string()
}

/// Returns every decimal escape sequence of the given string literal text.
pub fn lex_escape_sequences(input: &str) -> (r: Vec<EscapeSequence>)
    ensures
        r@.len() == lexed_escapes(input@).len(),
        forall|k: int| 0 <= k < r@.len() ==> #[trigger] r@[k].wf(),
        forall|k: int| 0 <= k < r@.len() ==> #[trigger] r@[k]@ == lexed_escapes(input@)[k],
{
    let cs = chars_of(input);
    let total = crate::utf8_text::byte_len(input);
    let n = cs.len();
    let mut result: Vec<EscapeSequence> = Vec::new();
    let mut previous_escape: Option<String> = None;
    let mut decimal_escape_start: Option<usize> = None;
    let mut i: usize = 0;
    let mut byte: usize = 0;
    let ghost mut done: Seq<LexedEscape> = seq![];
    while i < n
        invariant
            n == cs@.len(),
            cs@ == input@,
            i <= n,
            lexed_escapes(input@) == lexed_escapes(cs@),
            total == utf8_len(cs@),
            byte == byte_offset(cs@, i as int),
            byte <= total,
            done.len() == result@.len(),
            forall|k: int| 0 <= k < result@.len() ==> #[trigger] result@[k].wf(),
            forall|k: int| 0 <= k < result@.len() ==> #[trigger] result@[k]@ == done[k],
            lexed_escapes(cs@) == done + lex_from(
                cs@,
                i as int,
                opt_view(previous_escape),
                match decimal_escape_start {
                    Some(b) => Some(b as int),
                    None => None,
                },
            ),
        decreases n - i,
    {
        let ghost pending = match decimal_escape_start {
            Some(b) => Some(b as int),
            None => None,
        };
        let ch = cs[i];
        proof {
            lemma_byte_offset_step(cs@, i as int);
        }
        if ch == '\\' {
            if i + 1 < n && cs[i + 1] == '0' {
                proof {
                    lemma_byte_offset_step(cs@, i + 1);
                    reveal_strlit("\\0");
                }
                let z = String::from_str("\\0");
                assert(z@ =~= seq!['\\', '0']);
                previous_escape = Some(z);
                byte = byte + 2;
                i = i + 2;
            } else if i + 1 < n && (cs[i + 1] == '8' || cs[i + 1] == '9') {
                decimal_escape_start = Some(byte);
                byte = byte + 1;
                i = i + 1;
            } else {
                byte = byte + 1;
                i = i + 1;
            }
        } else if (ch == '8' || ch == '9') && decimal_escape_start.is_some() {
            let start = decimal_escape_start.unwrap();
            let text = if ch == '8' {
                proof {
                    reveal_strlit("\\8");
                }
                let t = String::from_str("\\8");
                assert(t@ =~= seq!['\\', ch]);
                t
            } else {
                proof {
                    reveal_strlit("\\9");
                }
                let t = String::from_str("\\9");
                assert(t@ =~= seq!['\\', ch]);
                t
            };
            let found = EscapeSequence {
                previous_escape: previous_escape,
                decimal_escape: text,
                decimal_escape_range: (start, byte + 1),
            };
            proof {
                assert(found.wf());
                assert(found@ == (opt_view(previous_escape), ch, pending->0, byte_offset(cs@, i as int) + 1int));
                assert((done + seq![found@]) + lex_from(cs@, i + 1, None, None) =~= done + (seq![found@] + lex_from(cs@, i + 1, None, None)));
                done = done + seq![found@];
            }
            let ghost old_result = result@;
            result.push(found);
            assert(forall|k: int| 0 <= k < old_result.len() ==> #[trigger] result@[k] == old_result[k]);
            previous_escape = None;
            decimal_escape_start = None;
            byte = byte + 1;
            i = i + 1;
        } else {
            previous_escape = Some(char_to_string(ch));
            byte = byte + crate::utf8_text::char_width(ch);
            i = i + 1;
        }
    }
    assert(lex_from(cs@, i as int, opt_view(previous_escape), match decimal_escape_start {
        Some(b) => Some(b as int),
        None => None,
    }) =~= seq![]);
    assert(done + seq![] =~= done);
    result
}

/// The lowercase hexadecimal digit for `d < 16`.
pub open spec fn hex_char(d: nat) -> char {
    if d == 0 { '0' } else if d == 1 { '1' } else if d == 2 { '2' } else if d == 3 { '3' }
    else if d == 4 { '4' } else if d == 5 { '5' } else if d == 6 { '6' } else if d == 7 { '7' }
    else if d == 8 { '8' } else if d == 9 { '9' } else if d == 10 { 'a' } else if d == 11 { 'b' }
    else if d == 12 { 'c' } else if d == 13 { 'd' } else if d == 14 { 'e' } else { 'f' }
}

/// The lowercase hexadecimal digits of `n`, most significant first, without leading zeros.
pub open spec fn hex_digits(n: nat) -> Seq<char>
    decreases n,
{
    if n < 16 {
        seq![hex_char(n)]
    } else {
        hex_digits(n / 16) + seq![hex_char(n % 16)]
    }
}

/// The zeros that pad the hexadecimal digits of `n` to at least four.
pub open spec fn hex_padding(n: nat) -> Seq<char> {
    if n < 0x10 {
        seq!['0', '0', '0']
    } else if n < 0x100 {
        seq!['0', '0']
    } else if n < 0x1000 {
        seq!['0']
    } else {
        seq![]
    }
}

/// `\u` followed by the scalar value of `c` in at least four lowercase hex digits.
pub open spec fn unicode_escape(c: char) -> Seq<char> {
    seq!['\\', 'u'] + hex_padding(c as nat) + hex_digits(c as nat)
}

pub(crate) fn hex_digit_str(d: u32) -> (s: &'static str)
    requires
        d < 16,
    ensures
        s@ == seq![hex_char(d as nat)],
{
    let s = if d == 0 { "0" } else if d == 1 { "1" } else if d == 2 { "2" } else if d == 3 { "3" }
    else if d == 4 { "4" } else if d == 5 { "5" } else if d == 6 { "6" } else if d == 7 { "7" }
    else if d == 8 { "8" } else if d == 9 { "9" } else if d == 10 { "a" } else if d == 11 { "b" }
    else if d == 12 { "c" } else if d == 13 { "d" } else if d == 14 { "e" } else { "f" };
    proof {
        reveal_strlit("0"); reveal_strlit("1"); reveal_strlit("2"); reveal_strlit("3");
        reveal_strlit("4"); reveal_strlit("5"); reveal_strlit("6"); reveal_strlit("7");
        reveal_strlit("8"); reveal_strlit("9"); reveal_strlit("a"); reveal_strlit("b");
        reveal_strlit("c"); reveal_strlit("d"); reveal_strlit("e"); reveal_strlit("f");
    }
    assert(s@ =~= seq![hex_char(d as nat)]);
    s
}

fn push_hex_digits(out: &mut String, n: u32)
    ensures
        final(out)@ == old(out)@ + hex_digits(n as nat),
    decreases n,
{
    if n >= 16 {
        push_hex_digits(out, n / 16);
    }
    out.append(hex_digit_str(n % 16));
    assert(final(out)@ =~= old(out)@ + hex_digits(n as nat));
}

/// Returns the unicode escape sequence `\uXXXX` that represents the given character.
pub fn get_unicode_escape(ch: char) -> (r: Option<String>)
    ensures
        r is Some,
        r->0@ == unicode_escape(ch),
{
    let v = ch as u32;
    let mut out = String::from_str("\\u");
    proof {
        reveal_strlit("\\u");
        reveal_strlit("000");
        reveal_strlit("00");
        reveal_strlit("0");
        reveal_strlit("");
    }
    let pad = if v < 0x10 { "000" } else if v < 0x100 { "00" } else if v < 0x1000 { "0" } else { "" };
    assert(pad@ =~= hex_padding(v as nat));
    out.append(pad);
    push_hex_digits(&mut out, v);
    assert(out@ =~= unicode_escape(ch));
    Some(out)
}

/// The UTF-8 bytes of `target` with bytes `[start, end)` replaced by those of `with`.
pub open spec fn replaced_bytes(target: Seq<char>, start: int, end: int, with: Seq<char>) -> Seq<u8> {
    let b = encode_utf8(target);
    b.subrange(0, start) + encode_utf8(with) + b.subrange(end, b.len() as int)
}

/// Whether `[start, end)` is a range of whole characters of the UTF-8 bytes of `target`.
pub open spec fn is_char_range(target: Seq<char>, start: int, end: int) -> bool {
    let b = encode_utf8(target);
    &&& 0 <= start <= end <= b.len()
    &&& is_char_boundary(b, start)
    &&& is_char_boundary(b, end)
}

/// Replaces the bytes `range` of `target` by `replace_with`; `None` where the range
/// is out of bounds or does not fall on character boundaries.
pub fn safe_replace_by_range(target: String, range: Range<usize>, replace_with: &str) -> (r: Option<
    String,
>)
    ensures
        r is Some <==> is_char_range(target@, range.start as int, range.end as int),
        r is Some ==> encode_utf8(r->0@) == replaced_bytes(
            target@,
            range.start as int,
            range.end as int,
            replace_with@,
        ),
{
    let t = target.as_str();
    let n = t.as_bytes().len();
    if range.start > range.end || range.end > n || !t.is_char_boundary(range.start)
        || !t.is_char_boundary(range.end) {
        return None;
    }
    let (head, _) = t.split_at(range.start);
    let (_, tail) = t.split_at(range.end);
    let mut out = head.to_owned();
    out.append(replace_with);
    out.append(tail);
    proof {
        lemma_encode_utf8_concat(head@, replace_with@);
        lemma_encode_utf8_concat(head@ + replace_with@, tail@);
        assert(head@ + replace_with@ + tail@ == out@);
    }
    Some(out)
}

/// Whether a `\0` escape ends right at byte `k` of `b`.
pub open spec fn nul_escape_ends_at(b: Seq<u8>, k: int) -> bool {
    2 <= k <= b.len() && b[k - 2] == 92 && b[k - 1] == 48
}

fn ends_with_nul_escape(b: &[u8], k: usize) -> (r: bool)
    ensures
        r == nul_escape_ends_at(b@, k as int),
{
    2 <= k && k <= b.len() && b[k - 2] == 92 && b[k - 1] == 48
}

/// The kind of fix that a finding suggests.
#[derive(Clone, Copy, Debug, PartialEq, Eq, Structural)]
pub enum FixSuggestionKind {
    Refactor,
}

/// One finding: where to report it, and the text replacement that fixes it.
#[derive(Debug)]
pub struct RuleState {
    pub kind: FixSuggestionKind,
    /// The reported range, in absolute source offsets.
    pub diagnostics_text_range: TextRange,
    /// The text that the fix replaces.
    pub replace_from: String,
    /// The text that the fix puts in its place.
    pub replace_to: String,
    /// The replaced bytes, as offsets into the literal's text.
    pub replace_string_range: Range<usize>,
}

/// A finding as values: reported range, replaced text, replacement, and byte range.
pub type StateView = (TextRange, Seq<char>, Seq<char>, int, int);

impl View for RuleState {
    type V = StateView;

    open spec fn view(&self) -> StateView {
        (
            self.diagnostics_text_range,
            self.replace_from@,
            self.replace_to@,
            self.replace_string_range.start as int,
            self.replace_string_range.end as int,
        )
    }
}

/// The findings for one lexed escape `e` of a literal whose text `cs` starts at
/// source offset `t0`. Right after a `\0` escape, two: one that merges both escapes
/// into a unicode escape of NUL followed by the digit, and one that unicode-escapes
/// the digit; else one that drops the backslash. A range that cannot be formed drops
/// the escape's findings.
pub open spec fn escape_states(cs: Seq<char>, t0: int, e: LexedEscape) -> Seq<StateView> {
    let (prev, d, s, end) = e;
    let escape = seq!['\\', d];
    match range_of(t0 + s, t0 + end) {
        None => seq![],
        Some(decimal_range) => if prev == Some(seq!['\\', '0']) && nul_escape_ends_at(
            encode_utf8(cs),
            s,
        ) {
            match range_of(t0 + s - 2, t0 + end) {
                None => seq![],
                Some(merged_range) => seq![
                    (merged_range, seq!['\\', '0'] + escape, unicode_escape('\0') + seq![d], s - 2, end),
                    (decimal_range, escape, unicode_escape(d), s, end),
                ],
            }
        } else {
            seq![(decimal_range, escape, seq![d], s, end)]
        },
    }
}

/// The findings of all escapes `es`, in order.
pub open spec fn states_of(cs: Seq<char>, t0: int, es: Seq<LexedEscape>) -> Seq<StateView>
    decreases es.len(),
{
    if es.len() == 0 {
        seq![]
    } else {
        states_of(cs, t0, es.drop_last()) + escape_states(cs, t0, es.last())
    }
}

/// `s` with every finding dropped whose reported range an earlier one already has.
pub open spec fn dedup_by_range(s: Seq<StateView>) -> Seq<StateView>
    decreases s.len(),
{
    if s.len() == 0 {
        seq![]
    } else {
        let kept = dedup_by_range(s.drop_last());
        if exists|j: int| 0 <= j < s.len() - 1 && (#[trigger] s[j]).0 == s.last().0 {
            kept
        } else {
            kept.push(s.last())
        }
    }
}

/// The findings for a string literal with text `cs` at source offset `t0`.
pub open spec fn nonoctal_states(cs: Seq<char>, t0: int) -> Seq<StateView> {
    if has_nonoctal_escape(cs) {
        dedup_by_range(states_of(cs, t0, lexed_escapes(cs)))
    } else {
        seq![]
    }
}

proof fn lemma_dedup_by_range(s: Seq<StateView>)
    ensures
        forall|i: int|
            0 <= i < dedup_by_range(s).len() ==> exists|j: int|
                0 <= j < s.len() && s[j] == #[trigger] dedup_by_range(s)[i],
        forall|i: int, j: int|
            0 <= i < j < dedup_by_range(s).len() ==> (#[trigger] dedup_by_range(s)[i]).0
                != (#[trigger] dedup_by_range(s)[j]).0,
    decreases s.len(),
{
    if s.len() > 0 {
        let init = s.drop_last();
        lemma_dedup_by_range(init);
        let kept = dedup_by_range(init);
        assert forall|i: int| 0 <= i < kept.len() implies exists|j: int|
            0 <= j < s.len() - 1 && s[j] == #[trigger] kept[i] by {
            let j = choose|j: int| 0 <= j < init.len() && init[j] == kept[i];
            assert(s[j] == init[j]);
        }
        if !(exists|j: int| 0 <= j < s.len() - 1 && (#[trigger] s[j]).0 == s.last().0) {
            assert forall|i: int| 0 <= i < kept.len() implies (#[trigger] kept[i]).0 != s.last().0 by {
                let j = choose|j: int| 0 <= j < s.len() - 1 && s[j] == kept[i];
                assert(s[j].0 != s.last().0);
            }
            assert(dedup_by_range(s) == kept.push(s.last()));
        }
    }
}

/// Lexed escapes start at strictly increasing offsets.
proof fn lemma_lexed_starts_increase(cs: Seq<char>, a: int, b: int)
    requires
        0 <= a < b < lexed_escapes(cs).len(),
    ensures
        lexed_escapes(cs)[a].2 + 2 <= lexed_escapes(cs)[b].2,
    decreases b - a,
{
    lemma_lexed_escape_shape(cs);
    lemma_lex_from_order(cs, 0, None, None);
    let es = lexed_escapes(cs);
    assert(es[b - 1].3 <= es[b].2);
    if a < b - 1 {
        lemma_lexed_starts_increase(cs, a, b - 1);
    }
}

/// Every finding of `states_of` comes from one of the escapes.
proof fn lemma_states_of_origin(cs: Seq<char>, t0: int, es: Seq<LexedEscape>, n: int)
    requires
        0 <= n < states_of(cs, t0, es).len(),
    ensures
        exists|j: int, m: int|
            0 <= j < es.len() && 0 <= m < escape_states(cs, t0, es[j]).len() && #[trigger] escape_states(
                cs,
                t0,
                es[j],
            )[m] == states_of(cs, t0, es)[n],
    decreases es.len(),
{
    let init = es.drop_last();
    let head = states_of(cs, t0, init);
    let last = escape_states(cs, t0, es.last());
    if n < head.len() {
        lemma_states_of_origin(cs, t0, init, n);
        let (j, m) = choose|j: int, m: int|
            0 <= j < init.len() && 0 <= m < escape_states(cs, t0, init[j]).len() && #[trigger] escape_states(
                cs,
                t0,
                init[j],
            )[m] == head[n];
        assert(init[j] == es[j]);
        assert((head + last)[n] == head[n]);
    } else {
        assert((head + last)[n] == last[n - head.len()]);
        assert(escape_states(cs, t0, es[es.len() - 1])[n - head.len()] == states_of(cs, t0, es)[n]);
    }
}

/// The findings of each escape appear among those of `states_of`.
proof fn lemma_states_of_includes(cs: Seq<char>, t0: int, es: Seq<LexedEscape>, k: int, m: int)
    requires
        0 <= k < es.len(),
        0 <= m < escape_states(cs, t0, es[k]).len(),
    ensures
        exists|n: int|
            0 <= n < states_of(cs, t0, es).len() && #[trigger] states_of(cs, t0, es)[n]
                == escape_states(cs, t0, es[k])[m],
    decreases es.len(),
{
    let init = es.drop_last();
    let head = states_of(cs, t0, init);
    let last = escape_states(cs, t0, es.last());
    assert(states_of(cs, t0, es) == head + last);
    if k < es.len() - 1 {
        assert(init[k] == es[k]);
        lemma_states_of_includes(cs, t0, init, k, m);
        let n = choose|n: int| 0 <= n < head.len() && #[trigger] head[n] == escape_states(cs, t0, init[k])[m];
        assert((head + last)[n] == head[n]);
        assert(states_of(cs, t0, es)[n] == escape_states(cs, t0, es[k])[m]);
    } else {
        assert(es.last() == es[k]);
        assert((head + last)[head.len() + m] == last[m]);
        assert(states_of(cs, t0, es)[head.len() + m] == escape_states(cs, t0, es[k])[m]);
    }
}

/// A finding whose range no other finding of `s` has is kept.
proof fn lemma_dedup_keeps_unique(s: Seq<StateView>, n: int)
    requires
        0 <= n < s.len(),
        forall|j: int| 0 <= j < s.len() && (#[trigger] s[j]).0 == s[n].0 ==> s[j] == s[n],
    ensures
        exists|i: int| 0 <= i < dedup_by_range(s).len() && #[trigger] dedup_by_range(s)[i] == s[n],
    decreases s.len(),
{
    let init = s.drop_last();
    let kept = dedup_by_range(init);
    if n < s.len() - 1 {
        assert forall|j: int| 0 <= j < init.len() && (#[trigger] init[j]).0 == init[n].0 implies init[j]
            == init[n] by {
            assert(s[j] == init[j]);
        }
        lemma_dedup_keeps_unique(init, n);
        let i = choose|i: int| 0 <= i < kept.len() && #[trigger] kept[i] == init[n];
        assert(init[n] == s[n]);
        if exists|j: int| 0 <= j < s.len() - 1 && (#[trigger] s[j]).0 == s.last().0 {
            assert(dedup_by_range(s) == kept);
            assert(dedup_by_range(s)[i] == s[n]);
        } else {
            assert(dedup_by_range(s) == kept.push(s.last()));
            assert(dedup_by_range(s)[i] == kept[i]);
        }
    } else {
        if exists|j: int| 0 <= j < s.len() - 1 && (#[trigger] s[j]).0 == s.last().0 {
            let j = choose|j: int| 0 <= j < s.len() - 1 && (#[trigger] s[j]).0 == s.last().0;
            assert(s[j] == s[n]);
            assert(init[j] == s[n]);
            assert forall|q: int| 0 <= q < init.len() && (#[trigger] init[q]).0 == init[j].0 implies init[q]
                == init[j] by {
                assert(s[q] == init[q]);
            }
            lemma_dedup_keeps_unique(init, j);
            assert(dedup_by_range(s) == kept);
            let i = choose|i: int| 0 <= i < kept.len() && #[trigger] kept[i] == init[j];
            assert(dedup_by_range(s)[i] == s[n]);
        } else {
            assert(dedup_by_range(s) == kept.push(s.last()));
            assert(dedup_by_range(s)[kept.len() as int] == s.last());
        }
    }
}

/// Every `\8` or `\9` that does not come right after a `\0` escape is fixed in the
/// result of the rule by its bare digit, in place of exactly the two bytes of the
/// escape, and reported at those two bytes.
pub proof fn lemma_run_has_plain_fix(cs: Seq<char>, t0: int, k: int)
    requires
        has_nonoctal_escape(cs),
        0 <= k < lexed_escapes(cs).len(),
        !(lexed_escapes(cs)[k].0 == Some(seq!['\\', '0']) && nul_escape_ends_at(
            encode_utf8(cs),
            lexed_escapes(cs)[k].2,
        )),
        range_of(t0 + lexed_escapes(cs)[k].2, t0 + lexed_escapes(cs)[k].2 + 2) is Some,
    ensures
        ({
            let (prev, d, s, end) = lexed_escapes(cs)[k];
            exists|n: int|
                0 <= n < nonoctal_states(cs, t0).len() && #[trigger] nonoctal_states(cs, t0)[n] == (
                    range_of(t0 + s, t0 + s + 2)->0,
                    seq!['\\', d],
                    seq![d],
                    s,
                    s + 2,
                )
        }),
{
    let es = lexed_escapes(cs);
    let all = states_of(cs, t0, es);
    lemma_lexed_escape_shape(cs);
    let (prev, d, s, end) = es[k];
    let r = range_of(t0 + s, t0 + s + 2)->0;
    let x = (r, seq!['\\', d], seq![d], s, s + 2);
    assert(escape_states(cs, t0, es[k]) == seq![x]);
    lemma_states_of_includes(cs, t0, es, k, 0);
    let n = choose|n: int| 0 <= n < all.len() && #[trigger] all[n] == escape_states(cs, t0, es[k])[0];
    assert forall|q: int| 0 <= q < all.len() && (#[trigger] all[q]).0 == all[n].0 implies all[q] == all[n] by {
        lemma_states_of_origin(cs, t0, es, q);
        let (j, m) = choose|j: int, m: int|
            0 <= j < es.len() && 0 <= m < escape_states(cs, t0, es[j]).len() && #[trigger] escape_states(
                cs,
                t0,
                es[j],
            )[m] == all[q];
        if j < k {
            lemma_lexed_starts_increase(cs, j, k);
        } else if k < j {
            lemma_lexed_starts_increase(cs, k, j);
        }
    }
    lemma_dedup_keeps_unique(all, n);
    assert(nonoctal_states(cs, t0) == dedup_by_range(all));
    let i = choose|i: int| 0 <= i < dedup_by_range(all).len() && #[trigger] dedup_by_range(all)[i] == all[n];
    assert(nonoctal_states(cs, t0)[i] == x);
}

/// No two findings for one string literal share a reported range.
pub proof fn lemma_findings_have_distinct_ranges(cs: Seq<char>, t0: int)
    ensures
        forall|i: int, j: int|
            0 <= i < j < nonoctal_states(cs, t0).len() ==> (#[trigger] nonoctal_states(cs, t0)[i]).0
                != (#[trigger] nonoctal_states(cs, t0)[j]).0,
{
    if has_nonoctal_escape(cs) {
        lemma_dedup_by_range(states_of(cs, t0, lexed_escapes(cs)));
    }
}

/// The findings of `v` as values.
pub open spec fn views(v: Seq<RuleState>) -> Seq<StateView> {
    v.map_values(|st: RuleState| st@)
}

impl RuleState {
    /// A copy of this finding.
    pub fn duplicate(&self) -> (r: RuleState)
        ensures
            r@ == self@,
    {
        RuleState {
            kind: self.kind,
            diagnostics_text_range: self.diagnostics_text_range,
            replace_from: self.replace_from.clone(),
            replace_to: self.replace_to.clone(),
            replace_string_range: Range { start: self.replace_string_range.start, end: self.replace_string_range.end },
        }
    }
}

/// The range `[t0 + start, t0 + end)` in absolute source offsets, if it can be formed.
fn absolute_range(t0: u32, start: usize, end: usize) -> (r: Option<TextRange>)
    ensures
        r == range_of(t0 + start, t0 + end),
{
    if start > end || end > u32::MAX as usize {
        return None;
    }
    let abs_end = t0 as u64 + end as u64;
    if abs_end > u32::MAX as u64 {
        return None;
    }
    Some(TextRange { start: (t0 as u64 + start as u64) as u32, end: abs_end as u32 })
}

/// Appends the findings for the lexed escape `e` of the literal `text` at offset `t0`.
fn push_escape_states(text: &str, t0: u32, e: &EscapeSequence, out: &mut Vec<RuleState>)
    requires
        e.wf(),
    ensures
        views(final(out)@) == views(old(out)@) + escape_states(text@, t0 as int, e@),
{
    let ghost before = out@;
    let (start, end) = e.decimal_escape_range;
    let decimal_escape_range = match absolute_range(t0, start, end) {
        Some(r) => r,
        None => {
            assert(views(out@) =~= views(before) + seq![]);
            return;
        },
    };
    let decimal_char = e.decimal_escape.as_str().get_char(1);
    let nul = String::from_str("\\0");
    proof {
        reveal_strlit("\\0");
        assert(nul@ =~= seq!['\\', '0']);
    }
    let after_nul = match &e.previous_escape {
        Some(p) => p.eq(&nul),
        None => false,
    };
    if after_nul && ends_with_nul_escape(text.as_bytes(), start) {
        let nul_start = start - 2;
        let merged_range = match absolute_range(t0, nul_start, end) {
            Some(r) => r,
            None => {
                assert(views(out@) =~= views(before) + seq![]);
                return;
            },
        };
        let mut replace_from = nul;
        replace_from.append(e.decimal_escape.as_str());
        let mut replace_to = get_unicode_escape('\0').unwrap();
        replace_to.append(char_to_string(decimal_char).as_str());
        out.push(RuleState {
            kind: FixSuggestionKind::Refactor,
            diagnostics_text_range: merged_range,
            replace_from,
            replace_to,
            replace_string_range: Range { start: nul_start, end },
        });
        out.push(RuleState {
            kind: FixSuggestionKind::Refactor,
            diagnostics_text_range: decimal_escape_range,
            replace_from: e.decimal_escape.clone(),
            replace_to: get_unicode_escape(decimal_char).unwrap(),
            replace_string_range: Range { start, end },
        });
    } else {
        out.push(RuleState {
            kind: FixSuggestionKind::Refactor,
            diagnostics_text_range: decimal_escape_range,
            replace_from: e.decimal_escape.clone(),
            replace_to: char_to_string(decimal_char),
            replace_string_range: Range { start, end },
        });
    }
    assert(views(out@) =~= views(before) + escape_states(text@, t0 as int, e@));
}

/// The kinds of token a literal member name may hold.
#[derive(Clone, Copy, Debug, PartialEq, Eq, Structural)]
pub enum LiteralTokenKind {
    JsStringLiteral,
    JsNumberLiteral,
    Ident,
}

/// A token: its kind and its trimmed text.
#[derive(Debug)]
pub struct LiteralToken {
    pub kind: LiteralTokenKind,
    pub text: String,
}

/// Any string literal, JSX strings excepted; `None` stands for a missing token.
#[derive(Debug)]
pub enum AnyJsStringLiteral {
    JsStringLiteralExpression { value_token: Option<LiteralToken> },
    JsLiteralMemberName { value: Option<LiteralToken> },
}

/// The text of the string token of `node`, if it has one.
pub open spec fn literal_token_text(node: AnyJsStringLiteral) -> Option<Seq<char>> {
    match node {
        AnyJsStringLiteral::JsStringLiteralExpression { value_token } => match value_token {
            Some(t) => Some(t.text@),
            None => None,
        },
        AnyJsStringLiteral::JsLiteralMemberName { value } => match value {
            Some(t) => if t.kind == LiteralTokenKind::JsStringLiteral {
                Some(t.text@)
            } else {
                None
            },
            None => None,
        },
    }
}

impl AnyJsStringLiteral {
    /// The string token of the literal: the value of a string expression, or the
    /// value of a member name where that is a string literal.
    pub fn string_literal_token(&self) -> (r: Option<&LiteralToken>)
        ensures
            r == (match self {
                AnyJsStringLiteral::JsStringLiteralExpression { value_token } => match value_token {
                    Some(t) => Some(t),
                    None => None,
                },
                AnyJsStringLiteral::JsLiteralMemberName { value } => match value {
                    Some(t) => if t.kind == LiteralTokenKind::JsStringLiteral {
                        Some(t)
                    } else {
                        None
                    },
                    None => None,
                },
            }),
    {
        match self {
            AnyJsStringLiteral::JsStringLiteralExpression { value_token } => match value_token {
                Some(t) => Some(t),
                None => None,
            },
            AnyJsStringLiteral::JsLiteralMemberName { value } => match value {
                Some(t) => if t.kind == LiteralTokenKind::JsStringLiteral {
                    Some(t)
                } else {
                    None
                },
                None => None,
            },
        }
    }
}

/// Disallows `\8` and `\9` escape sequences in string literals.
pub struct NoNonoctalDecimalEscape;

impl RuleState {
    /// The description of this finding's fix.
    pub fn action_message(&self) -> (r: String)
        ensures
            r@ == "Replace "@ + self.replace_from@ + " with "@ + self.replace_to@
                + ". This maintains the current functionality."@,
    {
        let mut r = String::from_str("Replace ");
        r.append(self.replace_from.as_str());
        r.append(" with ");
        r.append(self.replace_to.as_str());
        r.append(". This maintains the current functionality.");
        r
    }
}

impl NoNonoctalDecimalEscape {
    /// The report of a finding, at its reported range.
    pub fn diagnostic(state: &RuleState) -> (r: RuleDiagnostic)
        ensures
            r.range == state.diagnostics_text_range,
            r.message@ == "Don't use `\\8` and `\\9` escape sequences in string literals."@,
            r.detail is None,
            r.note is Some,
            r.note->0@ == "The nonoctal decimal escape is a deprecated syntax that is left for compatibility and should not be used."@,
    {
        RuleDiagnostic {
            range: state.diagnostics_text_range,
            message: String::from_str("Don't use `\\8` and `\\9` escape sequences in string literals."),
            detail: None,
            note: Some(
                String::from_str(
                    "The nonoctal decimal escape is a deprecated syntax that is left for compatibility and should not be used.",
                ),
            ),
        }
    }

    /// The findings for the string literal `node` starting at source offset
    /// `node_start`; none where it has no string token.
    pub fn run_on_literal(node: &AnyJsStringLiteral, node_start: u32) -> (r: Vec<RuleState>)
        ensures
            views(r@) == match literal_token_text(*node) {
                Some(t) => nonoctal_states(t, node_start as int),
                None => seq![],
            },
    {
        match node.string_literal_token() {
            Some(token) => Self::run(token.text.as_str(), node_start),
            None => {
                let empty: Vec<RuleState> = Vec::new();
                assert(views(empty@) =~= seq![]);
                empty
            },
        }
    }

    /// The literal's text after the fix of `state`; `None` where its range does not
    /// fall on whole characters of `token_text`.
    pub fn action(state: &RuleState, token_text: &str) -> (r: Option<String>)
        ensures
            r is Some <==> is_char_range(
                token_text@,
                state.replace_string_range.start as int,
                state.replace_string_range.end as int,
            ),
            r is Some ==> encode_utf8(r->0@) == replaced_bytes(
                token_text@,
                state.replace_string_range.start as int,
                state.replace_string_range.end as int,
                state.replace_to@,
            ),
    {
        safe_replace_by_range(
            String::from_str(token_text),
            Range { start: state.replace_string_range.start, end: state.replace_string_range.end },
            state.replace_to.as_str(),
        )
    }

    /// The findings for a string literal token whose trimmed text is `token_text`
    /// and starts at source offset `token_start`, one per reported range.
    pub fn run(token_text: &str, token_start: u32) -> (r: Vec<RuleState>)
        ensures
            views(r@) == nonoctal_states(token_text@, token_start as int),
    {
        if !is_octal_escape_sequence(token_text) {
            let empty: Vec<RuleState> = Vec::new();
            assert(views(empty@) =~= seq![]);
            return empty;
        }
        let matches = lex_escape_sequences(token_text);
        let ghost lexed = lexed_escapes(token_text@);
        let mut all: Vec<RuleState> = Vec::new();
        let mut k: usize = 0;
        assert(views(all@) =~= states_of(token_text@, token_start as int, lexed.subrange(0, 0)));
        while k < matches.len()
            invariant
                lexed == lexed_escapes(token_text@),
                matches@.len() == lexed.len(),
                forall|j: int| 0 <= j < matches@.len() ==> #[trigger] matches@[j].wf(),
                forall|j: int| 0 <= j < matches@.len() ==> #[trigger] matches@[j]@ == lexed[j],
                k <= matches@.len(),
                views(all@) == states_of(token_text@, token_start as int, lexed.subrange(0, k as int)),
            decreases matches.len() - k,
        {
            assert(matches@[k as int]@ == lexed[k as int]);
            push_escape_states(token_text, token_start, &matches[k], &mut all);
            assert(lexed.subrange(0, k + 1).drop_last() =~= lexed.subrange(0, k as int));
            k += 1;
        }
        assert(lexed.subrange(0, k as int) =~= lexed);
        let ghost candidates = views(all@);
        let mut seen: FxHashSet<(u32, u32)> = FxHashSet::default();
        let mut result: Vec<RuleState> = Vec::new();
        let mut i: usize = 0;
        assert(views(result@) =~= dedup_by_range(candidates.subrange(0, 0)));
        while i < all.len()
            invariant
                candidates == views(all@),
                i <= all@.len(),
                views(result@) == dedup_by_range(candidates.subrange(0, i as int)),
                forall|key: (u32, u32)| #[trigger] seen@.contains(key) <==> exists|j: int|
                    0 <= j < i && (#[trigger] candidates[j]).0.start == key.0 && candidates[j].0.end == key.1,
            decreases all.len() - i,
        {
            let range = all[i].diagnostics_text_range;
            let ghost prefix = candidates.subrange(0, i + 1);
            assert(prefix.drop_last() =~= candidates.subrange(0, i as int));
            assert(prefix.last() == candidates[i as int]);
            assert((exists|j: int| 0 <= j < prefix.len() - 1 && (#[trigger] prefix[j]).0 == prefix.last().0)
                <==> seen@.contains((range.start, range.end))) by {
                if seen@.contains((range.start, range.end)) {
                    let j = choose|j: int| 0 <= j < i && (#[trigger] candidates[j]).0.start == range.start && candidates[j].0.end == range.end;
                    assert(prefix[j] == candidates[j]);
                }
                if exists|j: int| 0 <= j < prefix.len() - 1 && (#[trigger] prefix[j]).0 == prefix.last().0 {
                    let j = choose|j: int| 0 <= j < prefix.len() - 1 && (#[trigger] prefix[j]).0 == prefix.last().0;
                    assert(prefix[j] == candidates[j]);
                }
            }
            let fresh = insert_pair(&mut seen, (range.start, range.end));
            if fresh {
                result.push(all[i].duplicate());
            }
            assert(views(result@) =~= dedup_by_range(prefix));
            i += 1;
        }
        assert(candidates.subrange(0, i as int) =~= candidates);
        result
    }
}

} // verus!
