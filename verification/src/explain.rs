//! A human-readable, line-by-line breakdown of a regex pattern.
//!
//! The explanation is read off the pattern by a small recursive descent over
//! its characters: anchors, groups, classes, escapes, quantifiers and
//! literals each contribute one entry, nested group bodies are indented, and
//! at most [`MAX_LINES`] lines are kept.

use vstd::prelude::*;

use crate::text::{
    lemma_lines_have_no_newline, lemma_lines_nonempty, lemma_single_line, indent,
    char_lines, indented, push_all, push_lines, push_str, split_lines, string_from, string_lines,
    strings_from, vec_of,
};

verus! {

/// The number of explanation lines that are kept.
pub const MAX_LINES: usize = 80;

/// Characters with a meaning of their own in a pattern.
pub open spec fn is_pattern_metachar(c: char) -> bool {
    c == '^' || c == '$' || c == '.' || c == '*' || c == '+' || c == '?' || c == '|' || c == '['
        || c == ']' || c == '(' || c == ')' || c == '{' || c == '}' || c == '\\'
}

/// Characters that start a quantifier.
pub open spec fn is_quantifier_char(c: char) -> bool {
    c == '*' || c == '+' || c == '?' || c == '{'
}

/// Whether `needle` occurs in `p` at position `i`.
pub open spec fn occurs_at(p: Seq<char>, i: int, needle: Seq<char>) -> bool {
    &&& 0 <= i
    &&& i + needle.len() <= p.len()
    &&& p.subrange(i, i + needle.len()) == needle
}

/// The first position at or after `i` that holds `c`, or the end of `p`.
pub open spec fn find_from(p: Seq<char>, i: int, c: char) -> int
    decreases p.len() - i,
{
    if i >= p.len() {
        p.len() as int
    } else if p[i] == c {
        i
    } else {
        find_from(p, i + 1, c)
    }
}

/// The end of a literal run starting at `i`: the first metacharacter at or
/// after `i`, or the end of `p`.
pub open spec fn literal_end(p: Seq<char>, i: int) -> int
    decreases p.len() - i,
{
    if i >= p.len() {
        p.len() as int
    } else if is_pattern_metachar(p[i]) {
        i
    } else {
        literal_end(p, i + 1)
    }
}

/// The end of the literal entry at `i`: a stray `]` or `}` (a
/// metacharacter that starts no other entry) is an entry of its own;
/// otherwise the run goes up to the next metacharacter.
pub open spec fn literal_stop(p: Seq<char>, i: int) -> int {
    if 0 <= i < p.len() && is_pattern_metachar(p[i]) {
        i + 1
    } else {
        literal_end(p, i)
    }
}

/// The position just after the `]` that closes a class whose body starts at
/// `i` (a backslash escapes the character after it), or the end of `p`.
pub open spec fn class_end(p: Seq<char>, i: int, escaped: bool) -> int
    decreases p.len() - i,
{
    if i >= p.len() {
        p.len() as int
    } else if escaped {
        class_end(p, i + 1, false)
    } else if p[i] == '\\' {
        class_end(p, i + 1, true)
    } else if p[i] == ']' {
        i + 1
    } else {
        class_end(p, i + 1, false)
    }
}

/// `s` without its leading copies of `c`.
pub open spec fn trim_start_char(s: Seq<char>, c: char) -> Seq<char>
    decreases s.len(),
{
    if s.len() > 0 && s[0] == c {
        trim_start_char(s.drop_first(), c)
    } else {
        s
    }
}

/// `s` without its trailing copies of `c`.
pub open spec fn trim_end_char(s: Seq<char>, c: char) -> Seq<char>
    decreases s.len(),
{
    if s.len() > 0 && s.last() == c {
        trim_end_char(s.drop_last(), c)
    } else {
        s
    }
}

/// Whether `c` is a curly brace.
pub open spec fn is_brace(c: char) -> bool {
    c == '{' || c == '}'
}

/// `s` without the leading curly braces.
pub open spec fn trim_start_braces(s: Seq<char>) -> Seq<char>
    decreases s.len(),
{
    if s.len() > 0 && is_brace(s[0]) {
        trim_start_braces(s.drop_first())
    } else {
        s
    }
}

/// `s` without the trailing curly braces.
pub open spec fn trim_end_braces(s: Seq<char>) -> Seq<char>
    decreases s.len(),
{
    if s.len() > 0 && is_brace(s.last()) {
        trim_end_braces(s.drop_last())
    } else {
        s
    }
}

/// The explanation of a literal run: its characters, then a fixed phrase.
pub open spec fn literal_text(run: Seq<char>) -> Seq<char> {
    run + " matches the characters literally"@
}

/// The explanation of a character class `class` (brackets included).
pub open spec fn class_text(class: Seq<char>) -> Seq<char> {
    if class.len() >= 2 && class[0] == '[' && class[1] == '^' {
        class + " matches one character not present in the set"@
    } else {
        class + " matches one character present in the set"@
    }
}

/// The explanation of the escape `\c`.
pub open spec fn escape_text(c: char) -> Seq<char> {
    if c == 'd' {
        "\\d matches any digit, equivalent to [0-9]"@
    } else if c == 'D' {
        "\\D matches any non-digit character"@
    } else if c == 'w' {
        "\\w matches any word character"@
    } else if c == 'W' {
        "\\W matches any non-word character"@
    } else if c == 's' {
        "\\s matches any whitespace character"@
    } else if c == 'S' {
        "\\S matches any non-whitespace character"@
    } else if c == 'b' {
        "\\b asserts a word boundary"@
    } else if c == 'B' {
        "\\B asserts that the position is not a word boundary"@
    } else if c == 'A' {
        "\\A asserts the start of the string"@
    } else if c == 'z' {
        "\\z asserts the end of the string"@
    } else if c == 'n' {
        "\\n matches a newline character"@
    } else if c == 'r' {
        "\\r matches a carriage return character"@
    } else if c == 't' {
        "\\t matches a tab character"@
    } else {
        "\\"@ + seq![c] + " matches the character \""@ + seq![c]
            + "\" literally or uses a regex escape"@
    }
}

/// The explanation of a backslash at position `i`, with the position after it.
pub open spec fn escape_step(p: Seq<char>, i: int) -> (Seq<char>, int) {
    if i + 1 >= p.len() {
        ("\\ at the end of the pattern matches a literal backslash"@, p.len() as int)
    } else {
        (escape_text(p[i + 1]), i + 2)
    }
}

/// The wording of a counted quantifier `q` (braces included).
pub open spec fn count_text(q: Seq<char>) -> Seq<char> {
    let inner = trim_end_char(trim_start_char(q, '{'), '}');
    let comma = find_from(inner, 0, ',');
    if comma < inner.len() {
        let min = inner.subrange(0, comma);
        let max = inner.subrange(comma + 1, inner.len() as int);
        if max.len() == 0 {
            "at least "@ + min + " times"@
        } else if min.len() == 0 {
            "between zero and "@ + max + " times"@
        } else {
            "between "@ + min + " and "@ + max + " times"@
        }
    } else {
        "exactly "@ + trim_end_braces(trim_start_braces(q)) + " times"@
    }
}

/// The quantifier starting at `i` before any laziness mark, if any, with the
/// position after it.
pub open spec fn quantifier_base(p: Seq<char>, i: int) -> (Option<Seq<char>>, int) {
    if i < 0 || i >= p.len() {
        (None, i)
    } else if p[i] == '*' {
        (Some("zero or more times"@), i + 1)
    } else if p[i] == '+' {
        (Some("one or more times"@), i + 1)
    } else if p[i] == '?' {
        (Some("zero or one time"@), i + 1)
    } else if p[i] == '{' {
        let end = count_end(p, i);
        (Some(count_text(p.subrange(i, end))), end)
    } else {
        (None, i)
    }
}

/// The position after a counted quantifier opened at `i`: just after the
/// first `}`, or the end of `p`.
pub open spec fn count_end(p: Seq<char>, i: int) -> int {
    let close = find_from(p, i + 1, '}');
    if close < p.len() {
        close + 1
    } else {
        p.len() as int
    }
}

/// The quantifier starting at `i`, if any, with the position after it; a
/// following `?` makes it lazy.
pub open spec fn quantifier_step(p: Seq<char>, i: int) -> (Option<Seq<char>>, int) {
    let (base, end) = quantifier_base(p, i);
    match base {
        Some(q) => if 0 <= end < p.len() && p[end] == '?' {
            (Some(q + ", as few times as possible"@), end + 1)
        } else {
            (Some(q), end)
        },
        None => (None, i),
    }
}

/// An entry followed by the wording of its quantifier.
pub open spec fn with_quantifier(atom: Seq<char>, q: Option<Seq<char>>) -> Seq<char> {
    match q {
        Some(q) => atom + "; repeat the previous token "@ + q,
        None => atom,
    }
}

/// The lines `lines` joined with newlines.
pub open spec fn join_lines(lines: Seq<Seq<char>>) -> Seq<char>
    decreases lines.len(),
{
    if lines.len() == 0 {
        seq![]
    } else if lines.len() == 1 {
        lines[0]
    } else {
        join_lines(lines.drop_last()) + "\n"@ + lines.last()
    }
}

/// What the header of a group opened at `i` says, where its body starts,
/// and whether the header already closed the group (a flag setting such as
/// `(?i)`).
pub open spec fn group_head(p: Seq<char>, i: int) -> (Seq<char>, int, bool) {
    let j = i + 1;
    if occurs_at(p, j, "?P<"@) {
        let name_start = j + 3;
        let name_end = find_from(p, name_start, '>');
        let name = p.subrange(name_start, name_end);
        let body = if name_end < p.len() {
            name_end + 1
        } else {
            name_end
        };
        (
            "(?P<"@ + name + ">...) captures a match into the named group \""@ + name + "\""@,
            body,
            false,
        )
    } else if occurs_at(p, j, "?:"@) {
        ("(?:...) groups tokens without creating a capture group"@, j + 2, false)
    } else if occurs_at(p, j, "?="@) {
        ("(?=...) positive lookahead assertion"@, j + 2, false)
    } else if occurs_at(p, j, "?!"@) {
        ("(?!...) negative lookahead assertion"@, j + 2, false)
    } else if occurs_at(p, j, "?<="@) {
        ("(?<=...) positive lookbehind assertion"@, j + 3, false)
    } else if occurs_at(p, j, "?<!"@) {
        ("(?<!...) negative lookbehind assertion"@, j + 3, false)
    } else if j < p.len() && p[j] == '?' {
        let stop = flag_stop(p, j);
        if stop < p.len() && p[stop] == ')' {
            (
                "("@ + p.subrange(j, stop + 1) + "...) sets regex flags for the surrounding expression"@,
                stop + 1,
                true,
            )
        } else {
            let body = if stop < p.len() {
                stop + 1
            } else {
                stop
            };
            ("("@ + p.subrange(j, body) + "...) sets regex flags for this group"@, body, false)
        }
    } else {
        ("(...) captures the matched text into a numbered group"@, j, false)
    }
}

/// The first `:` or `)` at or after `i`, or the end of `p`.
pub open spec fn flag_stop(p: Seq<char>, i: int) -> int
    decreases p.len() - i,
{
    if i >= p.len() {
        p.len() as int
    } else if p[i] == ':' || p[i] == ')' {
        i
    } else {
        flag_stop(p, i + 1)
    }
}

/// The explanation of the group opened at `i` (nested lines included) and
/// the position after it (always `Some`; see `lemma_group_total`).
pub open spec fn group_step(p: Seq<char>, i: int, depth: nat) -> Option<(Seq<char>, int)>
    decreases p.len() - i, 0nat,
{
    let (label, body, closed) = group_head(p, i);
    if closed {
        Some((label, body))
    } else if i < body <= p.len() {
        match sequence_step(p, body, Some(')'), depth + 1) {
            Some((nested, k)) => if nested.len() == 0 {
                Some((label, k))
            } else {
                Some((join_lines(seq![label] + nested), k))
            },
            None => None,
        }
    } else {
        None
    }
}

/// The explanation of the single entry at `i` (before any quantifier) and
/// the position after it (always `Some`; see `lemma_atom_total`).
pub open spec fn atom_step(p: Seq<char>, i: int, depth: nat) -> Option<(Seq<char>, int)>
    decreases p.len() - i, 1nat,
{
    if i < 0 || i >= p.len() {
        None
    } else {
        let c = p[i];
        if c == '^' {
            Some(("^ asserts position at the start of a line or string"@, i + 1))
        } else if c == '$' {
            Some(("$ asserts position at the end of a line or string"@, i + 1))
        } else if c == '.' {
            Some((". matches any character except newline unless s is enabled"@, i + 1))
        } else if c == '[' {
            let end = class_end(p, i + 1, false);
            Some((class_text(p.subrange(i, end)), end))
        } else if c == '(' {
            group_step(p, i, depth)
        } else if c == ')' {
            Some((") closes the current group"@, i + 1))
        } else if c == '\\' {
            Some(escape_step(p, i))
        } else if is_quantifier_char(c) {
            Some((seq![c] + " is a quantifier without a previous token"@, i + 1))
        } else {
            let end = literal_stop(p, i);
            Some((literal_text(p.subrange(i, end)), end))
        }
    }
}

/// The explanation lines of the entries from `i` up to `until` (consumed) or
/// the end of `p`, indented by `depth`, and the position after them (every
/// entry consumes at least one character, so the walk always ends; see
/// `lemma_sequence_total`).
pub open spec fn sequence_step(p: Seq<char>, i: int, until: Option<char>, depth: nat) -> Option<
    (Seq<Seq<char>>, int),
>
    decreases p.len() - i, 2nat,
{
    if i < 0 || i >= p.len() {
        Some((seq![], p.len() as int))
    } else if Some(p[i]) == until {
        Some((seq![], i + 1))
    } else if p[i] == '|' {
        match sequence_step(p, i + 1, until, depth) {
            Some((rest, k)) => Some(
                (indented(split_lines("| starts an alternative branch"@), depth) + rest, k),
            ),
            None => None,
        }
    } else {
        match atom_step(p, i, depth) {
            Some((atom, j)) => if i < j <= p.len() {
                let (q, k) = quantifier_step(p, j);
                if j <= k <= p.len() {
                    match sequence_step(p, k, until, depth) {
                        Some((rest, m)) => Some(
                            (indented(split_lines(with_quantifier(atom, q)), depth) + rest, m),
                        ),
                        None => None,
                    }
                } else {
                    None
                }
            } else {
                None
            },
            None => None,
        }
    }
}

/// The lines of a walk.
pub open spec fn walk_lines(p: Seq<char>, i: int, until: Option<char>, depth: nat) -> Seq<Seq<char>> {
    match sequence_step(p, i, until, depth) {
        Some((lines, _)) => lines,
        None => seq![],
    }
}

/// The text of an entry.
pub open spec fn atom_text(p: Seq<char>, i: int, depth: nat) -> Seq<char> {
    match atom_step(p, i, depth) {
        Some((text, _)) => text,
        None => seq![],
    }
}

/// The position after a finished entry.
pub open spec fn atom_end(p: Seq<char>, i: int, depth: nat) -> int {
    match atom_step(p, i, depth) {
        Some((_, j)) => j,
        None => i,
    }
}

/// The first `MAX_LINES` lines of `lines`.
pub open spec fn capped(lines: Seq<Seq<char>>) -> Seq<Seq<char>> {
    if lines.len() <= MAX_LINES {
        lines
    } else {
        lines.take(MAX_LINES as int)
    }
}

/// The explanation of `p`: a prompt for an empty pattern, otherwise the
/// lines of the whole walk, capped (always `Some`; see
/// `law_explanation_total`).
pub open spec fn explanation(p: Seq<char>) -> Option<Seq<Seq<char>>> {
    if p.len() == 0 {
        Some(seq!["Enter a regex to see an explanation."@])
    } else {
        match sequence_step(p, 0, None, 0) {
            Some((lines, _)) => Some(capped(lines)),
            None => None,
        }
    }
}

/// Index of the first `c` at or after `i` in `s`, or `s.len()`.
fn find_char(s: &[char], i: usize, c: char) -> (r: usize)
    requires
        i <= s@.len(),
    ensures
        r == find_from(s@, i as int, c),
        i <= r <= s@.len(),
{
    let mut k: usize = i;
    while k < s.len() && s[k] != c
        invariant
            i <= k <= s@.len(),
            find_from(s@, i as int, c) == find_from(s@, k as int, c),
        decreases s@.len() - k,
    {
        k = k + 1;
    }
    k
}

/// Whether `c` has a meaning of its own in a pattern.
fn is_metachar(c: char) -> (r: bool)
    ensures
        r == is_pattern_metachar(c),
{
    c == '^' || c == '$' || c == '.' || c == '*' || c == '+' || c == '?' || c == '|' || c == '['
        || c == ']' || c == '(' || c == ')' || c == '{' || c == '}' || c == '\\'
}

/// `s[a..b]` as a new vector.
fn slice_of(s: &[char], a: usize, b: usize) -> (r: Vec<char>)
    requires
        a <= b <= s@.len(),
    ensures
        r@ == s@.subrange(a as int, b as int),
{
    let mut r: Vec<char> = Vec::new();
    let mut k: usize = a;
    while k < b
        invariant
            a <= k <= b <= s@.len(),
            r@ == s@.subrange(a as int, k as int),
        decreases b - k,
    {
        r.push(s[k]);
        k = k + 1;
        assert(r@ =~= s@.subrange(a as int, k as int));
    }
    r
}

/// `s` without its leading copies of `c`.
fn trimmed_start_char(s: &[char], c: char) -> (r: Vec<char>)
    ensures
        r@ == trim_start_char(s@, c),
{
    let mut k: usize = 0;
    assert(s@.subrange(0, s@.len() as int) =~= s@);
    while k < s.len() && s[k] == c
        invariant
            k <= s@.len(),
            trim_start_char(s@, c) == trim_start_char(s@.subrange(k as int, s@.len() as int), c),
        decreases s@.len() - k,
    {
        assert(s@.subrange(k as int, s@.len() as int).drop_first() =~= s@.subrange(
            k + 1,
            s@.len() as int,
        ));
        k = k + 1;
    }
    slice_of(s, k, s.len())
}

/// `s` without its trailing copies of `c`.
fn trimmed_end_char(s: &[char], c: char) -> (r: Vec<char>)
    ensures
        r@ == trim_end_char(s@, c),
{
    let mut k: usize = s.len();
    assert(s@.subrange(0, s@.len() as int) =~= s@);
    while k > 0 && s[k - 1] == c
        invariant
            k <= s@.len(),
            trim_end_char(s@, c) == trim_end_char(s@.subrange(0, k as int), c),
        decreases k,
    {
        assert(s@.subrange(0, k as int).drop_last() =~= s@.subrange(0, k - 1));
        k = k - 1;
    }
    slice_of(s, 0, k)
}

/// `s` without its leading and trailing curly braces.
fn trimmed_braces(s: &[char]) -> (r: Vec<char>)
    ensures
        r@ == trim_end_braces(trim_start_braces(s@)),
{
    let mut a: usize = 0;
    assert(s@.subrange(0, s@.len() as int) =~= s@);
    while a < s.len() && (s[a] == '{' || s[a] == '}')
        invariant
            a <= s@.len(),
            trim_start_braces(s@) == trim_start_braces(s@.subrange(a as int, s@.len() as int)),
        decreases s@.len() - a,
    {
        assert(s@.subrange(a as int, s@.len() as int).drop_first() =~= s@.subrange(
            a + 1,
            s@.len() as int,
        ));
        a = a + 1;
    }
    let t = slice_of(s, a, s.len());
    let mut k: usize = t.len();
    assert(t@.subrange(0, t@.len() as int) =~= t@);
    while k > 0 && (t[k - 1] == '{' || t[k - 1] == '}')
        invariant
            k <= t@.len(),
            trim_end_braces(t@) == trim_end_braces(t@.subrange(0, k as int)),
        decreases k,
    {
        assert(t@.subrange(0, k as int).drop_last() =~= t@.subrange(0, k - 1));
        k = k - 1;
    }
    slice_of(t.as_slice(), 0, k)
}

/// The wording of the counted quantifier `q` (braces included).
fn count_wording(q: &[char]) -> (r: Vec<char>)
    ensures
        r@ == count_text(q@),
{
    let start_trimmed = trimmed_start_char(q, '{');
    let inner = trimmed_end_char(start_trimmed.as_slice(), '}');
    let comma = find_char(inner.as_slice(), 0, ',');
    if comma < inner.len() {
        let min = slice_of(inner.as_slice(), 0, comma);
        let max = slice_of(inner.as_slice(), comma + 1, inner.len());
        let mut r: Vec<char> = Vec::new();
        if max.len() == 0 {
            push_str(&mut r, "at least ");
            push_all(&mut r, min.as_slice());
            push_str(&mut r, " times");
        } else if min.len() == 0 {
            push_str(&mut r, "between zero and ");
            push_all(&mut r, max.as_slice());
            push_str(&mut r, " times");
        } else {
            push_str(&mut r, "between ");
            push_all(&mut r, min.as_slice());
            push_str(&mut r, " and ");
            push_all(&mut r, max.as_slice());
            push_str(&mut r, " times");
        }
        r
    } else {
        let mut r = vec_of("exactly ");
        let middle = trimmed_braces(q);
        push_all(&mut r, middle.as_slice());
        push_str(&mut r, " times");
        r
    }
}

/// A cursor over the characters of a pattern.
struct Parser {
    chars: Vec<char>,
    pos: usize,
}

impl Parser {
    spec fn text(&self) -> Seq<char> {
        self.chars@
    }

    /// The cursor stays within the text.
    spec fn wf(&self) -> bool {
        self.pos <= self.chars@.len() <= usize::MAX
    }

    fn new(pattern: &str) -> (r: Self)
        ensures
            r.text() == pattern@,
            r.pos == 0,
            r.wf(),
    {
        let chars = vec_of(pattern);
        let n = chars.len();
        Parser { chars, pos: 0 }
    }

    fn peek(&self) -> (r: Option<char>)
        ensures
            r == (if self.pos < self.text().len() {
                Some(self.text()[self.pos as int])
            } else {
                None::<char>
            }),
    {
        if self.pos < self.chars.len() {
            Some(self.chars[self.pos])
        } else {
            None
        }
    }

    fn next(&mut self) -> (r: Option<char>)
        requires
            old(self).wf(),
        ensures
            final(self).text() == old(self).text(),
            final(self).wf(),
            r == (if old(self).pos < old(self).text().len() {
                Some(old(self).text()[old(self).pos as int])
            } else {
                None::<char>
            }),
            final(self).pos == (if old(self).pos < old(self).text().len() {
                old(self).pos + 1
            } else {
                old(self).pos as int
            }),
    {
        let ch = self.peek();
        if ch.is_some() {
            self.pos = self.pos + 1;
        }
        ch
    }

    fn slice(&self, start: usize, end: usize) -> (r: Vec<char>)
        requires
            self.wf(),
            start <= end <= self.text().len(),
        ensures
            r@ == self.text().subrange(start as int, end as int),
    {
        slice_of(self.chars.as_slice(), start, end)
    }

    fn starts_with(&self, needle: &[char]) -> (r: bool)
        requires
            self.wf(),
        ensures
            r == occurs_at(self.text(), self.pos as int, needle@),
    {
        if self.pos > self.chars.len() || needle.len() > self.chars.len() - self.pos {
            return false;
        }
        let mut k: usize = 0;
        while k < needle.len()
            invariant
                self.wf(),
                self.pos + needle@.len() <= self.text().len(),
                k <= needle@.len(),
                forall|j: int| 0 <= j < k ==> self.text()[self.pos + j] == needle@[j],
            decreases needle@.len() - k,
        {
            if self.chars[self.pos + k] != needle[k] {
                assert(self.text().subrange(self.pos as int, self.pos + needle@.len())[k as int]
                    != needle@[k as int]);
                return false;
            }
            k = k + 1;
        }
        assert(self.text().subrange(self.pos as int, self.pos + needle@.len()) =~= needle@);
        true
    }

    fn consume(&mut self, needle: &str) -> (r: bool)
        requires
            old(self).wf(),
        ensures
            final(self).text() == old(self).text(),
            final(self).wf(),
            r == occurs_at(old(self).text(), old(self).pos as int, needle@),
            final(self).pos == (if r {
                old(self).pos + needle@.len()
            } else {
                old(self).pos as int
            }),
    {
        let needle = vec_of(needle);
        if !self.starts_with(needle.as_slice()) {
            return false;
        }
        self.pos = self.pos + needle.len();
        true
    }

    fn next_is_quantifier(&self) -> (r: bool)
        ensures
            r == (self.pos < self.text().len() && is_quantifier_char(self.text()[self.pos as int])),
    {
        match self.peek() {
            Some(c) => c == '*' || c == '+' || c == '?' || c == '{',
            None => false,
        }
    }

    fn parse_literal(&mut self) -> (r: Vec<char>)
        requires
            old(self).wf(),
            old(self).pos < old(self).text().len(),
        ensures
            final(self).text() == old(self).text(),
            final(self).wf(),
            final(self).pos == literal_stop(old(self).text(), old(self).pos as int),
            r@ == literal_text(old(self).text().subrange(old(self).pos as int, final(self).pos as int)),
    {
        let start = self.pos;
        let mut literal: Vec<char> = Vec::new();
        let first = self.chars[start];
        if is_metachar(first) {
            self.pos = self.pos + 1;
            literal.push(first);
            assert(literal@ =~= self.text().subrange(start as int, self.pos as int));
            push_str(&mut literal, " matches the characters literally");
            return literal;
        }
        loop
            invariant
                self.text() == old(self).text(),
                self.wf(),
                start == old(self).pos,
                start < self.text().len(),
                !is_pattern_metachar(self.text()[start as int]),
                start <= self.pos <= self.text().len(),
                literal@ == self.text().subrange(start as int, self.pos as int),
                literal_end(self.text(), start as int) == literal_end(self.text(), self.pos as int),
            ensures
                literal_end(self.text(), start as int) == self.pos,
            decreases self.text().len() - self.pos,
        {
            let ch = match self.peek() {
                Some(ch) => ch,
                None => {
                    assert(literal_end(self.text(), self.pos as int) == self.pos);
                    break;
                },
            };
            if is_metachar(ch) {
                assert(literal_end(self.text(), self.pos as int) == self.pos);
                break;
            }
            let ghost before = self.pos;
            literal.push(ch);
            self.pos = self.pos + 1;
            assert(literal_end(self.text(), before as int) == literal_end(self.text(), self.pos as int));
            assert(literal@ =~= self.text().subrange(start as int, self.pos as int));
            if self.next_is_quantifier() {
                assert(literal_end(self.text(), self.pos as int) == self.pos);
                break;
            }
        }
        push_str(&mut literal, " matches the characters literally");
        literal
    }

    fn parse_class(&mut self) -> (r: Vec<char>)
        requires
            old(self).wf(),
            old(self).pos < old(self).text().len(),
        ensures
            final(self).text() == old(self).text(),
            final(self).wf(),
            final(self).pos == class_end(old(self).text(), old(self).pos + 1, false),
            r@ == class_text(old(self).text().subrange(old(self).pos as int, final(self).pos as int)),
    {
        let start = self.pos;
        self.pos = self.pos + 1;
        let mut escaped = false;
        let mut done = false;
        while !done
            invariant
                self.text() == old(self).text(),
                self.wf(),
                start == old(self).pos,
                start < self.pos <= self.text().len(),
                class_end(self.text(), start + 1, false) == (if done {
                    self.pos as int
                } else {
                    class_end(self.text(), self.pos as int, escaped)
                }),
            decreases self.text().len() - self.pos, (if done { 0int } else { 1int }),
        {
            match self.next() {
                Some(ch) => {
                    if escaped {
                        escaped = false;
                    } else if ch == '\\' {
                        escaped = true;
                    } else if ch == ']' {
                        done = true;
                    }
                },
                None => {
                    done = true;
                },
            }
        }
        let class = self.slice(start, self.pos);
        let negated = class.len() >= 2 && class[0] == '[' && class[1] == '^';
        let mut r = class;
        if negated {
            push_str(&mut r, " matches one character not present in the set");
        } else {
            push_str(&mut r, " matches one character present in the set");
        }
        r
    }

    fn parse_escape(&mut self) -> (r: Vec<char>)
        requires
            old(self).wf(),
            old(self).pos < old(self).text().len(),
        ensures
            final(self).text() == old(self).text(),
            final(self).wf(),
            (r@, final(self).pos as int) == escape_step(old(self).text(), old(self).pos as int),
    {
        self.pos = self.pos + 1;
        let ch = match self.next() {
            Some(ch) => ch,
            None => {
                return vec_of("\\ at the end of the pattern matches a literal backslash");
            },
        };
        if ch == 'd' {
            vec_of("\\d matches any digit, equivalent to [0-9]")
        } else if ch == 'D' {
            vec_of("\\D matches any non-digit character")
        } else if ch == 'w' {
            vec_of("\\w matches any word character")
        } else if ch == 'W' {
            vec_of("\\W matches any non-word character")
        } else if ch == 's' {
            vec_of("\\s matches any whitespace character")
        } else if ch == 'S' {
            vec_of("\\S matches any non-whitespace character")
        } else if ch == 'b' {
            vec_of("\\b asserts a word boundary")
        } else if ch == 'B' {
            vec_of("\\B asserts that the position is not a word boundary")
        } else if ch == 'A' {
            vec_of("\\A asserts the start of the string")
        } else if ch == 'z' {
            vec_of("\\z asserts the end of the string")
        } else if ch == 'n' {
            vec_of("\\n matches a newline character")
        } else if ch == 'r' {
            vec_of("\\r matches a carriage return character")
        } else if ch == 't' {
            vec_of("\\t matches a tab character")
        } else {
            let mut r = vec_of("\\");
            r.push(ch);
            push_str(&mut r, " matches the character \"");
            r.push(ch);
            push_str(&mut r, "\" literally or uses a regex escape");
            proof {
                assert(r@ =~= "\\"@ + seq![ch] + " matches the character \""@ + seq![ch]
                    + "\" literally or uses a regex escape"@);
            }
            r
        }
    }

    fn parse_count_quantifier(&mut self) -> (r: Vec<char>)
        requires
            old(self).wf(),
            old(self).pos < old(self).text().len(),
        ensures
            final(self).text() == old(self).text(),
            final(self).wf(),
            final(self).pos == count_end(old(self).text(), old(self).pos as int),
            r@ == count_text(old(self).text().subrange(old(self).pos as int, final(self).pos as int)),
    {
        let start = self.pos;
        self.pos = self.pos + 1;
        let mut done = false;
        let mut found = false;
        while !done
            invariant
                self.text() == old(self).text(),
                self.wf(),
                start == old(self).pos,
                start < self.pos <= self.text().len(),
                !done ==> find_from(self.text(), start + 1, '}') == find_from(
                    self.text(),
                    self.pos as int,
                    '}',
                ),
                found ==> done,
                done && found ==> find_from(self.text(), start + 1, '}') == self.pos - 1
                    && self.pos - 1 < self.text().len(),
                done && !found ==> find_from(self.text(), start + 1, '}') == self.text().len()
                    && self.pos == self.text().len(),
            decreases self.text().len() - self.pos, (if done { 0int } else { 1int }),
        {
            let ghost before = self.pos;
            match self.next() {
                Some(ch) => {
                    assert(find_from(self.text(), before as int, '}') == (if ch == '}' {
                        before as int
                    } else {
                        find_from(self.text(), self.pos as int, '}')
                    }));
                    if ch == '}' {
                        done = true;
                        found = true;
                    }
                },
                None => {
                    done = true;
                },
            }
        }
        let quantifier = self.slice(start, self.pos);
        count_wording(quantifier.as_slice())
    }

    fn parse_quantifier(&mut self) -> (r: Option<Vec<char>>)
        requires
            old(self).wf(),
        ensures
            final(self).text() == old(self).text(),
            final(self).wf(),
            final(self).pos == quantifier_step(old(self).text(), old(self).pos as int).1,
            match r {
                Some(q) => quantifier_step(old(self).text(), old(self).pos as int).0 == Some(q@),
                None => quantifier_step(old(self).text(), old(self).pos as int).0 == None::<Seq<char>>,
            },
    {
        let c = match self.peek() {
            Some(c) => c,
            None => return None,
        };
        let mut quantifier = if c == '*' {
            self.pos = self.pos + 1;
            vec_of("zero or more times")
        } else if c == '+' {
            self.pos = self.pos + 1;
            vec_of("one or more times")
        } else if c == '?' {
            self.pos = self.pos + 1;
            vec_of("zero or one time")
        } else if c == '{' {
            self.parse_count_quantifier()
        } else {
            return None;
        };
        assert(quantifier_base(self.text(), old(self).pos as int) == (
            Some(quantifier@),
            self.pos as int,
        ));
        let lazy = match self.peek() {
            Some(next) => next == '?',
            None => false,
        };
        if lazy {
            self.pos = self.pos + 1;
            push_str(&mut quantifier, ", as few times as possible");
        }
        Some(quantifier)
    }
    fn parse_group(&mut self, depth: usize) -> (r: Vec<char>)
        requires
            old(self).wf(),
            old(self).pos < old(self).text().len(),
            old(self).text()[old(self).pos as int] == '(',
            depth <= old(self).pos,
        ensures
            final(self).text() == old(self).text(),
            final(self).wf(),
            group_step(old(self).text(), old(self).pos as int, depth as nat) == Some(
                (r@, final(self).pos as int),
            ),
        decreases old(self).text().len() - old(self).pos, 0nat,
    {
        let ghost p = self.text();
        let ghost i = self.pos as int;
        self.pos = self.pos + 1;
        let (label, closed) = self.parse_group_head();
        proof {
            lemma_group_head_bounds(p, i);
        }
        if closed {
            return label;
        }
        let mut nested: Vec<Vec<char>> = Vec::new();
        self.explain_sequence(&mut nested, Some(')'), depth + 1);
        if nested.len() == 0 {
            label
        } else {
            join_with_label(label, &nested)
        }
    }

    /// The header of a group whose `(` was just consumed: its label and
    /// whether the header already closed the group.
    fn parse_group_head(&mut self) -> (r: (Vec<char>, bool))
        requires
            old(self).wf(),
            old(self).pos >= 1,
        ensures
            final(self).text() == old(self).text(),
            final(self).wf(),
            group_head(old(self).text(), old(self).pos - 1) == (r.0@, final(self).pos as int, r.1),
    {
        let ghost p = self.text();
        let ghost j = self.pos as int;
        proof {
            reveal_strlit("?P<");
            reveal_strlit("?:");
            reveal_strlit("?=");
            reveal_strlit("?!");
            reveal_strlit("?<=");
            reveal_strlit("?<!");
        }
        if self.consume("?P<") {
            let label = self.parse_group_name();
            (label, false)
        } else if self.consume("?:") {
            (vec_of("(?:...) groups tokens without creating a capture group"), false)
        } else if self.consume("?=") {
            (vec_of("(?=...) positive lookahead assertion"), false)
        } else if self.consume("?!") {
            (vec_of("(?!...) negative lookahead assertion"), false)
        } else if self.consume("?<=") {
            (vec_of("(?<=...) positive lookbehind assertion"), false)
        } else if self.consume("?<!") {
            (vec_of("(?<!...) negative lookbehind assertion"), false)
        } else if self.next_is_lazy_mark() {
            self.parse_group_flags()
        } else {
            (vec_of("(...) captures the matched text into a numbered group"), false)
        }
    }

    /// The label of a named group whose name starts at the cursor.
    fn parse_group_name(&mut self) -> (r: Vec<char>)
        requires
            old(self).wf(),
        ensures
            final(self).text() == old(self).text(),
            final(self).wf(),
            ({
                let p = old(self).text();
                let name_end = find_from(p, old(self).pos as int, '>');
                let name = p.subrange(old(self).pos as int, name_end);
                &&& r@ == "(?P<"@ + name + ">...) captures a match into the named group \""@ + name + "\""@
                &&& final(self).pos == (if name_end < p.len() { name_end + 1 } else { name_end })
            }),
    {
        let ghost p = self.text();
        let name_start = self.pos;
        loop
            invariant
                self.text() == p,
                p == old(self).text(),
                name_start == old(self).pos,
                self.wf(),
                name_start <= self.pos,
                find_from(p, name_start as int, '>') == find_from(p, self.pos as int, '>'),
            ensures
                find_from(p, name_start as int, '>') == self.pos,
                self.pos < p.len() ==> p[self.pos as int] == '>',
            decreases p.len() - self.pos,
        {
            match self.peek() {
                Some(ch) => {
                    if ch == '>' {
                        assert(find_from(p, self.pos as int, '>') == self.pos);
                        break;
                    }
                    self.pos = self.pos + 1;
                },
                None => break,
            }
        }
        let name = self.slice(name_start, self.pos);
        let closed = match self.peek() {
            Some(ch) => ch == '>',
            None => false,
        };
        if closed {
            self.pos = self.pos + 1;
        }
        let mut text = vec_of("(?P<");
        push_all(&mut text, name.as_slice());
        push_str(&mut text, ">...) captures a match into the named group \"");
        push_all(&mut text, name.as_slice());
        push_str(&mut text, "\"");
        text
    }

    /// The label of a flag group whose settings start at the cursor, and
    /// whether the settings already closed the group.
    fn parse_group_flags(&mut self) -> (r: (Vec<char>, bool))
        requires
            old(self).wf(),
        ensures
            final(self).text() == old(self).text(),
            final(self).wf(),
            ({
                let p = old(self).text();
                let j = old(self).pos as int;
                let stop = flag_stop(p, j);
                if stop < p.len() && p[stop] == ')' {
                    &&& r.0@ == "("@ + p.subrange(j, stop + 1) + "...) sets regex flags for the surrounding expression"@
                    &&& final(self).pos == stop + 1
                    &&& r.1
                } else {
                    let body = if stop < p.len() { stop + 1 } else { stop };
                    &&& r.0@ == "("@ + p.subrange(j, body) + "...) sets regex flags for this group"@
                    &&& final(self).pos == body
                    &&& !r.1
                }
            }),
    {
        let ghost p = self.text();
        let start = self.pos;
        loop
            invariant
                self.text() == p,
                p == old(self).text(),
                start == old(self).pos,
                self.wf(),
                start <= self.pos,
                flag_stop(p, start as int) == flag_stop(p, self.pos as int),
            ensures
                flag_stop(p, start as int) == self.pos,
            decreases p.len() - self.pos,
        {
            match self.peek() {
                Some(ch) => {
                    if ch == ':' || ch == ')' {
                        break;
                    }
                    self.pos = self.pos + 1;
                },
                None => break,
            }
        }
        match self.peek() {
            Some(ch) => {
                self.pos = self.pos + 1;
                if ch == ')' {
                    let mut text = vec_of("(");
                    let flags = self.slice(start, self.pos);
                    push_all(&mut text, flags.as_slice());
                    push_str(&mut text, "...) sets regex flags for the surrounding expression");
                    return (text, true);
                }
            },
            None => {},
        }
        let mut text = vec_of("(");
        let flags = self.slice(start, self.pos);
        push_all(&mut text, flags.as_slice());
        push_str(&mut text, "...) sets regex flags for this group");
        (text, false)
    }

    fn next_is_lazy_mark(&self) -> (r: bool)
        ensures
            r == (self.pos < self.text().len() && self.text()[self.pos as int] == '?'),
    {
        match self.peek() {
            Some(c) => c == '?',
            None => false,
        }
    }

    fn parse_atom(&mut self, depth: usize) -> (r: Vec<char>)
        requires
            old(self).wf(),
            old(self).pos < old(self).text().len(),
            depth <= old(self).pos,
        ensures
            final(self).text() == old(self).text(),
            final(self).wf(),
            atom_step(old(self).text(), old(self).pos as int, depth as nat) == Some(
                (r@, final(self).pos as int),
            ),
        decreases old(self).text().len() - old(self).pos, 1nat,
    {
        let c = self.chars[self.pos];
        if c == '^' {
            self.pos = self.pos + 1;
            vec_of("^ asserts position at the start of a line or string")
        } else if c == '$' {
            self.pos = self.pos + 1;
            vec_of("$ asserts position at the end of a line or string")
        } else if c == '.' {
            self.pos = self.pos + 1;
            vec_of(". matches any character except newline unless s is enabled")
        } else if c == '[' {
            self.parse_class()
        } else if c == '(' {
            self.parse_group(depth)
        } else if c == ')' {
            self.pos = self.pos + 1;
            vec_of(") closes the current group")
        } else if c == '\\' {
            self.parse_escape()
        } else if c == '*' || c == '+' || c == '?' || c == '{' {
            self.pos = self.pos + 1;
            let mut text: Vec<char> = Vec::new();
            text.push(c);
            push_str(&mut text, " is a quantifier without a previous token");
            text
        } else {
            self.parse_literal()
        }
    }

    /// Explains the entries up to `until` (consumed) or the end of the
    /// pattern into `out`.
    fn explain_sequence(&mut self, out: &mut Vec<Vec<char>>, until: Option<char>, depth: usize)
        requires
            old(self).wf(),
            depth <= old(self).pos,
        ensures
            final(self).text() == old(self).text(),
            final(self).wf(),
            sequence_step(old(self).text(), old(self).pos as int, until, depth as nat) matches Some((lines, k))
                && char_lines(final(out)@) == char_lines(old(out)@) + lines && final(self).pos == k,
        decreases old(self).text().len() - old(self).pos, 2nat,
    {
        proof {
            lemma_sequence_total(self.text(), self.pos as int, until, depth as nat);
        }
        let ghost p = self.text();
        let ghost i0 = self.pos as int;
        let ghost mut acc: Seq<Seq<char>> = seq![];
        loop
            invariant
                self.text() == p,
                p == old(self).text(),
                self.wf(),
                i0 <= self.pos,
                i0 == old(self).pos,
                depth <= i0,
                char_lines(out@) == char_lines(old(out)@) + acc,
                sequence_step(p, i0, until, depth as nat) == (match sequence_step(p, self.pos as int, until, depth as nat) {
                    Some((rest, k)) => Some((acc + rest, k)),
                    None => None,
                }),
            decreases p.len() - self.pos,
        {
            let ch = match self.peek() {
                Some(ch) => ch,
                None => {
                    assert(acc + seq![] =~= acc);
                    return;
                },
            };
            let at_end = match until {
                Some(u) => u == ch,
                None => false,
            };
            if at_end {
                self.pos = self.pos + 1;
                assert(acc + seq![] =~= acc);
                return;
            }
            let before = self.pos;
            if ch == '|' {
                self.pos = self.pos + 1;
                let branch = vec_of("| starts an alternative branch");
                push_lines(out, depth, branch.as_slice());
                proof {
                    let added = indented(split_lines("| starts an alternative branch"@), depth as nat);
                    assert(acc + added + seq![] =~= acc + (added + seq![]));
                    assert forall|rest: Seq<Seq<char>>| (acc + added) + rest =~= acc + (added + rest) by {}
                    acc = acc + added;
                }
                continue;
            }
            proof {
                lemma_atom_total(p, before as int, depth as nat);
            }
            let atom = self.parse_atom(depth);
            let after_atom = self.pos;
            proof {
                lemma_quantifier_step_bounds(p, after_atom as int);
            }
            let quantifier = self.parse_quantifier();
            let text = apply_quantifier(atom, quantifier);
            push_lines(out, depth, text.as_slice());
            proof {
                let added = indented(split_lines(text@), depth as nat);
                assert forall|rest: Seq<Seq<char>>| (acc + added) + rest =~= acc + (added + rest) by {}
                acc = acc + added;
            }
        }
    }

}


/// A group header ends after its `(` and within the pattern.
proof fn lemma_group_head_bounds(p: Seq<char>, i: int)
    requires
        0 <= i < p.len(),
    ensures
        i < group_head(p, i).1 <= p.len(),
{
    reveal_strlit("?P<");
    reveal_strlit("?:");
    reveal_strlit("?=");
    reveal_strlit("?!");
    reveal_strlit("?<=");
    reveal_strlit("?<!");
    lemma_find_from_bounds(p, i + 4, '>');
    lemma_flag_stop_bounds(p, i + 1);
}

/// A class ends after its start and within the pattern.
proof fn lemma_class_end_bounds(p: Seq<char>, i: int, escaped: bool)
    requires
        0 <= i <= p.len(),
    ensures
        i <= class_end(p, i, escaped) <= p.len(),
    decreases p.len() - i,
{
    if i < p.len() {
        if escaped {
            lemma_class_end_bounds(p, i + 1, false);
        } else if p[i] == '\\' {
            lemma_class_end_bounds(p, i + 1, true);
        } else if p[i] != ']' {
            lemma_class_end_bounds(p, i + 1, false);
        }
    }
}

/// A literal run ends at or after its start and within the pattern.
proof fn lemma_literal_end_bounds(p: Seq<char>, i: int)
    requires
        0 <= i <= p.len(),
    ensures
        i <= literal_end(p, i) <= p.len(),
    decreases p.len() - i,
{
    if i < p.len() && !is_pattern_metachar(p[i]) {
        lemma_literal_end_bounds(p, i + 1);
    }
}

/// Every entry consumes at least one character and stays within the
/// pattern.
proof fn lemma_atom_total(p: Seq<char>, i: int, depth: nat)
    requires
        0 <= i < p.len(),
    ensures
        atom_step(p, i, depth) matches Some((_, j)) && i < j <= p.len(),
    decreases p.len() - i, 1nat,
{
    let c = p[i];
    if c == '[' {
        lemma_class_end_bounds(p, i + 1, false);
    } else if c == '(' {
        lemma_group_total(p, i, depth);
    } else if c == '^' || c == '$' || c == '.' || c == ')' || c == '\\' || is_quantifier_char(c) {
    } else if !is_pattern_metachar(c) {
        lemma_literal_end_bounds(p, i + 1);
        assert(literal_end(p, i) == literal_end(p, i + 1));
    }
}

/// A group's explanation always ends, after its `(` and within the pattern.
proof fn lemma_group_total(p: Seq<char>, i: int, depth: nat)
    requires
        0 <= i < p.len(),
    ensures
        group_step(p, i, depth) matches Some((_, k)) && i < k <= p.len(),
    decreases p.len() - i, 0nat,
{
    lemma_group_head_bounds(p, i);
    let (label, body, closed) = group_head(p, i);
    if !closed {
        lemma_sequence_total(p, body, Some(')'), depth + 1);
    }
}

/// The walk over the entries from `i` always ends, at or after `i` and
/// within the pattern.
pub proof fn lemma_sequence_total(p: Seq<char>, i: int, until: Option<char>, depth: nat)
    requires
        0 <= i <= p.len(),
    ensures
        sequence_step(p, i, until, depth) matches Some((_, k)) && i <= k <= p.len(),
    decreases p.len() - i, 2nat,
{
    if i < p.len() && Some(p[i]) != until {
        if p[i] == '|' {
            lemma_sequence_total(p, i + 1, until, depth);
        } else {
            lemma_atom_total(p, i, depth);
            let j = atom_end(p, i, depth);
            lemma_quantifier_step_bounds(p, j);
            let k = quantifier_step(p, j).1;
            lemma_sequence_total(p, k, until, depth);
        }
    }
}

/// Every pattern has an explanation: the walk over it always ends.
pub proof fn law_explanation_total(p: Seq<char>)
    ensures
        explanation(p) is Some,
{
    if p.len() > 0 {
        lemma_sequence_total(p, 0, None, 0);
    }
}

/// `flag_stop` stays between its start and the end.
proof fn lemma_flag_stop_bounds(p: Seq<char>, i: int)
    requires
        0 <= i <= p.len(),
    ensures
        i <= flag_stop(p, i) <= p.len(),
    decreases p.len() - i,
{
    if i < p.len() && p[i] != ':' && p[i] != ')' {
        lemma_flag_stop_bounds(p, i + 1);
    }
}

/// The bounds of a quantifier step: it never moves back nor past the end.
proof fn lemma_quantifier_step_bounds(p: Seq<char>, i: int)
    requires
        0 <= i <= p.len(),
    ensures
        i <= quantifier_step(p, i).1 <= p.len(),
{
    lemma_find_from_bounds(p, i + 1, '}');
}

/// `find_from` stays between its start and the end.
proof fn lemma_find_from_bounds(p: Seq<char>, i: int, c: char)
    requires
        0 <= i,
    ensures
        i <= p.len() ==> i <= find_from(p, i, c) <= p.len(),
        i > p.len() ==> find_from(p, i, c) == p.len(),
    decreases p.len() - i,
{
    if i < p.len() && p[i] != c {
        lemma_find_from_bounds(p, i + 1, c);
    }
}

/// An entry's text followed by the wording of its quantifier.
fn apply_quantifier(atom: Vec<char>, quantifier: Option<Vec<char>>) -> (r: Vec<char>)
    ensures
        r@ == with_quantifier(atom@, match quantifier {
            Some(q) => Some(q@),
            None => None,
        }),
{
    match quantifier {
        Some(quantifier) => {
            let mut r = atom;
            push_str(&mut r, "; repeat the previous token ");
            push_all(&mut r, quantifier.as_slice());
            r
        },
        None => atom,
    }
}

/// The lines `label`, then `nested`, joined with newlines.
fn join_with_label(label: Vec<char>, nested: &Vec<Vec<char>>) -> (r: Vec<char>)
    ensures
        r@ == join_lines(seq![label@] + char_lines(nested@)),
{
    let ghost all = seq![label@] + char_lines(nested@);
    let mut r = label;
    let mut k: usize = 0;
    assert(all.take(1) =~= seq![all[0]]);
    while k < nested.len()
        invariant
            k <= nested@.len(),
            all == seq![label@] + char_lines(nested@),
            r@ == join_lines(all.take(k + 1)),
        decreases nested@.len() - k,
    {
        push_str(&mut r, "\n");
        push_all(&mut r, nested[k].as_slice());
        assert(all.take(k + 2).drop_last() =~= all.take(k + 1));
        assert(all.take(k + 2).last() == nested@[k as int]@);
        k = k + 1;
    }
    assert(all.take(nested@.len() + 1 as int) =~= all);
    r
}

/// The explanation of `pattern`, one entry per line: a prompt for an empty
/// pattern, otherwise at most `MAX_LINES` lines describing its anchors,
/// groups, classes, escapes, quantifiers and literals in order (a stray `]`
/// or `}` is explained as a literal of its own).
pub fn explain(pattern: &str) -> (r: Vec<String>)
    ensures
        explanation(pattern@) == Some(string_lines(r@)),
{
    if pattern.is_empty() {
        let lines = vec![string_from(vec_of("Enter a regex to see an explanation.").as_slice())];
        assert(string_lines(lines@) =~= seq!["Enter a regex to see an explanation."@]);
        return lines;
    }
    let mut parser = Parser::new(pattern);
    let mut out: Vec<Vec<char>> = Vec::new();
    parser.explain_sequence(&mut out, None, 0);
    out.truncate(MAX_LINES);
    let lines = strings_from(&out);
    proof {
        let (all, _) = sequence_step(pattern@, 0, None, 0)->0;
        assert(char_lines(out@) =~= capped(all));
    }
    lines
}

/// A group's explanation is never empty.
proof fn lemma_join_nonempty(lines: Seq<Seq<char>>)
    requires
        lines.len() > 0,
        lines[0].len() > 0,
    ensures
        join_lines(lines).len() > 0,
    decreases lines.len(),
{
    reveal_strlit("\n");
    if lines.len() > 1 {
        lemma_join_nonempty(lines.drop_last());
    }
}

/// Every entry's own text is non-empty.
proof fn lemma_atom_text_nonempty(p: Seq<char>, i: int, depth: nat)
    requires
        atom_step(p, i, depth) is Some,
    ensures
        atom_text(p, i, depth).len() > 0,
{
    reveal_strlit("^ asserts position at the start of a line or string");
    reveal_strlit("$ asserts position at the end of a line or string");
    reveal_strlit(". matches any character except newline unless s is enabled");
    reveal_strlit(" matches one character not present in the set");
    reveal_strlit(" matches one character present in the set");
    reveal_strlit(") closes the current group");
    reveal_strlit("\\ at the end of the pattern matches a literal backslash");
    reveal_strlit("\\d matches any digit, equivalent to [0-9]");
    reveal_strlit("\\D matches any non-digit character");
    reveal_strlit("\\w matches any word character");
    reveal_strlit("\\W matches any non-word character");
    reveal_strlit("\\s matches any whitespace character");
    reveal_strlit("\\S matches any non-whitespace character");
    reveal_strlit("\\b asserts a word boundary");
    reveal_strlit("\\B asserts that the position is not a word boundary");
    reveal_strlit("\\A asserts the start of the string");
    reveal_strlit("\\z asserts the end of the string");
    reveal_strlit("\\n matches a newline character");
    reveal_strlit("\\r matches a carriage return character");
    reveal_strlit("\\t matches a tab character");
    reveal_strlit("\\");
    reveal_strlit(" matches the characters literally");
    reveal_strlit("(?P<");
    reveal_strlit("(?:...) groups tokens without creating a capture group");
    reveal_strlit("(?=...) positive lookahead assertion");
    reveal_strlit("(?!...) negative lookahead assertion");
    reveal_strlit("(?<=...) positive lookbehind assertion");
    reveal_strlit("(?<!...) negative lookbehind assertion");
    reveal_strlit("(");
    reveal_strlit("(...) captures the matched text into a numbered group");
    let c = p[i];
    if c == '(' {
        let (label, body, closed) = group_head(p, i);
        assert(label.len() > 0);
        if !closed && i < body <= p.len() {
            match sequence_step(p, body, Some(')'), depth + 1) {
                Some((nested, k)) => {
                    if nested.len() > 0 {
                        lemma_join_nonempty(seq![label] + nested);
                    }
                },
                None => {},
            }
        }
    }
}

/// Every line of a finished walk is free of newlines.
proof fn lemma_sequence_lines_have_no_newline(p: Seq<char>, i: int, until: Option<char>, depth: nat)
    requires
        sequence_step(p, i, until, depth) is Some,
    ensures
        forall|k: int|
            0 <= k < walk_lines(p, i, until, depth).len() ==> !(
            #[trigger] walk_lines(p, i, until, depth)[k]).contains('\n'),
    decreases p.len() - i,
{
    if i < 0 || i >= p.len() {
    } else if Some(p[i]) == until {
    } else {
        let t = if p[i] == '|' {
            "| starts an alternative branch"@
        } else {
            let (atom, j) = (atom_text(p, i, depth), atom_end(p, i, depth));
            with_quantifier(atom, quantifier_step(p, j).0)
        };
        let next = if p[i] == '|' {
            i + 1
        } else {
            quantifier_step(p, atom_end(p, i, depth)).1
        };
        let added = indented(split_lines(t), depth);
        lemma_sequence_lines_have_no_newline(p, next, until, depth);
        lemma_lines_have_no_newline(t, seq![]);
        let all = walk_lines(p, i, until, depth);
        let rest = walk_lines(p, next, until, depth);
        assert(all == added + rest);
        assert forall|k: int| 0 <= k < all.len() implies !(#[trigger] all[k]).contains('\n') by {
            if k < added.len() {
                let line = split_lines(t)[k];
                assert(all[k] == indent(depth) + line);
                assert forall|m: int| 0 <= m < all[k].len() implies all[k][m] != '\n' by {
                    if m >= indent(depth).len() {
                        assert(all[k][m] == line[m - indent(depth).len()]);
                    }
                }
            } else {
                assert(all[k] == rest[k - added.len()]);
            }
        }
    }
}

/// A finished walk over a non-empty part of a pattern yields at least one line.
proof fn lemma_sequence_nonempty(p: Seq<char>, i: int, depth: nat)
    requires
        0 <= i < p.len(),
        sequence_step(p, i, None, depth) is Some,
    ensures
        walk_lines(p, i, None, depth).len() > 0,
{
    reveal_strlit("| starts an alternative branch");
    if p[i] == '|' {
        lemma_lines_nonempty("| starts an alternative branch"@, seq![]);
    } else {
        let (atom, j) = (atom_text(p, i, depth), atom_end(p, i, depth));
        lemma_atom_text_nonempty(p, i, depth);
        let t = with_quantifier(atom, quantifier_step(p, j).0);
        assert(t.len() > 0);
        lemma_lines_nonempty(t, seq![]);
    }
}

/// Law: every pattern has an explanation, of between one and `MAX_LINES`
/// lines, none of which holds a line break.
pub proof fn law_explanation_shape(p: Seq<char>)
    ensures
        explanation(p) is Some,
        1 <= explanation(p)->0.len() <= MAX_LINES,
        forall|k: int|
            0 <= k < explanation(p)->0.len() ==> !(#[trigger] explanation(p)->0[k]).contains('\n'),
{
    law_explanation_total(p);
    if p.len() == 0 {
        reveal_strlit("Enter a regex to see an explanation.");
        let prompt = "Enter a regex to see an explanation."@;
        assert forall|k: int| 0 <= k < explanation(p)->0.len() implies !(
        #[trigger] explanation(p)->0[k]).contains('\n') by {
            assert(explanation(p)->0[k] == prompt);
            assert forall|m: int| 0 <= m < prompt.len() implies prompt[m] != '\n' by {}
        }
    } else {
        lemma_sequence_nonempty(p, 0, 0);
        lemma_sequence_lines_have_no_newline(p, 0, None, 0);
        let all = walk_lines(p, 0, None, 0);
        assert forall|k: int| 0 <= k < explanation(p)->0.len() implies !(
        #[trigger] explanation(p)->0[k]).contains('\n') by {
            assert(explanation(p)->0[k] == all[k]);
        }
    }
}

/// A run without metacharacters is one literal run.
proof fn lemma_literal_end_plain(p: Seq<char>, i: int)
    requires
        0 <= i <= p.len(),
        forall|k: int| 0 <= k < p.len() ==> !is_pattern_metachar(#[trigger] p[k]),
    ensures
        literal_end(p, i) == p.len(),
    decreases p.len() - i,
{
    if i < p.len() {
        lemma_literal_end_plain(p, i + 1);
    }
}

/// Law: a pattern made of plain characters (no metacharacters, no line
/// breaks) is explained as a single literal run on a single line.
pub proof fn law_plain_word_is_one_literal(w: Seq<char>)
    requires
        w.len() > 0,
        forall|k: int| 0 <= k < w.len() ==> !is_pattern_metachar(#[trigger] w[k]) && w[k] != '\n',
    ensures
        explanation(w) == Some(seq![w + " matches the characters literally"@]),
{
    reveal_strlit(" matches the characters literally");
    lemma_literal_end_plain(w, 0);
    assert(w.subrange(0, w.len() as int) =~= w);
    let t = literal_text(w);
    assert(!t.contains('\n')) by {
        assert forall|m: int| 0 <= m < t.len() implies t[m] != '\n' by {
            if m < w.len() {
                assert(t[m] == w[m]);
            }
        }
    }
    lemma_single_line(t, seq![]);
    assert(seq![] + t =~= t);
    assert(indent(0) =~= seq![]);
    assert(indented(seq![t], 0) =~= seq![t]);
    assert(walk_lines(w, w.len() as int, None, 0) =~= seq![]);
    assert(seq![t] + seq![] =~= seq![t]);
    assert(!is_pattern_metachar(w[0]));
    assert(atom_step(w, 0, 0) == Some((t, w.len() as int)));
    assert(quantifier_step(w, w.len() as int).0 is None);
    assert(with_quantifier(t, quantifier_step(w, w.len() as int).0) == t);
    assert(split_lines(t) == seq![t]);
    assert(walk_lines(w, 0, None, 0) =~= seq![t]);
    assert(capped(seq![t]) == seq![t]);
}

/// Whether `c` is a decimal digit.
pub open spec fn is_digit(c: char) -> bool {
    0x30 <= (c as u32) <= 0x39
}

/// `find_from` stops at the first `c`.
proof fn lemma_find_from_at(p: Seq<char>, i: int, c: char, e: int)
    requires
        0 <= i <= e < p.len(),
        p[e] == c,
        forall|k: int| i <= k < e ==> #[trigger] p[k] != c,
    ensures
        find_from(p, i, c) == e,
    decreases e - i,
{
    if i < e {
        lemma_find_from_at(p, i + 1, c, e);
    }
}

/// A literal run stops at the first metacharacter.
proof fn lemma_literal_end_at(p: Seq<char>, i: int, e: int)
    requires
        0 <= i <= e < p.len(),
        is_pattern_metachar(p[e]),
        forall|k: int| i <= k < e ==> !is_pattern_metachar(#[trigger] p[k]),
    ensures
        literal_end(p, i) == e,
    decreases e - i,
{
    if i < e {
        lemma_literal_end_at(p, i + 1, e);
    }
}

/// Joining two texts without line breaks gives a text without line breaks.
proof fn lemma_concat_no_newline(a: Seq<char>, b: Seq<char>)
    requires
        !a.contains('\n'),
        !b.contains('\n'),
    ensures
        !(a + b).contains('\n'),
{
    assert forall|m: int| 0 <= m < (a + b).len() implies (a + b)[m] != '\n' by {
        if m < a.len() {
            assert((a + b)[m] == a[m]);
            assert(a.contains(a[m]));
        } else {
            assert((a + b)[m] == b[m - a.len()]);
            assert(b.contains(b[m - a.len()]));
        }
    }
}

/// Quantifier law: the counted quantifier `{n,}` reads "at least n times".
pub proof fn law_count_at_least(n: Seq<char>)
    requires
        n.len() > 0,
        forall|k: int| 0 <= k < n.len() ==> is_digit(#[trigger] n[k]),
    ensures
        count_text("{"@ + n + ",}"@) == "at least "@ + n + " times"@,
{
    reveal_strlit("{");
    reveal_strlit(",}");
    let q = "{"@ + n + ",}"@;
    assert(q[0] == '{');
    assert(q.drop_first() =~= n + ",}"@);
    assert(n[0] != '{') by {
        assert(is_digit(n[0]));
    }
    let a = n + ",}"@;
    assert(a[0] == n[0]);
    assert(trim_start_char(q.drop_first(), '{') == a);
    assert(trim_start_char(q, '{') == a);
    assert(a.last() == '}');
    assert(a.drop_last() =~= n + ","@) by {
        reveal_strlit(",");
    }
    let b = n + ","@;
    reveal_strlit(",");
    assert(b.last() == ',');
    assert(trim_end_char(b, '}') == b);
    assert(trim_end_char(a, '}') == b);
    assert forall|k: int| 0 <= k < n.len() implies #[trigger] b[k] != ',' by {
        assert(b[k] == n[k]);
        assert(is_digit(n[k]));
    }
    lemma_find_from_at(b, 0, ',', n.len() as int);
    assert(b.subrange(0, n.len() as int) =~= n);
    assert(b.subrange(n.len() as int + 1, b.len() as int).len() == 0);
}

/// Quantifier law: the counted quantifier `{n}` reads "exactly n times".
pub proof fn law_count_exactly(n: Seq<char>)
    requires
        n.len() > 0,
        forall|k: int| 0 <= k < n.len() ==> is_digit(#[trigger] n[k]),
    ensures
        count_text("{"@ + n + "}"@) == "exactly "@ + n + " times"@,
{
    reveal_strlit("{");
    reveal_strlit("}");
    let q = "{"@ + n + "}"@;
    assert(n[0] != '{' && n[0] != '}') by {
        assert(is_digit(n[0]));
    }
    assert(n.last() != '}') by {
        assert(is_digit(n[n.len() - 1]));
    }
    let a = n + "}"@;
    assert(q[0] == '{');
    assert(q.drop_first() =~= a);
    assert(a[0] == n[0]);
    assert(trim_start_char(q.drop_first(), '{') == a);
    assert(trim_start_char(q, '{') == a);
    assert(a.drop_last() =~= n);
    assert(trim_end_char(n, '}') == n);
    assert(trim_end_char(a, '}') == n);
    assert forall|k: int| 0 <= k < n.len() implies #[trigger] n[k] != ',' by {
        assert(is_digit(n[k]));
    }
    lemma_find_from_absent(n, 0, ',');
    assert(trim_start_braces(q.drop_first()) == a);
    assert(trim_start_braces(q) == a);
    assert(trim_end_braces(n) == n);
    assert(trim_end_braces(a) == n);
}

/// `find_from` reaches the end when `c` does not occur from `i` on.
proof fn lemma_find_from_absent(p: Seq<char>, i: int, c: char)
    requires
        0 <= i <= p.len(),
        forall|k: int| i <= k < p.len() ==> #[trigger] p[k] != c,
    ensures
        find_from(p, i, c) == p.len(),
    decreases p.len() - i,
{
    if i < p.len() {
        lemma_find_from_absent(p, i + 1, c);
    }
}

/// Quantifier law: the counted quantifier `{m,n}` reads "between m and n
/// times", and `{,n}` reads "between zero and n times".
pub proof fn law_count_between(lo: Seq<char>, hi: Seq<char>)
    requires
        hi.len() > 0,
        forall|k: int| 0 <= k < lo.len() ==> is_digit(#[trigger] lo[k]),
        forall|k: int| 0 <= k < hi.len() ==> is_digit(#[trigger] hi[k]),
    ensures
        lo.len() > 0 ==> count_text("{"@ + lo + ","@ + hi + "}"@) == "between "@ + lo + " and "@ + hi
            + " times"@,
        lo.len() == 0 ==> count_text("{"@ + lo + ","@ + hi + "}"@) == "between zero and "@ + hi
            + " times"@,
{
    reveal_strlit("{");
    reveal_strlit("}");
    reveal_strlit(",");
    let q = "{"@ + lo + ","@ + hi + "}"@;
    let a = lo + ","@ + hi + "}"@;
    let b = lo + ","@ + hi;
    assert(q[0] == '{');
    assert(q.drop_first() =~= a);
    assert(a[0] != '{') by {
        if lo.len() > 0 {
            assert(a[0] == lo[0]);
            assert(is_digit(lo[0]));
        } else {
            assert(a[0] == ',');
        }
    }
    assert(trim_start_char(q.drop_first(), '{') == a);
    assert(trim_start_char(q, '{') == a);
    assert(a.drop_last() =~= b);
    assert(b.last() == hi.last());
    assert(b.last() != '}') by {
        assert(is_digit(hi[hi.len() - 1]));
    }
    assert(trim_end_char(b, '}') == b);
    assert(trim_end_char(a, '}') == b);
    let l = lo.len() as int;
    assert(b[l] == ',');
    assert forall|k: int| 0 <= k < l implies #[trigger] b[k] != ',' by {
        assert(b[k] == lo[k]);
        assert(is_digit(lo[k]));
    }
    lemma_find_from_at(b, 0, ',', l);
    assert(b.subrange(0, l) =~= lo);
    assert(b.subrange(l + 1, b.len() as int) =~= hi);
}

/// Quantifier law: a plain word followed by `{n,}` is explained as the word
/// matched literally, repeated at least `n` times.
pub proof fn law_word_repeated_at_least(w: Seq<char>, n: Seq<char>)
    requires
        w.len() > 0,
        forall|k: int| 0 <= k < w.len() ==> !is_pattern_metachar(#[trigger] w[k]) && w[k] != '\n',
        n.len() > 0,
        forall|k: int| 0 <= k < n.len() ==> is_digit(#[trigger] n[k]),
    ensures
        explanation(w + "{"@ + n + ",}"@) == Some(
            seq![
                w + " matches the characters literally"@ + "; repeat the previous token "@ + "at least "@
                    + n + " times"@,
            ],
        ),
{
    reveal_strlit("{");
    reveal_strlit(",}");
    reveal_strlit(" matches the characters literally");
    reveal_strlit("; repeat the previous token ");
    reveal_strlit("at least ");
    reveal_strlit(" times");
    let p = w + "{"@ + n + ",}"@;
    let l = w.len() as int;
    let e = p.len() as int;
    assert(e == l + n.len() + 3);
    assert(p[l] == '{');
    assert(p[e - 1] == '}');
    assert(p[e - 2] == ',');
    assert forall|k: int| 0 <= k < l implies !is_pattern_metachar(#[trigger] p[k]) by {
        assert(p[k] == w[k]);
    }
    lemma_literal_end_at(p, 0, l);
    assert(p.subrange(0, l) =~= w);
    let atom = literal_text(w);
    assert(!is_pattern_metachar(p[0]));
    assert(atom_step(p, 0, 0) == Some((atom, l)));
    assert forall|k: int| l + 1 <= k < e - 1 implies #[trigger] p[k] != '}' by {
        if k < e - 2 {
            assert(p[k] == n[k - l - 1]);
            assert(is_digit(n[k - l - 1]));
        }
    }
    lemma_find_from_at(p, l + 1, '}', e - 1);
    assert(count_end(p, l) == e);
    assert(p.subrange(l, e) =~= "{"@ + n + ",}"@);
    law_count_at_least(n);
    let q = "at least "@ + n + " times"@;
    assert(quantifier_base(p, l) == (Some(q), e));
    assert(quantifier_step(p, l) == (Some(q), e));
    assert(sequence_step(p, e, None, 0) == Some((Seq::<Seq<char>>::empty(), e)));
    let t = with_quantifier(atom, Some(q));
    assert(t == w + " matches the characters literally"@ + "; repeat the previous token "@ + q);
    assert(!t.contains('\n')) by {
        let s1 = " matches the characters literally"@;
        let s2 = "; repeat the previous token "@;
        let s3 = "at least "@;
        let s4 = " times"@;
        assert(!w.contains('\n')) by {
            assert forall|m: int| 0 <= m < w.len() implies w[m] != '\n' by {}
        }
        assert(!n.contains('\n')) by {
            assert forall|m: int| 0 <= m < n.len() implies n[m] != '\n' by {
                assert(is_digit(n[m]));
            }
        }
        assert(!s1.contains('\n')) by {
            assert forall|m: int| 0 <= m < s1.len() implies s1[m] != '\n' by {}
        }
        assert(!s2.contains('\n')) by {
            assert forall|m: int| 0 <= m < s2.len() implies s2[m] != '\n' by {}
        }
        assert(!s3.contains('\n')) by {
            assert forall|m: int| 0 <= m < s3.len() implies s3[m] != '\n' by {}
        }
        assert(!s4.contains('\n')) by {
            assert forall|m: int| 0 <= m < s4.len() implies s4[m] != '\n' by {}
        }
        lemma_concat_no_newline(w, s1);
        lemma_concat_no_newline(w + s1, s2);
        lemma_concat_no_newline(s3, n);
        lemma_concat_no_newline(s3 + n, s4);
        lemma_concat_no_newline(w + s1 + s2, s3 + n + s4);
        assert(w + s1 + s2 + (s3 + n + s4) =~= t);
    }
    lemma_single_line(t, seq![]);
    assert(seq![] + t =~= t);
    assert(split_lines(t) == seq![t]);
    assert(indent(0) =~= seq![]);
    assert(indented(seq![t], 0) =~= seq![t]);
    assert(seq![t] + Seq::<Seq<char>>::empty() =~= seq![t]);
    assert(!(Some(p[0]) == None::<char>));
    assert(p[0] != '|');
    assert(sequence_step(p, 0, None, 0) == Some((seq![t], e)));
    assert(capped(seq![t]) == seq![t]);
    assert(t =~= w + " matches the characters literally"@ + "; repeat the previous token "@ + "at least "@ + n + " times"@);
}

} // verus!
