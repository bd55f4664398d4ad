//! Regex compilation with toggleable flags, capture group listings and the
//! highlighting plan of a line.
//!
//! Compiling and matching are done by the `regex` crate. What it returns is
//! named here (`regex_build_error`, `regex_group_names`, `regex_captures`):
//! each is a function of the pattern, the flags and, for matches, the
//! haystack alone. Everything built on top of those results is verified.

use vstd::prelude::*;
use vstd::string::StringSliceAdditionalSpecFns;
use vstd::utf8::{decode_utf8, encode_utf8, is_char_boundary, valid_utf8};

use crate::text::{
    decimal, push_decimal, push_str, string_from, string_lines, vec_of,
};

verus! {

/// The regex syntax flags that can be toggled.
#[derive(Clone, Copy, Default)]
pub struct RegexFlags {
    pub case_insensitive: bool,
    pub multi_line: bool,
    pub dot_matches_new_line: bool,
}

/// `"on"` or `"off"`.
pub open spec fn flag_word(enabled: bool) -> Seq<char> {
    if enabled {
        "on"@
    } else {
        "off"@
    }
}

/// The one-line summary of a set of flags.
pub open spec fn flags_label(f: RegexFlags) -> Seq<char> {
    "i:"@ + flag_word(f.case_insensitive) + " m:"@ + flag_word(f.multi_line) + " s:"@ + flag_word(
        f.dot_matches_new_line,
    )
}

impl RegexFlags {
    /// Flips case-insensitive matching, leaving the other flags alone.
    pub fn toggle_case_insensitive(&mut self)
        ensures
            final(self).case_insensitive == !old(self).case_insensitive,
            final(self).multi_line == old(self).multi_line,
            final(self).dot_matches_new_line == old(self).dot_matches_new_line,
    {
        self.case_insensitive = !self.case_insensitive;
    }

    /// Flips multi-line mode, leaving the other flags alone.
    pub fn toggle_multi_line(&mut self)
        ensures
            final(self).case_insensitive == old(self).case_insensitive,
            final(self).multi_line == !old(self).multi_line,
            final(self).dot_matches_new_line == old(self).dot_matches_new_line,
    {
        self.multi_line = !self.multi_line;
    }

    /// Flips whether `.` matches a newline, leaving the other flags alone.
    pub fn toggle_dot_matches_new_line(&mut self)
        ensures
            final(self).case_insensitive == old(self).case_insensitive,
            final(self).multi_line == old(self).multi_line,
            final(self).dot_matches_new_line == !old(self).dot_matches_new_line,
    {
        self.dot_matches_new_line = !self.dot_matches_new_line;
    }

    /// A summary such as `i:on m:off s:off`.
    pub fn label(self) -> (r: String)
        ensures
            r@ == flags_label(self),
    {
        let mut text = vec_of("i:");
        push_str(&mut text, flag_state(self.case_insensitive));
        push_str(&mut text, " m:");
        push_str(&mut text, flag_state(self.multi_line));
        push_str(&mut text, " s:");
        push_str(&mut text, flag_state(self.dot_matches_new_line));
        string_from(text.as_slice())
    }
}

/// `"on"` for an enabled flag, `"off"` otherwise.
pub fn flag_state(enabled: bool) -> (r: &'static str)
    ensures
        r@ == flag_word(enabled),
{
    if enabled {
        "on"
    } else {
        "off"
    }
}

/// The compiled regex type of the `regex` crate.
#[verifier::external_type_specification]
#[verifier::external_body]
pub struct ExRegex(regex::Regex);

/// The message that building `pattern` with the given flags fails with, or
/// `None` when it builds (`RegexBuilder::build`).
pub uninterp spec fn regex_build_error(
    pattern: Seq<char>,
    case_insensitive: bool,
    multi_line: bool,
    dot_matches_new_line: bool,
) -> Option<Seq<char>>;

/// The capture group names of `pattern` built with the given flags, in the
/// order of their opening parentheses, the whole match first
/// (`Regex::capture_names`).
pub uninterp spec fn regex_group_names(
    pattern: Seq<char>,
    case_insensitive: bool,
    multi_line: bool,
    dot_matches_new_line: bool,
) -> Seq<Option<Seq<char>>>;

/// The successive non-overlapping matches of `pattern` built with the given
/// flags in `haystack`, each with the byte range and text of every capture
/// group that took part (`Regex::captures_iter`).
pub uninterp spec fn regex_captures(
    pattern: Seq<char>,
    case_insensitive: bool,
    multi_line: bool,
    dot_matches_new_line: bool,
    haystack: Seq<char>,
) -> Seq<Seq<Option<(usize, usize, Seq<char>)>>>;

/// A copy of a compiled regex (`Clone` for `regex::Regex`); nothing is
/// stated of it, the copy being as opaque as the original.
pub assume_specification[ <regex::Regex as Clone>::clone ](re: &regex::Regex) -> regex::Regex;

/// A regex together with the pattern and flags it was built from.
pub struct CompiledRegex {
    pattern: String,
    flags: RegexFlags,
    inner: regex::Regex,
}

/// The message of a pattern that does not build.
pub struct RegexError {
    pub message: String,
}

impl CompiledRegex {
    /// The pattern this regex was built from.
    pub closed spec fn source(&self) -> Seq<char> {
        self.pattern@
    }

    /// The flags this regex was built with.
    pub closed spec fn built_flags(&self) -> RegexFlags {
        self.flags
    }

    /// The capture group names of this regex.
    pub open spec fn names(&self) -> Seq<Option<Seq<char>>> {
        let f = self.built_flags();
        regex_group_names(self.source(), f.case_insensitive, f.multi_line, f.dot_matches_new_line)
    }

    /// The matches of this regex in `haystack`.
    pub open spec fn matches_in(&self, haystack: Seq<char>) -> Seq<
        Seq<Option<(usize, usize, Seq<char>)>>,
    > {
        let f = self.built_flags();
        regex_captures(
            self.source(),
            f.case_insensitive,
            f.multi_line,
            f.dot_matches_new_line,
            haystack,
        )
    }

    /// A copy of this regex, built from the same pattern and flags.
    pub fn duplicate(&self) -> (r: CompiledRegex)
        ensures
            r.source() == self.source(),
            r.built_flags() == self.built_flags(),
    {
        CompiledRegex { pattern: self.pattern.clone(), flags: self.flags, inner: self.inner.clone() }
    }

    /// The pattern this regex was built from.
    pub fn pattern(&self) -> (r: &str)
        ensures
            r@ == self.source(),
    {
        self.pattern.as_str()
    }

    /// The flags this regex was built with.
    pub fn flags(&self) -> (r: RegexFlags)
        ensures
            r == self.built_flags(),
    {
        self.flags
    }
}

/// One capture group's part of a match: its byte range and text.
#[derive(Clone)]
pub struct GroupMatch {
    pub start: usize,
    pub end: usize,
    pub text: String,
}

/// The plain view of an optional group match.
pub open spec fn group_view(g: Option<GroupMatch>) -> Option<(usize, usize, Seq<char>)> {
    match g {
        Some(m) => Some((m.start, m.end, m.text@)),
        None => None,
    }
}

/// The plain view of the matches of a regex.
pub open spec fn matches_view(m: Seq<Vec<Option<GroupMatch>>>) -> Seq<
    Seq<Option<(usize, usize, Seq<char>)>>,
> {
    m.map_values(|c: Vec<Option<GroupMatch>>| c@.map_values(|g: Option<GroupMatch>| group_view(g)))
}

/// Builds `pattern` with the given flags (`RegexBuilder::build`). The result
/// is a regex exactly when `regex_build_error` names no error, and an error
/// carries the message it names.
#[verifier::external_body]
fn build_regex(pattern: &str, flags: RegexFlags) -> (r: Result<CompiledRegex, String>)
    ensures
        match r {
            Ok(re) => regex_build_error(
                pattern@,
                flags.case_insensitive,
                flags.multi_line,
                flags.dot_matches_new_line,
            ) is None && re.source() == pattern@ && re.built_flags() == flags,
            Err(message) => regex_build_error(
                pattern@,
                flags.case_insensitive,
                flags.multi_line,
                flags.dot_matches_new_line,
            ) == Some(message@),
        },
{
    let built = regex::RegexBuilder::new(pattern)
        .case_insensitive(flags.case_insensitive)
        .multi_line(flags.multi_line)
        .dot_matches_new_line(flags.dot_matches_new_line)
        .build();
    match built {
        Ok(built) => Ok(CompiledRegex { pattern: pattern.to_string(), flags, inner: built }),
        Err(error) => Err(error.to_string()),
    }
}

/// The capture group names of `re` (`Regex::capture_names`): as many as the
/// regex has groups, the first (the whole match) always unnamed.
#[verifier::external_body]
pub fn capture_names(re: &CompiledRegex) -> (r: Vec<Option<String>>)
    ensures
        r@.len() == regex_group_names(
            re.source(),
            re.built_flags().case_insensitive,
            re.built_flags().multi_line,
            re.built_flags().dot_matches_new_line,
        ).len(),
        forall|k: int|
            0 <= k < r@.len() ==> match #[trigger] r@[k] {
                Some(name) => re.names()[k] == Some(name@),
                None => re.names()[k] is None,
            },
        r@.len() >= 1,
        r@[0] is None,
{
    let mut names = Vec::new();
    for name in re.inner.capture_names() {
        names.push(name.map(str::to_string));
    }
    names
}

/// Whether `start..end` is a range of `b` that begins and ends on character
/// boundaries.
pub open spec fn char_range(b: Seq<u8>, start: int, end: int) -> bool {
    0 <= start <= end <= b.len() && is_char_boundary(b, start) && is_char_boundary(b, end)
}

/// Whether the group match `g`, if there is one, lies in the text encoded as
/// `b` on character boundaries and holds the text between them.
pub open spec fn group_within(g: Option<GroupMatch>, b: Seq<u8>) -> bool {
    match g {
        Some(m) => char_range(b, m.start as int, m.end as int) && encode_utf8(m.text@) == b.subrange(
            m.start as int,
            m.end as int,
        ),
        None => true,
    }
}

/// The successive matches of `re` in `haystack` (`Regex::captures_iter`),
/// each listing every capture group, the whole match first and always
/// present, with its byte range and text: the range lies in the haystack,
/// starts and ends on character boundaries (start not after end), and the
/// text is the part of the haystack it spans.
#[verifier::external_body]
pub fn captures_in(re: &CompiledRegex, haystack: &str) -> (r: Vec<Vec<Option<GroupMatch>>>)
    ensures
        matches_view(r@) == regex_captures(
            re.source(),
            re.built_flags().case_insensitive,
            re.built_flags().multi_line,
            re.built_flags().dot_matches_new_line,
            haystack@,
        ),
        forall|k: int|
            0 <= k < r@.len() ==> (#[trigger] r@[k])@.len() >= 1 && r@[k]@[0] is Some,
        forall|k: int, g: int|
            0 <= k < r@.len() && 0 <= g < r@[k]@.len() ==> match #[trigger] r@[k]@[g] {
                Some(m) => m.start <= m.end,
                None => true,
            },
        forall|k: int, g: int|
            0 <= k < r@.len() && 0 <= g < r@[k]@.len() ==> group_within(
                #[trigger] r@[k]@[g],
                haystack.spec_bytes(),
            ),
{
    let mut out = Vec::new();
    for caps in re.inner.captures_iter(haystack) {
        let mut groups = Vec::new();
        for group in caps.iter() {
            groups.push(match group {
                Some(m) => Some(GroupMatch { start: m.start(), end: m.end(), text: m.as_str().to_string() }),
                None => None,
            });
        }
        out.push(groups);
    }
    out
}

/// Builds `pattern` with `flags`; an invalid pattern (or one over the size
/// limits) gives the message of the failure.
pub fn compile_regex(pattern: &str, flags: RegexFlags) -> (r: Result<CompiledRegex, RegexError>)
    ensures
        match r {
            Ok(re) => regex_build_error(
                pattern@,
                flags.case_insensitive,
                flags.multi_line,
                flags.dot_matches_new_line,
            ) is None && re.source() == pattern@ && re.built_flags() == flags,
            Err(e) => regex_build_error(
                pattern@,
                flags.case_insensitive,
                flags.multi_line,
                flags.dot_matches_new_line,
            ) == Some(e.message@),
        },
{
    match build_regex(pattern, flags) {
        Ok(re) => Ok(re),
        Err(message) => Err(RegexError { message }),
    }
}

/// The listing line of capture group `idx` with the given name.
pub open spec fn capture_line(idx: nat, name: Option<Seq<char>>) -> Seq<char> {
    match name {
        Some(name) => decimal(idx) + ": (?P<"@ + name + ">)"@,
        None => decimal(idx) + ": <unnamed>"@,
    }
}

/// One line per capture group of `re`: its index, then its name in
/// `(?P<name>)` form or `<unnamed>`.
pub fn capture_descriptions(re: &CompiledRegex) -> (r: Vec<String>)
    ensures
        string_lines(r@) == Seq::new(re.names().len(), |k: int| capture_line(k as nat, re.names()[k])),
{
    let names = capture_names(re);
    let mut out: Vec<String> = Vec::new();
    let mut idx: usize = 0;
    while idx < names.len()
        invariant
            idx <= names@.len(),
            names@.len() == re.names().len(),
            forall|k: int|
                0 <= k < names@.len() ==> match #[trigger] names@[k] {
                    Some(name) => re.names()[k] == Some(name@),
                    None => re.names()[k] is None,
                },
            out@.len() == idx,
            forall|k: int| 0 <= k < idx ==> (#[trigger] out@[k])@ == capture_line(k as nat, re.names()[k]),
        decreases names@.len() - idx,
    {
        let mut line: Vec<char> = Vec::new();
        push_decimal(&mut line, idx as u64);
        match &names[idx] {
            Some(name) => {
                push_str(&mut line, ": (?P<");
                push_str(&mut line, name.as_str());
                push_str(&mut line, ">)");
            },
            None => {
                push_str(&mut line, ": <unnamed>");
            },
        }
        out.push(string_from(line.as_slice()));
        idx = idx + 1;
    }
    assert(string_lines(out@) =~= Seq::new(re.names().len(), |k: int| capture_line(k as nat, re.names()[k])));
    out
}

/// The largest character boundary of `b` that is at most `m` (zero when
/// there is none).
pub open spec fn boundary_at_most(b: Seq<u8>, m: int) -> int
    decreases m,
{
    if m <= 0 {
        0
    } else if is_char_boundary(b, m) {
        m
    } else {
        boundary_at_most(b, m - 1)
    }
}

/// Where the visible part of a line encoded as `b` ends when at most
/// `max_bytes` bytes are shown: the whole line if it fits, otherwise the
/// last character boundary within the limit.
pub open spec fn visible_end(b: Seq<u8>, max_bytes: int) -> int {
    if b.len() <= max_bytes {
        b.len() as int
    } else {
        boundary_at_most(b, max_bytes)
    }
}

/// The visible characters of `line` when at most `max_bytes` bytes are shown.
pub open spec fn visible_text(line: Seq<char>, max_bytes: int) -> Seq<char> {
    decode_utf8(encode_utf8(line).subrange(0, visible_end(encode_utf8(line), max_bytes)))
}

/// `boundary_at_most` stays between zero and its bound.
proof fn lemma_boundary_at_most_bounds(b: Seq<u8>, m: int)
    ensures
        0 <= boundary_at_most(b, m),
        m >= 0 ==> boundary_at_most(b, m) <= m,
    decreases m,
{
    if m > 0 && !is_char_boundary(b, m) {
        lemma_boundary_at_most_bounds(b, m - 1);
    }
}

/// The longest prefix of `text` that fits in `max_bytes` bytes without
/// splitting a character.
pub fn truncate_char_boundary(text: &str, max_bytes: usize) -> (r: &str)
    ensures
        r.spec_bytes() == text.spec_bytes().subrange(
            0,
            visible_end(text.spec_bytes(), max_bytes as int),
        ),
        r@ == visible_text(text@, max_bytes as int),
        is_char_boundary(text.spec_bytes(), r.spec_bytes().len() as int),
{
    broadcast use vstd::utf8::encode_utf8_valid_utf8, vstd::utf8::is_char_boundary_start_end_of_seq;
    broadcast use vstd::utf8::encode_utf8_decode_utf8;

    let ghost b = text.spec_bytes();
    let n = text.as_bytes().len();
    if n <= max_bytes {
        assert(n == b.len());
        assert(b.subrange(0, b.len() as int) =~= b);
        assert(visible_end(b, max_bytes as int) == b.len());
        assert(decode_utf8(encode_utf8(text@)) == text@);
        assert(is_char_boundary(b, b.len() as int));
        return text;
    }
    let mut end = max_bytes;
    while end > 0 && !text.is_char_boundary(end)
        invariant
            end <= max_bytes,
            b == text.spec_bytes(),
            boundary_at_most(b, max_bytes as int) == boundary_at_most(b, end as int),
        decreases end,
    {
        end = end - 1;
    }
    assert(is_char_boundary(b, 0));
    assert(is_char_boundary(b, end as int));
    let (head, _) = text.split_at(end);
    assert(head@ == decode_utf8(encode_utf8(head@)));
    head
}

/// A byte range of a line that a capture group matched.
#[derive(Clone, Copy)]
pub struct GroupRange {
    pub start: usize,
    pub end: usize,
    pub group_index: usize,
}

/// The non-empty ranges of one match: the whole match when the regex has no
/// groups of its own, otherwise each participating group from `g` on.
pub open spec fn groups_from(
    m: Seq<Option<(usize, usize, Seq<char>)>>,
    g: int,
) -> Seq<GroupRange>
    decreases m.len() - g,
{
    if g < 0 || g >= m.len() {
        seq![]
    } else {
        let rest = groups_from(m, g + 1);
        match m[g] {
            Some((start, end, _)) => if start != end {
                seq![GroupRange { start, end, group_index: g as usize }] + rest
            } else {
                rest
            },
            None => rest,
        }
    }
}

/// The highlighted ranges of one match.
pub open spec fn match_ranges(m: Seq<Option<(usize, usize, Seq<char>)>>, has_groups: bool) -> Seq<
    GroupRange,
> {
    if !has_groups {
        if m.len() == 0 {
            seq![]
        } else {
            match m[0] {
                Some((start, end, _)) => if start != end {
                    seq![GroupRange { start, end, group_index: 0 }]
                } else {
                    seq![]
                },
                None => seq![],
            }
        }
    } else {
        groups_from(m, 1)
    }
}

/// The highlighted ranges of all matches, in order.
pub open spec fn all_ranges(ms: Seq<Seq<Option<(usize, usize, Seq<char>)>>>, has_groups: bool) -> Seq<
    GroupRange,
>
    decreases ms.len(),
{
    if ms.len() == 0 {
        seq![]
    } else {
        all_ranges(ms.drop_last(), has_groups) + match_ranges(ms.last(), has_groups)
    }
}

/// The ranges to highlight in `line`: the whole of each non-empty match when
/// the regex has no capture groups of its own, otherwise every non-empty
/// group of every match.
pub open spec fn line_ranges(re: CompiledRegex, line: Seq<char>) -> Seq<GroupRange> {
    all_ranges(re.matches_in(line), re.names().len() > 1)
}

/// The ranges of one match from group `g` on.
fn push_groups_from(out: &mut Vec<GroupRange>, m: &Vec<Option<GroupMatch>>, g: usize, Ghost(b): Ghost<Seq<u8>>)
    requires
        g <= m@.len(),
        forall|j: int| 0 <= j < m@.len() ==> group_within(#[trigger] m@[j], b),
    ensures
        final(out)@ == old(out)@ + groups_from(m@.map_values(|x: Option<GroupMatch>| group_view(x)), g as int),
        forall|k: int| old(out)@.len() <= k < final(out)@.len() ==> (#[trigger] final(out)@[k]).start < final(out)@[k].end
            && char_range(b, final(out)@[k].start as int, final(out)@[k].end as int),
    decreases m@.len() - g,
{
    let ghost v = m@.map_values(|x: Option<GroupMatch>| group_view(x));
    if g == m.len() {
        assert(old(out)@ + groups_from(v, g as int) =~= old(out)@);
        return;
    }
    match &m[g] {
        Some(found) => {
            if found.start != found.end {
                out.push(GroupRange { start: found.start, end: found.end, group_index: g });
            }
        },
        None => {},
    }
    let ghost mid = out@;
    push_groups_from(out, m, g + 1, Ghost(b));
    assert(final(out)@ =~= old(out)@ + groups_from(v, g as int)) by {
        assert(v[g as int] == group_view(m@[g as int]));
    }
    assert forall|k: int| old(out)@.len() <= k < final(out)@.len() implies (#[trigger] final(out)@[k]).start < final(out)@[k].end
        && char_range(b, final(out)@[k].start as int, final(out)@[k].end as int) by {
        if k < mid.len() {
            assert(final(out)@[k] == mid[k]);
            assert(group_within(m@[g as int], b));
        }
    }
}

/// The ranges of `line` to highlight for `regex`.
pub fn group_ranges(line: &str, re: &CompiledRegex) -> (r: Vec<GroupRange>)
    ensures
        r@ == line_ranges(*re, line@),
        forall|k: int| 0 <= k < r@.len() ==> (#[trigger] r@[k]).start < r@[k].end,
        forall|k: int|
            0 <= k < r@.len() ==> char_range(line.spec_bytes(), (#[trigger] r@[k]).start as int, r@[k].end as int),
{
    let names = capture_names(re);
    let has_capture_groups = names.len() > 1;
    let all = captures_in(re, line);
    let ghost mv = matches_view(all@);
    let mut ranges: Vec<GroupRange> = Vec::new();
    let mut k: usize = 0;
    while k < all.len()
        invariant
            k <= all@.len(),
            mv == matches_view(all@),
            mv == re.matches_in(line@),
            has_capture_groups == (re.names().len() > 1),
            ranges@ == all_ranges(mv.take(k as int), has_capture_groups),
            forall|j: int| 0 <= j < all@.len() ==> (#[trigger] all@[j])@.len() >= 1 && all@[j]@[0] is Some,
            forall|j: int, g: int|
                0 <= j < all@.len() && 0 <= g < all@[j]@.len() ==> group_within(
                    #[trigger] all@[j]@[g],
                    line.spec_bytes(),
                ),
            forall|j: int| 0 <= j < ranges@.len() ==> (#[trigger] ranges@[j]).start < ranges@[j].end,
            forall|j: int|
                0 <= j < ranges@.len() ==> char_range(
                    line.spec_bytes(),
                    (#[trigger] ranges@[j]).start as int,
                    ranges@[j].end as int,
                ),
        decreases all@.len() - k,
    {
        let m = &all[k];
        let ghost mk = mv[k as int];
        assert(mk == m@.map_values(|x: Option<GroupMatch>| group_view(x)));
        assert(mv.take(k + 1).drop_last() =~= mv.take(k as int));
        assert forall|j: int| 0 <= j < m@.len() implies group_within(#[trigger] m@[j], line.spec_bytes()) by {
            assert(m@[j] == all@[k as int]@[j]);
        }
        if !has_capture_groups {
            match &m[0] {
                Some(found) => {
                    if found.start != found.end {
                        ranges.push(GroupRange { start: found.start, end: found.end, group_index: 0 });
                    }
                },
                None => {},
            }
            assert(mk[0] == group_view(m@[0]));
            assert(group_within(m@[0], line.spec_bytes()));
            assert(ranges@ =~= all_ranges(mv.take(k as int), has_capture_groups) + match_ranges(mk, has_capture_groups));
        } else {
            push_groups_from(&mut ranges, m, 1, Ghost(line.spec_bytes()));
        }
        k = k + 1;
    }
    assert(mv.take(all@.len() as int) =~= mv);
    ranges
}

/// Whether `r` covers the segment from `start` to `end`.
pub open spec fn covers(r: GroupRange, start: usize, end: usize) -> bool {
    r.start <= start && end <= r.end
}

/// Whether `a` is preferred to `b`: shorter, or as long with a larger group
/// index.
pub open spec fn preferred(a: GroupRange, b: GroupRange) -> bool {
    (a.end - a.start) < (b.end - b.start) || ((a.end - a.start) == (b.end - b.start) && a.group_index
        > b.group_index)
}

/// The first most preferred range of `ranges` that covers the segment.
pub open spec fn best_range(ranges: Seq<GroupRange>, start: usize, end: usize) -> Option<GroupRange>
    decreases ranges.len(),
{
    if ranges.len() == 0 {
        None
    } else {
        let before = best_range(ranges.drop_last(), start, end);
        let r = ranges.last();
        if covers(r, start, end) && (before is None || preferred(r, before->0)) {
            Some(r)
        } else {
            before
        }
    }
}

/// The range that colours the segment from `start` to `end`: among the
/// ranges covering it, the shortest, then the one of the largest group, the
/// earliest on a tie.
pub fn best_range_for_segment(ranges: &[GroupRange], start: usize, end: usize) -> (r: Option<GroupRange>)
    requires
        forall|k: int|
            0 <= k < ranges@.len() && covers(#[trigger] ranges@[k], start, end) ==> ranges@[k].start
                <= ranges@[k].end,
    ensures
        r == best_range(ranges@, start, end),
{
    let mut best: Option<GroupRange> = None;
    let mut k: usize = 0;
    while k < ranges.len()
        invariant
            k <= ranges@.len(),
            forall|j: int|
                0 <= j < ranges@.len() && covers(#[trigger] ranges@[j], start, end) ==> ranges@[j].start
                    <= ranges@[j].end,
            best == best_range(ranges@.take(k as int), start, end),
            match best {
                Some(b) => b.start <= b.end,
                None => true,
            },
        decreases ranges@.len() - k,
    {
        let range = ranges[k];
        assert(ranges@.take(k + 1).drop_last() =~= ranges@.take(k as int));
        if range.start <= start && end <= range.end {
            let better = match best {
                None => true,
                Some(b) => {
                    let len = range.end - range.start;
                    let best_len = b.end - b.start;
                    len < best_len || (len == best_len && range.group_index > b.group_index)
                },
            };
            if better {
                best = Some(range);
            }
        }
        k = k + 1;
    }
    assert(ranges@.take(ranges@.len() as int) =~= ranges@);
    best
}

/// Whether `s` is strictly increasing.
pub open spec fn increasing(s: Seq<usize>) -> bool {
    forall|i: int, j: int| 0 <= i < j < s.len() ==> s[i] < s[j]
}

/// The segment boundaries of a visible text ending at `e` with the first
/// `n` of `ranges`: its two ends and the ends of those ranges.
pub open spec fn boundary_points(ranges: Seq<GroupRange>, e: usize, n: int) -> Set<usize> {
    Set::new(
        |x: usize|
            x == 0 || x == e || exists|k: int|
                0 <= k < n && (#[trigger] ranges[k].start == x || ranges[k].end == x),
    )
}

/// Whether the segments `segs` cut the first `e` bytes of the text encoded as
/// `b` into pieces that follow one another from the start to `e`, each
/// beginning and ending on a character boundary.
pub open spec fn tiles(segs: Seq<(usize, usize, Option<usize>)>, b: Seq<u8>, e: int) -> bool {
    &&& segs.len() >= 1
    &&& segs[0].0 == 0
    &&& segs.last().1 == e
    &&& forall|k: int|
        0 <= k < segs.len() ==> (#[trigger] segs[k]).0 <= segs[k].1 && is_char_boundary(b, segs[k].0 as int)
            && is_char_boundary(b, segs[k].1 as int)
    &&& forall|k: int| 0 <= k < segs.len() - 1 ==> (#[trigger] segs[k]).1 == segs[k + 1].0
}

/// The text of the pieces `segs` of the text encoded as `b`, one after
/// another.
pub open spec fn pieces_text(segs: Seq<(usize, usize, Option<usize>)>, b: Seq<u8>) -> Seq<char>
    decreases segs.len(),
{
    if segs.len() == 0 {
        seq![]
    } else {
        pieces_text(segs.drop_last(), b) + decode_utf8(
            b.subrange(segs.last().0 as int, segs.last().1 as int),
        )
    }
}

/// A character boundary of the first `e` bytes of `b`, itself cut at a
/// character boundary, is a character boundary of `b`.
proof fn lemma_prefix_boundary(b: Seq<u8>, e: int, i: int)
    requires
        valid_utf8(b),
        0 <= e <= b.len(),
        is_char_boundary(b, e),
        valid_utf8(b.subrange(0, e)) ==> is_char_boundary(b.subrange(0, e), i),
    ensures
        0 <= i <= e,
        is_char_boundary(b, i),
{
    broadcast use vstd::utf8::valid_utf8_split;

    let p = b.subrange(0, e);
    assert(valid_utf8(p));
    if 0 < i < e {
        vstd::utf8::is_char_boundary_iff_not_is_continuation_byte(p, i);
        vstd::utf8::is_char_boundary_iff_not_is_continuation_byte(b, i);
        assert(p[i] == b[i]);
    }
}

/// A character boundary of `b` within its first `e` bytes, cut at a
/// character boundary, is a character boundary of that prefix.
proof fn lemma_boundary_in_prefix(b: Seq<u8>, e: int, i: int)
    requires
        valid_utf8(b),
        0 <= i <= e <= b.len(),
        is_char_boundary(b, e),
        is_char_boundary(b, i),
    ensures
        valid_utf8(b.subrange(0, e)),
        is_char_boundary(b.subrange(0, e), i),
{
    broadcast use vstd::utf8::valid_utf8_split, vstd::utf8::is_char_boundary_start_end_of_seq;

    let p = b.subrange(0, e);
    assert(valid_utf8(p));
    if 0 < i < e {
        vstd::utf8::is_char_boundary_iff_not_is_continuation_byte(p, i);
        vstd::utf8::is_char_boundary_iff_not_is_continuation_byte(b, i);
        assert(p[i] == b[i]);
    } else if i == e {
        assert(p.len() == e);
    }
}

/// Pieces that follow one another from the start of `b` to a character
/// boundary `x` make up, one after another, the text of the first `x` bytes.
proof fn lemma_pieces_text(segs: Seq<(usize, usize, Option<usize>)>, b: Seq<u8>, x: int)
    requires
        valid_utf8(b),
        tiles(segs, b, x),
    ensures
        pieces_text(segs, b) == decode_utf8(b.subrange(0, x)),
    decreases segs.len(),
{
    broadcast use vstd::utf8::valid_utf8_split;

    let n = segs.len() as int;
    let last = segs[n - 1];
    if n == 1 {
        assert(pieces_text(segs.drop_last(), b) =~= seq![]);
        assert(pieces_text(segs, b) =~= decode_utf8(b.subrange(0, x)));
    } else {
        let front = segs.drop_last();
        let y = last.0 as int;
        assert(front[n - 2] == segs[n - 2]);
        assert(front.last().1 == y);
        assert(segs[n - 1] == last);
        assert(tiles(front, b, y)) by {
            assert forall|k: int| 0 <= k < front.len() implies (#[trigger] front[k]).0 <= front[k].1
                && is_char_boundary(b, front[k].0 as int) && is_char_boundary(b, front[k].1 as int) by {
                assert(front[k] == segs[k]);
            }
            assert forall|k: int| 0 <= k < front.len() - 1 implies (#[trigger] front[k]).1 == front[k + 1].0 by {
                assert(front[k] == segs[k] && front[k + 1] == segs[k + 1]);
            }
        }
        lemma_pieces_text(front, b, y);
        assert(0 <= x <= b.len());
        assert(0 <= y <= x) by {
            lemma_pieces_bounds(segs, b, x);
        }
        lemma_boundary_in_prefix(b, x, y);
        let p = b.subrange(0, x);
        vstd::utf8::decode_utf8_split(p, y);
        assert(p.subrange(0, y) =~= b.subrange(0, y));
        assert(p.subrange(y, p.len() as int) =~= b.subrange(y, x));
    }
}

/// The segment ends of tiling pieces stay within the text.
proof fn lemma_pieces_bounds(segs: Seq<(usize, usize, Option<usize>)>, b: Seq<u8>, x: int)
    requires
        valid_utf8(b),
        tiles(segs, b, x),
    ensures
        0 <= x <= b.len(),
        forall|k: int| 0 <= k < segs.len() ==> (#[trigger] segs[k]).1 <= x,
{
    let n = segs.len() as int;
    assert(is_char_boundary(b, segs[n - 1].1 as int));
    assert forall|k: int| 0 <= k < segs.len() implies (#[trigger] segs[k]).1 <= x by {
        lemma_tiles_increasing(segs, b, x, k);
    }
}

/// In tiling pieces, each piece ends no later than the last one.
proof fn lemma_tiles_increasing(segs: Seq<(usize, usize, Option<usize>)>, b: Seq<u8>, x: int, k: int)
    requires
        tiles(segs, b, x),
        0 <= k < segs.len(),
    ensures
        segs[k].1 <= x,
    decreases segs.len() - k,
{
    if k < segs.len() - 1 {
        assert(segs[k].1 == segs[k + 1].0);
        assert(segs[k + 1].0 <= segs[k + 1].1);
        lemma_tiles_increasing(segs, b, x, k + 1);
    }
}

/// Law: the segments of a highlighted line, read one after another, give
/// back exactly its visible text.
pub proof fn law_segments_spell_visible_text(
    line: Seq<char>,
    width: int,
    segs: Seq<(usize, usize, Option<usize>)>,
)
    requires
        tiles(segs, encode_utf8(line), visible_end(encode_utf8(line), width)),
    ensures
        pieces_text(segs, encode_utf8(line)) == visible_text(line, width),
{
    broadcast use vstd::utf8::encode_utf8_valid_utf8;

    lemma_pieces_text(segs, encode_utf8(line), visible_end(encode_utf8(line), width));
}

/// The boundaries of a visible text ending at the character boundary `e`,
/// with ranges on character boundaries of that text, cut it into tiling
/// pieces.
proof fn lemma_boundaries_tile(bs: Seq<usize>, ranges: Seq<GroupRange>, b: Seq<u8>, e: usize)
    requires
        valid_utf8(b),
        e <= b.len(),
        is_char_boundary(b, e as int),
        increasing(bs),
        bs.len() >= 2,
        bs.to_set() == boundary_points(ranges, e, ranges.len() as int),
        forall|k: int|
            0 <= k < ranges.len() ==> char_range(
                b.subrange(0, e as int),
                (#[trigger] ranges[k]).start as int,
                ranges[k].end as int,
            ),
    ensures
        tiles(segments_between(bs, ranges), b, e as int),
{
    broadcast use vstd::utf8::is_char_boundary_start_end_of_seq;

    let segs = segments_between(bs, ranges);
    let n = bs.len() as int;
    assert forall|i: int| 0 <= i < n implies (#[trigger] bs[i]) <= e && is_char_boundary(b, bs[i] as int) by {
        let x = bs[i];
        assert(bs.contains(x));
        assert(bs.to_set().contains(x));
        assert(boundary_points(ranges, e, ranges.len() as int).contains(x));
        if x != 0 && x != e {
            let k = choose|k: int| 0 <= k < ranges.len() && (#[trigger] ranges[k].start == x || ranges[k].end == x);
            assert(char_range(b.subrange(0, e as int), ranges[k].start as int, ranges[k].end as int));
            lemma_prefix_boundary(b, e as int, ranges[k].start as int);
            lemma_prefix_boundary(b, e as int, ranges[k].end as int);
        }
    }
    assert(bs[0] == 0) by {
        assert(boundary_points(ranges, e, ranges.len() as int).contains(0usize));
        assert(bs.to_set().contains(0usize));
        let i = choose|i: int| 0 <= i < n && bs[i] == 0usize;
        if i > 0 {
            assert(bs[0] < bs[i]);
        }
    }
    assert(bs[n - 1] == e) by {
        assert(boundary_points(ranges, e, ranges.len() as int).contains(e));
        assert(bs.to_set().contains(e));
        let i = choose|i: int| 0 <= i < n && bs[i] == e;
        if i < n - 1 {
            assert(bs[i] < bs[n - 1]);
            assert(bs[n - 1] <= e);
        }
    }
    assert(segs.len() == n - 1);
    assert(segs[0].0 == bs[0]);
    assert(segs.last() == segs[n - 2]);
    assert(segs[n - 2].1 == bs[n - 1]);
    assert forall|k: int| 0 <= k < segs.len() implies (#[trigger] segs[k]).0 <= segs[k].1 && is_char_boundary(b, segs[k].0 as int)
        && is_char_boundary(b, segs[k].1 as int) by {
        assert(segs[k].0 == bs[k] && segs[k].1 == bs[k + 1]);
        assert(bs[k] < bs[k + 1]);
        assert(bs[k] <= e && is_char_boundary(b, bs[k] as int));
        assert(bs[k + 1] <= e && is_char_boundary(b, bs[k + 1] as int));
    }
    assert forall|k: int| 0 <= k < segs.len() - 1 implies (#[trigger] segs[k]).1 == segs[k + 1].0 by {
        assert(segs[k].1 == bs[k + 1] && segs[k + 1].0 == bs[k + 1]);
    }
}

/// A piece of the visible text, with the group that colours it, if any.
#[derive(Clone, Copy)]
pub struct Segment {
    pub start: usize,
    pub end: usize,
    pub group: Option<usize>,
}

/// The plain view of a segment.
pub open spec fn segment_view(s: Segment) -> (usize, usize, Option<usize>) {
    (s.start, s.end, s.group)
}

/// The segments between successive boundaries, each coloured by its best
/// covering range.
pub open spec fn segments_between(bs: Seq<usize>, ranges: Seq<GroupRange>) -> Seq<
    (usize, usize, Option<usize>),
> {
    Seq::new(
        (bs.len() - 1) as nat,
        |k: int|
            (
                bs[k],
                bs[k + 1],
                match best_range(ranges, bs[k], bs[k + 1]) {
                    Some(r) => Some(r.group_index),
                    None => None,
                },
            ),
    )
}

/// How a line is shown: the segments of its visible part and whether a
/// truncation marker follows them.
pub struct Highlight {
    pub segments: Vec<Segment>,
    pub marker: bool,
}

/// Whether `segs` is the colouring of a visible text ending at `e` with the
/// highlighted `ranges`: one plain segment when there is nothing to colour,
/// otherwise the pieces between all boundaries in increasing order.
pub open spec fn colours(segs: Seq<(usize, usize, Option<usize>)>, ranges: Seq<GroupRange>, e: usize) -> bool {
    if ranges.len() == 0 {
        segs == seq![(0usize, e, None::<usize>)]
    } else {
        exists|bs: Seq<usize>|
            increasing(bs) && bs.to_set() == boundary_points(ranges, e, ranges.len() as int) && segs
                == segments_between(bs, ranges)
    }
}

/// Adds `x` to the increasing list `v`.
fn insert_point(v: &mut Vec<usize>, x: usize)
    requires
        increasing(old(v)@),
    ensures
        increasing(final(v)@),
        final(v)@.to_set() == old(v)@.to_set().insert(x),
{
    let mut k: usize = 0;
    while k < v.len() && v[k] < x
        invariant
            k <= v@.len(),
            forall|j: int| 0 <= j < k ==> v@[j] < x,
        decreases v@.len() - k,
    {
        k = k + 1;
    }
    let ghost before = v@;
    if k < v.len() && v[k] == x {
        assert(before.to_set().insert(x) =~= before.to_set()) by {
            assert(before.contains(x)) by {
                assert(before[k as int] == x);
            }
        }
        return;
    }
    v.insert(k, x);
    assert(increasing(v@)) by {
        assert forall|i: int, j: int| 0 <= i < j < v@.len() implies v@[i] < v@[j] by {
            if j < k {
                assert(v@[i] == before[i] && v@[j] == before[j]);
            } else if j == k {
                assert(v@[i] == before[i]);
            } else if i < k {
                assert(v@[i] == before[i] && v@[j] == before[j - 1]);
                assert(before[j - 1] >= x || j - 1 >= before.len()) by {
                    if before[k as int] < before[j - 1] || k == j - 1 {
                    }
                }
                assert(before[k as int] >= x);
                if k < j - 1 {
                    assert(before[k as int] < before[j - 1]);
                }
            } else if i == k {
                assert(v@[j] == before[j - 1]);
                assert(before[k as int] > x);
                if k < j - 1 {
                    assert(before[k as int] < before[j - 1]);
                }
            } else {
                assert(v@[i] == before[i - 1] && v@[j] == before[j - 1]);
            }
        }
    }
    assert(v@.to_set() =~= before.to_set().insert(x)) by {
        assert forall|y: usize| v@.contains(y) <==> before.to_set().insert(x).contains(y) by {
            if v@.contains(y) {
                let i = choose|i: int| 0 <= i < v@.len() && v@[i] == y;
                if i < k {
                    assert(before[i] == y);
                } else if i > k {
                    assert(before[i - 1] == y);
                }
            }
            if before.contains(y) {
                let i = choose|i: int| 0 <= i < before.len() && before[i] == y;
                if i < k {
                    assert(v@[i] == y);
                } else {
                    assert(v@[i + 1] == y);
                }
            }
            if y == x {
                assert(v@[k as int] == x);
            }
        }
    }
}

/// The increasing list of the segment boundaries of a visible text ending
/// at `e` with the highlighted `ranges`.
fn boundaries(ranges: &Vec<GroupRange>, e: usize) -> (bs: Vec<usize>)
    ensures
        increasing(bs@),
        bs@.to_set() == boundary_points(ranges@, e, ranges@.len() as int),
{
    let mut bs: Vec<usize> = Vec::new();
    insert_point(&mut bs, 0);
    insert_point(&mut bs, e);
    let mut k: usize = 0;
    assert(bs@.to_set() =~= boundary_points(ranges@, e, 0));
    while k < ranges.len()
        invariant
            k <= ranges@.len(),
            increasing(bs@),
            bs@.to_set() == boundary_points(ranges@, e, k as int),
        decreases ranges@.len() - k,
    {
        insert_point(&mut bs, ranges[k].start);
        insert_point(&mut bs, ranges[k].end);
        assert(bs@.to_set() =~= boundary_points(ranges@, e, k + 1)) by {
            assert forall|x: usize| bs@.to_set().contains(x) <==> boundary_points(ranges@, e, k + 1).contains(x) by {
                if boundary_points(ranges@, e, k + 1).contains(x) && x != 0 && x != e {
                    let j = choose|j: int| 0 <= j < k + 1 && (#[trigger] ranges@[j].start == x || ranges@[j].end == x);
                    if j < k {
                        assert(boundary_points(ranges@, e, k as int).contains(x));
                    }
                }
                if boundary_points(ranges@, e, k as int).contains(x) && x != 0 && x != e {
                    let j = choose|j: int| 0 <= j < k && (#[trigger] ranges@[j].start == x || ranges@[j].end == x);
                    assert(0 <= j < k + 1 && (ranges@[j].start == x || ranges@[j].end == x));
                }
            }
        }
        k = k + 1;
    }
    bs
}

/// How to show `line` within `width` bytes: the visible part (cut at a
/// character boundary) is split at the ends of the ranges that `regex`
/// highlights, each piece coloured by the shortest range covering it; a
/// marker follows when the line was cut here or before. The pieces follow
/// one another from the start of the visible part to its end, each cut at
/// character boundaries, so that read in order they spell the visible text
/// (`law_segments_spell_visible_text`).
pub fn highlight_line(line: &str, re: Option<&CompiledRegex>, width: usize, truncated: bool) -> (h: Highlight)
    ensures
        ({
            let b = line.spec_bytes();
            let e = visible_end(b, width as int);
            let segs = h.segments@.map_values(|s: Segment| segment_view(s));
            &&& h.marker == (truncated || e < b.len())
            &&& tiles(segs, b, e)
            &&& match re {
                None => segs == seq![(0usize, e as usize, None::<usize>)],
                Some(re) => colours(segs, line_ranges(*re, visible_text(line@, width as int)), e as usize),
            }
        }),
{
    broadcast use vstd::utf8::encode_utf8_valid_utf8, vstd::utf8::is_char_boundary_start_end_of_seq;

    let visible = truncate_char_boundary(line, width);
    let e = visible.as_bytes().len();
    let n = line.as_bytes().len();
    let ghost b = line.spec_bytes();
    proof {
        lemma_boundary_at_most_bounds(line.spec_bytes(), width as int);
        assert(e == visible_end(line.spec_bytes(), width as int));
        assert(is_char_boundary(b, 0));
        assert(is_char_boundary(b, e as int));
    }
    let marker = truncated || e < n;
    let mut segments: Vec<Segment> = Vec::new();
    let re = match re {
        Some(re) => re,
        None => {
            segments.push(Segment { start: 0, end: e, group: None });
            assert(segments@.map_values(|s: Segment| segment_view(s)) =~= seq![(0usize, e, None::<usize>)]);
            return Highlight { segments, marker };
        },
    };
    let ranges = group_ranges(visible, re);
    if ranges.len() == 0 {
        segments.push(Segment { start: 0, end: e, group: None });
        assert(segments@.map_values(|s: Segment| segment_view(s)) =~= seq![(0usize, e, None::<usize>)]);
        return Highlight { segments, marker };
    }
    let bs = boundaries(&ranges, e);
    assert(bs@.len() >= 2) by {
        assert(bs@.to_set().contains(0usize));
        assert(bs@.to_set().contains(ranges@[0].end));
        assert(bs@.contains(0usize));
        assert(bs@.contains(ranges@[0].end));
        let i = choose|i: int| 0 <= i < bs@.len() && bs@[i] == 0usize;
        let j = choose|j: int| 0 <= j < bs@.len() && bs@[j] == ranges@[0].end;
        assert(i != j);
    }
    let mut k: usize = 0;
    while k < bs.len() - 1
        invariant
            bs@.len() >= 2,
            k + 1 <= bs@.len(),
            forall|j: int| 0 <= j < ranges@.len() ==> (#[trigger] ranges@[j]).start < ranges@[j].end,
            segments@.map_values(|s: Segment| segment_view(s)) == segments_between(bs@, ranges@).take(k as int),
        decreases bs@.len() - k,
    {
        let best = best_range_for_segment(ranges.as_slice(), bs[k], bs[k + 1]);
        let group = match best {
            Some(r) => Some(r.group_index),
            None => None,
        };
        let ghost prev = segments@;
        let seg = Segment { start: bs[k], end: bs[k + 1], group };
        segments.push(seg);
        assert(segments@ == prev.push(seg));
        assert(segments@.map_values(|s: Segment| segment_view(s)) =~= prev.map_values(|s: Segment| segment_view(s)).push(segment_view(seg)));
        assert(segments_between(bs@, ranges@).take(k + 1) =~= segments_between(bs@, ranges@).take(k as int).push(segments_between(bs@, ranges@)[k as int]));
        k = k + 1;
    }
    assert(segments_between(bs@, ranges@).take(k as int) =~= segments_between(bs@, ranges@));
    proof {
        assert(visible.spec_bytes() == b.subrange(0, e as int));
        lemma_boundaries_tile(bs@, ranges@, b, e);
    }
    Highlight { segments, marker }
}

} // verus!
