//! Text shaping for the panels of the interface.

use vstd::prelude::*;

use crate::file_view::TextLine;
use crate::regex_debug::{capture_names, captures_in, group_view, matches_view, CompiledRegex, GroupMatch};
use crate::text::{chars_of, decimal, push_all, push_decimal, push_str, string_from, string_lines};

verus! {

/// `value` when it has at most `max_chars` characters; otherwise its first
/// `max_chars - 2` characters (none when `max_chars` is below two) followed
/// by `..`.
pub open spec fn compacted(value: Seq<char>, max_chars: nat) -> Seq<char> {
    if value.len() <= max_chars {
        value
    } else {
        let keep: int = if max_chars >= 2 { max_chars - 2 } else { 0 };
        value.take(keep) + seq!['.', '.']
    }
}

/// Shortens a legend label to at most `max_chars` characters, marking a cut
/// with `..`.
pub fn compact_label(value: String, max_chars: usize) -> (r: String)
    ensures
        r@ == compacted(value@, max_chars as nat),
{
    let chars = chars_of(value.as_str());
    if chars.len() <= max_chars {
        return value;
    }
    let keep: usize = if max_chars >= 2 { max_chars - 2 } else { 0 };
    let mut label: Vec<char> = Vec::new();
    let mut i: usize = 0;
    while i < keep
        invariant
            i <= keep,
            keep < chars@.len(),
            label@ == chars@.take(i as int),
        decreases keep - i,
    {
        label.push(chars[i]);
        assert(chars@.take(i + 1) =~= chars@.take(i as int).push(chars@[i as int]));
        i = i + 1;
    }
    label.push('.');
    label.push('.');
    assert(label@ =~= chars@.take(keep as int) + seq!['.', '.']);
    string_from(label.as_slice())
}


/// The most matches listed in the groups panel.
pub const MAX_LISTED_MATCHES: usize = 8;

/// The text of `s` as Rust's `Debug` shows a string: quoted, with quotes,
/// backslashes and special characters escaped (`<str as Debug>::fmt`).
pub uninterp spec fn debug_text(s: Seq<char>) -> Seq<char>;

/// Formats `s` as Rust's `Debug` does for a string (`format!("{:?}", s)`).
#[verifier::external_body]
fn debug_quoted(s: &str) -> (r: String)
    ensures
        r@ == debug_text(s@),
{
    format!("{:?}", s)
}

/// The name of group `idx` among `names`, empty when it has none.
pub open spec fn name_at(names: Seq<Option<Seq<char>>>, idx: int) -> Seq<char> {
    if 0 <= idx < names.len() {
        match names[idx] {
            Some(n) => n,
            None => Seq::empty(),
        }
    } else {
        Seq::empty()
    }
}

/// The entry of group `idx`, named `name`, that captured `text`.
pub open spec fn group_entry(idx: nat, name: Seq<char>, text: Seq<char>) -> Seq<char> {
    if name.len() == 0 {
        "  $"@ + decimal(idx) + ": "@ + debug_text(text)
    } else {
        "  $"@ + decimal(idx) + " "@ + name + ": "@ + debug_text(text)
    }
}

/// The entries of the groups of match `m` among its first `n`, in order,
/// for those that took part.
pub open spec fn group_entries(m: Seq<Option<(usize, usize, Seq<char>)>>, names: Seq<Option<Seq<char>>>, n: int) -> Seq<Seq<char>>
    decreases n,
{
    if n <= 0 {
        Seq::empty()
    } else {
        let before = group_entries(m, names, n - 1);
        match m[n - 1] {
            Some(g) => before.push(group_entry((n - 1) as nat, name_at(names, n - 1), g.2)),
            None => before,
        }
    }
}

/// The matches of `re` in the given lines (number and text), in order,
/// each with its line's number.
pub open spec fn line_matches(re: CompiledRegex, lines: Seq<(usize, Seq<char>)>) -> Seq<
    (usize, Seq<Option<(usize, usize, Seq<char>)>>),
>
    decreases lines.len(),
{
    if lines.len() == 0 {
        Seq::empty()
    } else {
        line_matches(re, lines.drop_last()) + re.matches_in(lines.last().1).map_values(
            |m: Seq<Option<(usize, usize, Seq<char>)>>| (lines.last().0, m),
        )
    }
}

/// The listing of matches `ms`: for each, a `line N` heading and its
/// groups' entries.
pub open spec fn match_blocks(ms: Seq<(usize, Seq<Option<(usize, usize, Seq<char>)>>)>, names: Seq<Option<Seq<char>>>) -> Seq<
    Seq<char>,
>
    decreases ms.len(),
{
    if ms.len() == 0 {
        Seq::empty()
    } else {
        let last = ms.last();
        match_blocks(ms.drop_last(), names) + seq!["line "@ + decimal(last.0 as nat)] + group_entries(
            last.1,
            names,
            last.1.len() as int,
        )
    }
}

/// The plain view of shown lines: their numbers and texts.
pub open spec fn shown_lines(lines: Seq<TextLine>) -> Seq<(usize, Seq<char>)> {
    lines.map_values(|l: TextLine| (l.number, l.text@))
}

/// The groups panel: the capture group descriptions, followed, when the
/// regex has groups of its own, by the groups of its first
/// `MAX_LISTED_MATCHES` matches in the shown lines.
pub open spec fn group_listing(captures: Seq<Seq<char>>, re: Option<CompiledRegex>, lines: Seq<(usize, Seq<char>)>) -> Seq<
    Seq<char>,
> {
    match re {
        None => captures,
        Some(r) => if r.names().len() <= 1 {
            captures
        } else {
            let ms = line_matches(r, lines);
            captures + match_blocks(
                if ms.len() > MAX_LISTED_MATCHES { ms.take(MAX_LISTED_MATCHES as int) } else { ms },
                r.names(),
            )
        },
    }
}

/// The matches of the first lines come first among all the lines'
/// matches.
proof fn lemma_line_matches_prefix(re: CompiledRegex, lines: Seq<(usize, Seq<char>)>, k: int)
    requires
        0 <= k <= lines.len(),
    ensures
        line_matches(re, lines.take(k)).len() <= line_matches(re, lines).len(),
        line_matches(re, lines).take(line_matches(re, lines.take(k)).len() as int) == line_matches(re, lines.take(k)),
    decreases lines.len() - k,
{
    if k < lines.len() {
        lemma_line_matches_prefix(re, lines, k + 1);
        assert(lines.take(k + 1).drop_last() =~= lines.take(k));
        let a = line_matches(re, lines.take(k));
        let b = line_matches(re, lines.take(k + 1));
        assert(b.take(a.len() as int) =~= a);
        assert(line_matches(re, lines).take(a.len() as int) =~= b.take(a.len() as int));
    } else {
        assert(lines.take(k) =~= lines);
        assert(line_matches(re, lines).take(line_matches(re, lines).len() as int) =~= line_matches(re, lines));
    }
}

/// The entries of one match's groups.
fn push_group_entries(
    out: &mut Vec<String>,
    m: &Vec<Option<GroupMatch>>,
    names: &Vec<Option<String>>,
    ghost_names: Ghost<Seq<Option<Seq<char>>>>,
)
    requires
        names@.len() == ghost_names@.len(),
        forall|j: int|
            0 <= j < names@.len() ==> match #[trigger] names@[j] {
                Some(name) => ghost_names@[j] == Some(name@),
                None => ghost_names@[j] is None,
            },
    ensures
        string_lines(final(out)@) == string_lines(old(out)@) + group_entries(
            m@.map_values(|g: Option<GroupMatch>| group_view(g)),
            ghost_names@,
            m@.len() as int,
        ),
{
    let ghost mv = m@.map_values(|g: Option<GroupMatch>| group_view(g));
    let ghost start = string_lines(out@);
    let mut idx: usize = 0;
    while idx < m.len()
        invariant
            idx <= m@.len(),
            mv == m@.map_values(|g: Option<GroupMatch>| group_view(g)),
            names@.len() == ghost_names@.len(),
            forall|j: int|
                0 <= j < names@.len() ==> match #[trigger] names@[j] {
                    Some(name) => ghost_names@[j] == Some(name@),
                    None => ghost_names@[j] is None,
                },
            string_lines(out@) == start + group_entries(mv, ghost_names@, idx as int),
        decreases m@.len() - idx,
    {
        assert(mv[idx as int] == group_view(m@[idx as int]));
        match &m[idx] {
            Some(g) => {
                let mut line: Vec<char> = Vec::new();
                push_str(&mut line, "  $");
                push_decimal(&mut line, idx as u64);
                let mut name: Vec<char> = Vec::new();
                if idx < names.len() {
                    match &names[idx] {
                        Some(n) => {
                            name = chars_of(n.as_str());
                        },
                        None => {},
                    }
                }
                assert(name@ == name_at(ghost_names@, idx as int));
                if name.len() == 0 {
                    push_str(&mut line, ": ");
                } else {
                    push_str(&mut line, " ");
                    push_all(&mut line, name.as_slice());
                    push_str(&mut line, ": ");
                }
                let shown = debug_quoted(g.text.as_str());
                push_str(&mut line, shown.as_str());
                let ghost before = out@;
                out.push(string_from(line.as_slice()));
                assert(string_lines(out@) =~= string_lines(before).push(line@));
                assert(line@ =~= group_entry(idx as nat, name_at(ghost_names@, idx as int), g.text@));
            },
            None => {},
        }
        idx = idx + 1;
    }
}

/// The lines of the groups panel: the capture group descriptions, then,
/// when the regex has groups of its own, a `line N` heading and the
/// captured groups for each of its first `MAX_LISTED_MATCHES` matches in
/// the shown lines.
pub fn group_lines(captures: &Vec<String>, regex: Option<&CompiledRegex>, lines: &[TextLine]) -> (r: Vec<String>)
    ensures
        string_lines(r@) == group_listing(
            string_lines(captures@),
            match regex {
                Some(re) => Some(*re),
                None => None,
            },
            shown_lines(lines@),
        ),
{
    let mut out: Vec<String> = Vec::new();
    let mut c: usize = 0;
    while c < captures.len()
        invariant
            c <= captures@.len(),
            string_lines(out@) == string_lines(captures@).take(c as int),
        decreases captures@.len() - c,
    {
        let ghost before = out@;
        out.push(captures[c].clone());
        assert(string_lines(out@) =~= string_lines(before).push(captures@[c as int]@));
        assert(string_lines(captures@).take(c + 1) =~= string_lines(captures@).take(c as int).push(captures@[c as int]@));
        c = c + 1;
    }
    assert(string_lines(captures@).take(c as int) =~= string_lines(captures@));
    let re = match regex {
        Some(re) => re,
        None => return out,
    };
    let names = capture_names(re);
    if names.len() <= 1 {
        return out;
    }
    let ghost sl = shown_lines(lines@);
    let ghost all = line_matches(*re, sl);
    let ghost base = string_lines(out@);
    let ghost gn = re.names();
    let mut found: usize = 0;
    let mut i: usize = 0;
    assert(sl.take(0) =~= Seq::<(usize, Seq<char>)>::empty());
    while i < lines.len()
        invariant
            i <= lines@.len(),
            sl == shown_lines(lines@),
            all == line_matches(*re, sl),
            gn == re.names(),
            names@.len() == gn.len(),
            gn.len() > 1,
            forall|j: int|
                0 <= j < names@.len() ==> match #[trigger] names@[j] {
                    Some(name) => gn[j] == Some(name@),
                    None => gn[j] is None,
                },
            found == line_matches(*re, sl.take(i as int)).len(),
            found < MAX_LISTED_MATCHES,
            base == string_lines(captures@),
            regex == Some(re),
            string_lines(out@) == base + match_blocks(line_matches(*re, sl.take(i as int)), gn),
        decreases lines@.len() - i,
    {
        let line = &lines[i];
        let ghost pre = line_matches(*re, sl.take(i as int));
        assert(sl.take(i + 1).drop_last() =~= sl.take(i as int));
        assert(sl.take(i + 1).last() == (line.number, line.text@));
        let caps = captures_in(re, line.text.as_str());
        let ghost here = matches_view(caps@).map_values(
            |m: Seq<Option<(usize, usize, Seq<char>)>>| (line.number, m),
        );
        assert(line_matches(*re, sl.take(i + 1)) == pre + here);
        let mut j: usize = 0;
        assert(here.take(0) =~= Seq::<(usize, Seq<Option<(usize, usize, Seq<char>)>>)>::empty());
        assert(pre + here.take(0) =~= pre);
        while j < caps.len()
            invariant
                j <= caps@.len(),
                here == matches_view(caps@).map_values(
                    |m: Seq<Option<(usize, usize, Seq<char>)>>| (line.number, m),
                ),
                names@.len() == gn.len(),
                forall|k: int|
                    0 <= k < names@.len() ==> match #[trigger] names@[k] {
                        Some(name) => gn[k] == Some(name@),
                        None => gn[k] is None,
                    },
                found == pre.len() + j,
                found < MAX_LISTED_MATCHES,
                string_lines(out@) == base + match_blocks(pre + here.take(j as int), gn),
                i < lines@.len(),
                sl == shown_lines(lines@),
                all == line_matches(*re, sl),
                gn == re.names(),
                gn.len() > 1,
                line_matches(*re, sl.take(i + 1)) == pre + here,
                here.len() == caps@.len(),
                base == string_lines(captures@),
                regex == Some(re),
            decreases caps@.len() - j,
        {
            let ghost before = string_lines(out@);
            let heading = vec_of_line(line.number);
            let ghost prefix = pre + here.take(j as int);
            let ghost next = pre + here.take(j + 1);
            assert(next.drop_last() =~= prefix);
            assert(next.last() == (line.number, matches_view(caps@)[j as int]));
            assert(matches_view(caps@)[j as int] == caps@[j as int]@.map_values(|g: Option<GroupMatch>| group_view(g)));
            let ghost o1 = out@;
            out.push(string_from(heading.as_slice()));
            assert(string_lines(out@) =~= string_lines(o1).push(heading@));
            push_group_entries(&mut out, &caps[j], &names, Ghost(gn));
            assert(string_lines(out@) =~= base + match_blocks(next, gn));
            found = found + 1;
            j = j + 1;
            if found >= MAX_LISTED_MATCHES {
                proof {
                    lemma_line_matches_prefix(*re, sl, i + 1);
                    let whole = pre + here;
                    assert(next.len() == MAX_LISTED_MATCHES);
                    assert(whole.take(next.len() as int) =~= next);
                    assert(all.take(whole.len() as int) == whole);
                    assert(all.take(MAX_LISTED_MATCHES as int) =~= next);
                    if all.len() == MAX_LISTED_MATCHES {
                        assert(all.take(MAX_LISTED_MATCHES as int) =~= all);
                    }
                }
                return out;
            }
        }
        assert(here.take(caps@.len() as int) =~= here);
        i = i + 1;
    }
    assert(sl.take(lines@.len() as int) =~= sl);
    out
}

/// The heading `line N` of a match on line `number`.
fn vec_of_line(number: usize) -> (r: Vec<char>)
    ensures
        r@ == "line "@ + decimal(number as nat),
{
    let mut r: Vec<char> = Vec::new();
    push_str(&mut r, "line ");
    push_decimal(&mut r, number as u64);
    r
}

} // verus!
