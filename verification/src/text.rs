//! Character-sequence helpers shared by the explanation, export and index code.

use vstd::prelude::*;
use vstd::std_specs::iter::IteratorSpec;

verus! {

/// The characters of `s`, in order, in a vector.
pub fn chars_of(s: &str) -> (v: Vec<char>)
    ensures
        v@ == s@,
{
    let mut it = s.chars();
    let mut v: Vec<char> = Vec::new();
    loop
        invariant
            v@ + it.remaining() == s@,
            it.decrease() is Some,
        ensures
            v@ == s@,
        decreases it.decrease()->0,
    {
        let ghost before = it.remaining();
        match it.next() {
            Some(c) => {
                v.push(c);
                assert(before == seq![c] + it.remaining()) by {
                    assert(before.drop_first() == it.remaining());
                }
                assert(v@ + it.remaining() =~= s@);
            },
            None => {
                assert(v@ + before =~= v@);
                break;
            },
        }
    }
    v
}

/// Builds a `String` from a slice of characters (`FromIterator<char>` for `String`).
#[verifier::external_body]
pub fn string_from(v: &[char]) -> (s: String)
    ensures
        s@ == v@,
{
    v.iter().collect()
}

/// The views of a list of character vectors.
pub open spec fn char_lines(v: Seq<Vec<char>>) -> Seq<Seq<char>> {
    v.map_values(|l: Vec<char>| l@)
}

/// The views of a list of strings.
pub open spec fn string_lines(v: Seq<String>) -> Seq<Seq<char>> {
    v.map_values(|l: String| l@)
}

/// Appends all of `src` to `dst`.
pub fn push_all(dst: &mut Vec<char>, src: &[char])
    ensures
        final(dst)@ == old(dst)@ + src@,
{
    let mut i: usize = 0;
    while i < src.len()
        invariant
            0 <= i <= src@.len(),
            dst@ == old(dst)@ + src@.subrange(0, i as int),
        decreases src@.len() - i,
    {
        dst.push(src[i]);
        i = i + 1;
        assert(src@.subrange(0, i as int) == src@.subrange(0, i - 1 as int).push(src@[i - 1]));
    }
    assert(src@.subrange(0, src@.len() as int) == src@);
}

/// Appends the characters of `s` to `dst`.
pub fn push_str(dst: &mut Vec<char>, s: &str)
    ensures
        final(dst)@ == old(dst)@ + s@,
{
    let v = chars_of(s);
    push_all(dst, v.as_slice());
}

/// A fresh vector holding the characters of `s`.
pub fn vec_of(s: &str) -> (v: Vec<char>)
    ensures
        v@ == s@,
{
    chars_of(s)
}

/// Converts a list of character vectors into strings.
pub fn strings_from(lines: &Vec<Vec<char>>) -> (out: Vec<String>)
    ensures
        string_lines(out@) == char_lines(lines@),
{
    let mut out: Vec<String> = Vec::new();
    let mut i: usize = 0;
    while i < lines.len()
        invariant
            0 <= i <= lines@.len(),
            out@.len() == i,
            forall|k: int| 0 <= k < i ==> #[trigger] out@[k]@ == lines@[k]@,
        decreases lines@.len() - i,
    {
        out.push(string_from(lines[i].as_slice()));
        i = i + 1;
    }
    assert(string_lines(out@) =~= char_lines(lines@));
    out
}

/// The lines of `t` as `str::lines` yields them, `cur` being the part of the
/// current line that was already read: the text is split at each `'\n'`, a
/// `'\r'` just before a `'\n'` is dropped, and a final line ending adds no
/// empty line.
pub open spec fn lines_after(t: Seq<char>, cur: Seq<char>) -> Seq<Seq<char>>
    decreases t.len(),
{
    if t.len() == 0 {
        if cur.len() == 0 {
            seq![]
        } else {
            seq![cur]
        }
    } else if t[0] == '\n' {
        seq![strip_cr(cur)] + lines_after(t.drop_first(), seq![])
    } else {
        lines_after(t.drop_first(), cur.push(t[0]))
    }
}

/// `s` without one trailing carriage return.
pub open spec fn strip_cr(s: Seq<char>) -> Seq<char> {
    if s.len() > 0 && s.last() == '\r' {
        s.drop_last()
    } else {
        s
    }
}

/// The lines of `t` (see `lines_after`).
pub open spec fn split_lines(t: Seq<char>) -> Seq<Seq<char>> {
    lines_after(t, seq![])
}

/// No line that `lines_after` yields holds a newline.
pub proof fn lemma_lines_have_no_newline(t: Seq<char>, cur: Seq<char>)
    requires
        !cur.contains('\n'),
    ensures
        forall|k: int|
            0 <= k < lines_after(t, cur).len() ==> !(#[trigger] lines_after(t, cur)[k]).contains(
                '\n',
            ),
    decreases t.len(),
{
    if t.len() == 0 {
        if cur.len() > 0 {
            assert(lines_after(t, cur) == seq![cur]);
        }
    } else if t[0] == '\n' {
        lemma_lines_have_no_newline(t.drop_first(), seq![]);
        let first = strip_cr(cur);
        assert(!first.contains('\n')) by {
            if cur.len() > 0 && cur.last() == '\r' {
                assert forall|j: int| 0 <= j < first.len() implies first[j] != '\n' by {
                    assert(first[j] == cur[j]);
                }
            }
        }
        let rest = lines_after(t.drop_first(), seq![]);
        assert forall|k: int| 0 <= k < lines_after(t, cur).len() implies !(#[trigger] lines_after(
            t,
            cur,
        )[k]).contains('\n') by {
            if k > 0 {
                assert(lines_after(t, cur)[k] == rest[k - 1]);
            } else {
                assert(lines_after(t, cur)[k] == first);
            }
        }
    } else {
        let next = cur.push(t[0]);
        assert(!next.contains('\n')) by {
            assert forall|j: int| 0 <= j < next.len() implies next[j] != '\n' by {
                if j < cur.len() {
                    assert(next[j] == cur[j]);
                }
            }
        }
        lemma_lines_have_no_newline(t.drop_first(), next);
        assert(lines_after(t, cur) == lines_after(t.drop_first(), next));
    }
}

/// A text with at least one character has at least one line.
pub proof fn lemma_lines_nonempty(t: Seq<char>, cur: Seq<char>)
    requires
        t.len() > 0 || cur.len() > 0,
    ensures
        lines_after(t, cur).len() > 0,
    decreases t.len(),
{
    if t.len() == 0 {
    } else if t[0] == '\n' {
    } else {
        lemma_lines_nonempty(t.drop_first(), cur.push(t[0]));
    }
}

/// A text without newlines is a single line.
pub proof fn lemma_single_line(t: Seq<char>, cur: Seq<char>)
    requires
        !t.contains('\n'),
        t.len() > 0 || cur.len() > 0,
    ensures
        lines_after(t, cur) == seq![cur + t],
    decreases t.len(),
{
    if t.len() == 0 {
        assert(cur + t =~= cur);
    } else {
        assert(t[0] != '\n') by {
            assert(t[0] == t[0]);
        }
        let rest = t.drop_first();
        assert(!rest.contains('\n')) by {
            assert forall|j: int| 0 <= j < rest.len() implies rest[j] != '\n' by {
                assert(rest[j] == t[j + 1]);
            }
        }
        lemma_single_line(rest, cur.push(t[0]));
        assert(cur.push(t[0]) + rest =~= cur + t);
    }
}

/// Splits `t` into lines as `str::lines` does.
pub fn lines_of(t: &[char]) -> (out: Vec<Vec<char>>)
    ensures
        char_lines(out@) == split_lines(t@),
{
    let mut out: Vec<Vec<char>> = Vec::new();
    let mut cur: Vec<char> = Vec::new();
    let mut i: usize = 0;
    assert(t@.subrange(0, t@.len() as int) =~= t@);
    assert(char_lines(out@) + split_lines(t@) =~= split_lines(t@));
    while i < t.len()
        invariant
            0 <= i <= t@.len(),
            char_lines(out@) + lines_after(t@.subrange(i as int, t@.len() as int), cur@)
                == split_lines(t@),
        decreases t@.len() - i,
    {
        let ghost rest = t@.subrange(i as int, t@.len() as int);
        assert(rest.drop_first() =~= t@.subrange(i + 1, t@.len() as int));
        let ghost before = char_lines(out@);
        if t[i] == '\n' {
            let ghost cur_old = cur@;
            if cur.len() > 0 && cur[cur.len() - 1] == '\r' {
                cur.pop();
            }
            assert(cur@ == strip_cr(cur_old));
            out.push(cur);
            cur = Vec::new();
            assert(char_lines(out@) =~= before + seq![strip_cr(cur_old)]);
            assert(lines_after(rest, cur_old) == seq![strip_cr(cur_old)] + lines_after(
                rest.drop_first(),
                seq![],
            ));
            assert(cur@ =~= seq![]);
            assert(before + seq![strip_cr(cur_old)] + lines_after(rest.drop_first(), seq![])
                =~= before + (seq![strip_cr(cur_old)] + lines_after(rest.drop_first(), seq![])));
        } else {
            cur.push(t[i]);
        }
        i = i + 1;
    }
    let ghost before = char_lines(out@);
    assert(t@.subrange(i as int, t@.len() as int) =~= seq![]);
    if cur.len() > 0 {
        out.push(cur);
        assert(char_lines(out@) =~= before + lines_after(seq![], cur@));
    } else {
        assert(before + lines_after(seq![], cur@) =~= before);
    }
    out
}

/// `n` copies of the two-space indentation unit.
pub open spec fn indent(n: nat) -> Seq<char> {
    Seq::new(2 * n, |k: int| ' ')
}

/// Each line prefixed with the indentation of depth `d`.
pub open spec fn indented(lines: Seq<Seq<char>>, d: nat) -> Seq<Seq<char>> {
    lines.map_values(|l: Seq<char>| indent(d) + l)
}

/// The indentation of depth `depth`.
pub fn indent_of(depth: usize) -> (v: Vec<char>)
    ensures
        v@ == indent(depth as nat),
{
    let mut v: Vec<char> = Vec::new();
    let mut i: usize = 0;
    while i < depth
        invariant
            0 <= i <= depth,
            v@ == indent(i as nat),
        decreases depth - i,
    {
        v.push(' ');
        v.push(' ');
        i = i + 1;
        assert(v@ =~= indent(i as nat));
    }
    v
}

/// Appends to `out` each line of `text`, indented by `depth`.
pub fn push_lines(out: &mut Vec<Vec<char>>, depth: usize, text: &[char])
    ensures
        char_lines(final(out)@) == char_lines(old(out)@) + indented(split_lines(text@), depth as nat),
{
    let lines = lines_of(text);
    let ghost ls = split_lines(text@);
    let mut i: usize = 0;
    while i < lines.len()
        invariant
            0 <= i <= lines@.len(),
            char_lines(lines@) == ls,
            char_lines(out@) == char_lines(old(out)@) + indented(ls.take(i as int), depth as nat),
        decreases lines@.len() - i,
    {
        let mut line = indent_of(depth);
        push_all(&mut line, lines[i].as_slice());
        let ghost before = char_lines(out@);
        out.push(line);
        assert(ls[i as int] == lines@[i as int]@);
        assert(indented(ls.take(i + 1), depth as nat) =~= indented(ls.take(i as int), depth as nat).push(
            indent(depth as nat) + ls[i as int],
        ));
        assert(char_lines(out@) =~= before.push(indent(depth as nat) + ls[i as int]));
        i = i + 1;
    }
    assert(ls.take(lines@.len() as int) =~= ls);
}

/// The decimal digit character for `d` (taken modulo ten).
pub open spec fn digit_char(d: nat) -> char {
    let d = d % 10;
    if d == 0 {
        '0'
    } else if d == 1 {
        '1'
    } else if d == 2 {
        '2'
    } else if d == 3 {
        '3'
    } else if d == 4 {
        '4'
    } else if d == 5 {
        '5'
    } else if d == 6 {
        '6'
    } else if d == 7 {
        '7'
    } else if d == 8 {
        '8'
    } else {
        '9'
    }
}

/// The decimal representation of `n`, without leading zeros.
pub open spec fn decimal(n: nat) -> Seq<char>
    decreases n,
{
    if n < 10 {
        seq![digit_char(n)]
    } else {
        decimal(n / 10).push(digit_char(n % 10))
    }
}

fn digit(d: u64) -> (c: char)
    requires
        d < 10,
    ensures
        c == digit_char(d as nat),
{
    if d == 0 {
        '0'
    } else if d == 1 {
        '1'
    } else if d == 2 {
        '2'
    } else if d == 3 {
        '3'
    } else if d == 4 {
        '4'
    } else if d == 5 {
        '5'
    } else if d == 6 {
        '6'
    } else if d == 7 {
        '7'
    } else if d == 8 {
        '8'
    } else {
        '9'
    }
}

/// Appends the decimal representation of `n` to `dst`.
pub fn push_decimal(dst: &mut Vec<char>, n: u64)
    ensures
        final(dst)@ == old(dst)@ + decimal(n as nat),
    decreases n,
{
    if n >= 10 {
        push_decimal(dst, n / 10);
    }
    dst.push(digit(n % 10));
    assert(dst@ =~= old(dst)@ + decimal(n as nat));
}

/// Whether the two character slices hold the same characters.
pub fn same_chars(a: &[char], b: &[char]) -> (r: bool)
    ensures
        r == (a@ == b@),
{
    if a.len() != b.len() {
        return false;
    }
    let mut k: usize = 0;
    while k < a.len()
        invariant
            a@.len() == b@.len(),
            k <= a@.len(),
            forall|j: int| 0 <= j < k ==> a@[j] == b@[j],
        decreases a@.len() - k,
    {
        if a[k] != b[k] {
            return false;
        }
        k = k + 1;
    }
    assert(a@ =~= b@);
    true
}

/// Whether `s` holds exactly the characters of `lit`.
pub fn is_text(s: &[char], lit: &str) -> (r: bool)
    ensures
        r == (s@ == lit@),
{
    let l = chars_of(lit);
    same_chars(s, l.as_slice())
}

/// The characters of `bytes` decoded as UTF-8, each invalid sequence
/// replaced by U+FFFD (`String::from_utf8_lossy`).
pub uninterp spec fn utf8_lossy(bytes: Seq<u8>) -> Seq<char>;

/// Decodes `bytes` as UTF-8, replacing invalid sequences with U+FFFD
/// (`String::from_utf8_lossy`); valid input is decoded unchanged.
#[verifier::external_body]
pub fn decode_lossy(bytes: &[u8]) -> (s: String)
    ensures
        s@ == utf8_lossy(bytes@),
        vstd::utf8::valid_utf8(bytes@) ==> s@ == vstd::utf8::decode_utf8(bytes@),
{
    String::from_utf8_lossy(bytes).into_owned()
}


/// The number of bytes of `c` in UTF-8.
pub open spec fn utf8_width(c: char) -> nat {
    if (c as u32) <= 0x7F {
        1
    } else if (c as u32) <= 0x7FF {
        2
    } else if (c as u32) <= 0xFFFF {
        3
    } else {
        4
    }
}

/// The number of bytes of `cs` in UTF-8.
pub open spec fn byte_len(cs: Seq<char>) -> nat {
    vstd::utf8::encode_utf8(cs).len()
}

/// The UTF-8 encoding of a character is `utf8_width` bytes long.
pub proof fn lemma_scalar_width(c: char)
    ensures
        vstd::utf8::encode_scalar(c as u32).len() == utf8_width(c),
{
    vstd::utf8::char_is_scalar(c);
}

/// Encoding two character sequences one after the other encodes their
/// concatenation.
pub proof fn lemma_encode_concat(a: Seq<char>, b: Seq<char>)
    ensures
        vstd::utf8::encode_utf8(a + b) == vstd::utf8::encode_utf8(a) + vstd::utf8::encode_utf8(b),
    decreases a.len(),
{
    if a.len() > 0 {
        assert((a + b).drop_first() =~= a.drop_first() + b);
        assert((a + b)[0] == a[0]);
        lemma_encode_concat(a.drop_first(), b);
        assert(vstd::utf8::encode_utf8(a + b) =~= vstd::utf8::encode_utf8(a) + vstd::utf8::encode_utf8(b));
    } else {
        assert(a + b =~= b);
        assert(vstd::utf8::encode_utf8(a) =~= Seq::<u8>::empty());
        assert(vstd::utf8::encode_utf8(a) + vstd::utf8::encode_utf8(b) =~= vstd::utf8::encode_utf8(b));
    }
}

/// The byte length of a concatenation is the sum of the byte lengths.
pub proof fn lemma_byte_len_concat(a: Seq<char>, b: Seq<char>)
    ensures
        byte_len(a + b) == byte_len(a) + byte_len(b),
{
    lemma_encode_concat(a, b);
}

/// One more character adds its width to the byte length.
pub proof fn lemma_byte_len_push(a: Seq<char>, c: char)
    ensures
        byte_len(a.push(c)) == byte_len(a) + utf8_width(c),
{
    assert(a.push(c) =~= a + seq![c]);
    lemma_byte_len_concat(a, seq![c]);
    lemma_scalar_width(c);
    assert(seq![c].drop_first() =~= Seq::<char>::empty());
    assert(vstd::utf8::encode_utf8(Seq::<char>::empty()) =~= Seq::<u8>::empty());
    assert(vstd::utf8::encode_utf8(seq![c]) =~= vstd::utf8::encode_scalar(c as u32));
}

/// The byte length of a prefix grows with the prefix.
pub proof fn lemma_byte_len_prefix(a: Seq<char>, i: int, j: int)
    requires
        0 <= i <= j <= a.len(),
    ensures
        byte_len(a.take(i)) <= byte_len(a.take(j)),
        byte_len(a.take(j)) <= byte_len(a),
{
    assert(a.take(j) =~= a.take(i) + a.subrange(i, j));
    lemma_byte_len_concat(a.take(i), a.subrange(i, j));
    assert(a =~= a.take(j) + a.skip(j));
    lemma_byte_len_concat(a.take(j), a.skip(j));
}

/// The number of bytes of `c` in UTF-8 (`char::len_utf8`).
pub fn char_width(c: char) -> (n: usize)
    ensures
        n == utf8_width(c),
{
    let v = c as u32;
    if v <= 0x7F {
        1
    } else if v <= 0x7FF {
        2
    } else if v <= 0xFFFF {
        3
    } else {
        4
    }
}

} // verus!
