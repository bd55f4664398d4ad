//! Export formats and the records written for each match: JSON, CSV and
//! plain text, with the escaping each format needs.

use vstd::prelude::*;

use crate::regex_debug::{capture_names, captures_in, group_view, matches_view, CompiledRegex, GroupMatch};
use crate::text::{
    chars_of, decimal, decode_lossy, push_all, push_decimal, push_str, string_from, utf8_lossy,
    vec_of,
};

verus! {

/// The file formats matches can be exported to.
#[derive(Clone, Copy, Debug, PartialEq, Eq, Structural)]
pub enum ExportFormat {
    Json,
    Csv,
    Text,
}

/// The format named `s`, if any (`txt` and `text` both name plain text).
pub open spec fn format_named(s: Seq<char>) -> Option<ExportFormat> {
    if s == "json"@ {
        Some(ExportFormat::Json)
    } else if s == "csv"@ {
        Some(ExportFormat::Csv)
    } else if s == "txt"@ || s == "text"@ {
        Some(ExportFormat::Text)
    } else {
        None
    }
}

/// The short name of a format, also its file extension.
pub open spec fn format_label(f: ExportFormat) -> Seq<char> {
    match f {
        ExportFormat::Json => "json"@,
        ExportFormat::Csv => "csv"@,
        ExportFormat::Text => "txt"@,
    }
}

/// The format after `f` in the cycle JSON, CSV, text.
pub open spec fn format_after(f: ExportFormat) -> ExportFormat {
    match f {
        ExportFormat::Json => ExportFormat::Csv,
        ExportFormat::Csv => ExportFormat::Text,
        ExportFormat::Text => ExportFormat::Json,
    }
}

impl ExportFormat {
    /// The format named `value`: `json`, `csv`, or `txt`/`text`.
    pub fn parse(value: &str) -> (r: Option<Self>)
        ensures
            r == format_named(value@),
    {
        let v = chars_of(value);
        if crate::text::is_text(v.as_slice(), "json") {
            Some(ExportFormat::Json)
        } else if crate::text::is_text(v.as_slice(), "csv") {
            Some(ExportFormat::Csv)
        } else if crate::text::is_text(v.as_slice(), "txt") || crate::text::is_text(v.as_slice(), "text") {
            Some(ExportFormat::Text)
        } else {
            None
        }
    }

    /// The short name of this format.
    pub fn label(self) -> (r: &'static str)
        ensures
            r@ == format_label(self),
    {
        match self {
            ExportFormat::Json => "json",
            ExportFormat::Csv => "csv",
            ExportFormat::Text => "txt",
        }
    }

    /// The file extension of this format (its short name).
    pub fn extension(self) -> (r: &'static str)
        ensures
            r@ == format_label(self),
    {
        self.label()
    }

    /// The next format in the cycle JSON, CSV, text.
    pub fn next(self) -> (r: Self)
        ensures
            r == format_after(self),
    {
        match self {
            ExportFormat::Json => ExportFormat::Csv,
            ExportFormat::Csv => ExportFormat::Text,
            ExportFormat::Text => ExportFormat::Json,
        }
    }
}

/// Law: stepping to the next format three times comes back to the start,
/// and each step changes the format.
pub proof fn law_format_cycle(f: ExportFormat)
    ensures
        format_after(format_after(format_after(f))) == f,
        format_after(f) != f,
{
}

/// Law: a format's label names that format.
pub proof fn law_label_names_format(f: ExportFormat)
    ensures
        format_named(format_label(f)) == Some(f),
{
    reveal_strlit("json");
    reveal_strlit("csv");
    reveal_strlit("txt");
    reveal_strlit("text");
    assert("csv"@.len() != "json"@.len());
    assert("txt"@.len() != "json"@.len());
    assert("txt"@[0] != "csv"@[0]);
}

/// The standard path buffer type.
#[verifier::external_type_specification]
#[verifier::external_body]
pub struct ExPathBuf(std::path::PathBuf);

/// Where an export was written and how many matches it holds.
pub struct ExportResult {
    pub path: std::path::PathBuf,
    pub matches: usize,
}

/// Whether `c` is a control character (general category Cc:
/// U+0000 to U+001F and U+007F to U+009F), as `char::is_control` decides.
pub open spec fn is_control(c: char) -> bool {
    (c as u32) <= 0x1f || (0x7f <= (c as u32) && (c as u32) <= 0x9f)
}

/// The lower-case hexadecimal digit for `d` (taken modulo sixteen).
pub open spec fn hex_char(d: nat) -> char {
    let d = d % 16;
    if d < 10 {
        crate::text::digit_char(d)
    } else if d == 10 {
        'a'
    } else if d == 11 {
        'b'
    } else if d == 12 {
        'c'
    } else if d == 13 {
        'd'
    } else if d == 14 {
        'e'
    } else {
        'f'
    }
}

/// Four lower-case hexadecimal digits of `n` (below 0x10000).
pub open spec fn hex4(n: nat) -> Seq<char> {
    seq![hex_char(n / 4096), hex_char(n / 256), hex_char(n / 16), hex_char(n)]
}

/// How one character is written inside a JSON string.
pub open spec fn json_char(c: char) -> Seq<char> {
    if c == '"' {
        "\\\""@
    } else if c == '\\' {
        "\\\\"@
    } else if c == '\n' {
        "\\n"@
    } else if c == '\r' {
        "\\r"@
    } else if c == '\t' {
        "\\t"@
    } else if is_control(c) {
        "\\u"@ + hex4((c as u32) as nat)
    } else {
        seq![c]
    }
}

/// `s` escaped for a JSON string.
pub open spec fn json_escaped(s: Seq<char>) -> Seq<char>
    decreases s.len(),
{
    if s.len() == 0 {
        seq![]
    } else {
        json_escaped(s.drop_last()) + json_char(s.last())
    }
}

/// The escape of one character holds no control character.
proof fn lemma_json_char_printable(c: char)
    ensures
        forall|i: int| 0 <= i < json_char(c).len() ==> !is_control(#[trigger] json_char(c)[i]),
{
    reveal_strlit("\\\"");
    reveal_strlit("\\\\");
    reveal_strlit("\\n");
    reveal_strlit("\\r");
    reveal_strlit("\\t");
    reveal_strlit("\\u");
    if is_control(c) && !(c == '"' || c == '\\' || c == '\n' || c == '\r' || c == '\t') {
        let n = (c as u32) as nat;
        assert forall|i: int| 0 <= i < json_char(c).len() implies !is_control(#[trigger] json_char(c)[i]) by {
            assert(json_char(c) == "\\u"@ + hex4(n));
            if i >= 2 {
                let d = json_char(c)[i];
                assert(d == hex4(n)[i - 2]);
            }
        }
    }
}

/// JSON law: an escaped string holds no control character (line breaks
/// and tabs included), so it can stand between the quotes of a JSON string.
pub proof fn law_json_escaped_has_no_control(s: Seq<char>)
    ensures
        forall|i: int| 0 <= i < json_escaped(s).len() ==> !is_control(#[trigger] json_escaped(s)[i]),
    decreases s.len(),
{
    if s.len() > 0 {
        law_json_escaped_has_no_control(s.drop_last());
        lemma_json_char_printable(s.last());
        let a = json_escaped(s.drop_last());
        let b = json_char(s.last());
        assert forall|i: int| 0 <= i < json_escaped(s).len() implies !is_control(#[trigger] json_escaped(s)[i]) by {
            assert(json_escaped(s) == a + b);
            if i < a.len() {
                assert(json_escaped(s)[i] == a[i]);
            } else {
                assert(json_escaped(s)[i] == b[i - a.len()]);
            }
        }
    }
}

/// The value of a hexadecimal digit, of either case.
pub open spec fn hex_digit_value(c: char) -> Option<nat> {
    let n = c as u32;
    if 0x30 <= n <= 0x39 {
        Some((n - 0x30) as nat)
    } else if 0x61 <= n <= 0x66 {
        Some((n - 0x57) as nat)
    } else if 0x41 <= n <= 0x46 {
        Some((n - 0x37) as nat)
    } else {
        None
    }
}

/// The number written by the four hexadecimal digits of `t` from `i`.
pub open spec fn hex4_value(t: Seq<char>, i: int) -> Option<nat> {
    if i < 0 || i + 4 > t.len() {
        None
    } else {
        match (
            hex_digit_value(t[i]),
            hex_digit_value(t[i + 1]),
            hex_digit_value(t[i + 2]),
            hex_digit_value(t[i + 3]),
        ) {
            (Some(a), Some(b), Some(c), Some(d)) => Some(a * 4096 + b * 256 + c * 16 + d),
            _ => None,
        }
    }
}

/// The first character written at the front of the inside of a JSON string
/// `t`, with how many characters of `t` write it (RFC 8259): a character
/// other than a quote, a backslash or a control character below U+0020
/// stands for itself; a backslash starts one of the escapes `\"`, `\\`,
/// `\/`, `\b`, `\f`, `\n`, `\r`, `\t` or `\uXXXX`, where a high
/// surrogate must be followed by an escaped low one. `None` when `t` does
/// not start with one of these.
pub open spec fn json_unit(t: Seq<char>) -> Option<(char, int)> {
    if t.len() == 0 {
        None
    } else if t[0] != '\\' {
        if t[0] == '"' || (t[0] as u32) < 0x20 {
            None
        } else {
            Some((t[0], 1))
        }
    } else if t.len() < 2 {
        None
    } else {
        let e = t[1];
        if e == '"' {
            Some(('"', 2))
        } else if e == '\\' {
            Some(('\\', 2))
        } else if e == '/' {
            Some(('/', 2))
        } else if e == 'b' {
            Some(('\u{8}', 2))
        } else if e == 'f' {
            Some(('\u{c}', 2))
        } else if e == 'n' {
            Some(('\n', 2))
        } else if e == 'r' {
            Some(('\r', 2))
        } else if e == 't' {
            Some(('\t', 2))
        } else if e == 'u' {
            match hex4_value(t, 2) {
                None => None,
                Some(v) => if v < 0xD800 || v > 0xDFFF {
                    Some((((v as u32) as char), 6))
                } else if v <= 0xDBFF && t.len() >= 12 && t[6] == '\\' && t[7] == 'u' {
                    match hex4_value(t, 8) {
                        Some(w) => if 0xDC00 <= w <= 0xDFFF {
                            Some(((((v - 0xD800) * 1024 + (w - 0xDC00) + 0x10000) as u32) as char, 12))
                        } else {
                            None
                        },
                        None => None,
                    }
                } else {
                    None
                },
            }
        } else {
            None
        }
    }
}

/// The characters that the inside of a JSON string `t` stands for, or
/// `None` when `t` is not a valid inside of a JSON string.
pub open spec fn json_unescaped(t: Seq<char>) -> Option<Seq<char>>
    decreases t.len(),
{
    if t.len() == 0 {
        Some(seq![])
    } else {
        match json_unit(t) {
            Some((c, n)) => if 1 <= n <= t.len() {
                match json_unescaped(t.skip(n)) {
                    Some(rest) => Some(seq![c] + rest),
                    None => None,
                }
            } else {
                None
            },
            None => None,
        }
    }
}

/// Escaping a concatenation escapes each part.
proof fn lemma_json_escaped_concat(a: Seq<char>, b: Seq<char>)
    ensures
        json_escaped(a + b) == json_escaped(a) + json_escaped(b),
    decreases b.len(),
{
    if b.len() == 0 {
        assert(a + b =~= a);
        assert(json_escaped(a) + json_escaped(b) =~= json_escaped(a));
    } else {
        lemma_json_escaped_concat(a, b.drop_last());
        assert((a + b).drop_last() =~= a + b.drop_last());
        assert((a + b).last() == b.last());
        assert(json_escaped(a + b) =~= json_escaped(a) + json_escaped(b));
    }
}

/// A hexadecimal digit written by `hex_char` reads back as its value.
proof fn lemma_hex_char_value(d: nat)
    ensures
        hex_digit_value(hex_char(d)) == Some(d % 16),
{
}

/// The escape of a character, followed by anything, starts with a unit
/// that stands for that character and is exactly the escape.
proof fn lemma_json_char_unit(c: char, rest: Seq<char>)
    ensures
        json_unit(json_char(c) + rest) == Some((c, json_char(c).len() as int)),
        json_char(c).len() >= 1,
{
    reveal_strlit("\\\"");
    reveal_strlit("\\\\");
    reveal_strlit("\\n");
    reveal_strlit("\\r");
    reveal_strlit("\\t");
    reveal_strlit("\\u");
    let t = json_char(c) + rest;
    if c == '"' || c == '\\' || c == '\n' || c == '\r' || c == '\t' {
        assert(t[0] == json_char(c)[0] && t[1] == json_char(c)[1]);
    } else if is_control(c) {
        let n = (c as u32) as nat;
        assert(n <= 0x9f);
        let h = hex4(n);
        assert(json_char(c) == "\\u"@ + h);
        assert(json_char(c).len() == 6);
        assert(t[0] == '\\' && t[1] == 'u');
        assert(t[2] == h[0] && t[3] == h[1] && t[4] == h[2] && t[5] == h[3]);
        lemma_hex_char_value(n / 4096);
        lemma_hex_char_value(n / 256);
        lemma_hex_char_value(n / 16);
        lemma_hex_char_value(n);
        assert(n / 4096 == 0 && n / 256 == 0);
        assert((n / 16) % 16 * 16 + n % 16 == n);
        assert(hex4_value(t, 2) == Some(n));
        vstd::utf8::char_u32_cast(c, c as u32);
    } else {
        assert(t[0] == c);
    }
}

/// JSON law: the escape of `s`, put between the quotes of a JSON string,
/// reads back as exactly `s`.
pub proof fn law_json_escaped_reads_back(s: Seq<char>)
    ensures
        json_unescaped(json_escaped(s)) == Some(s),
    decreases s.len(),
{
    if s.len() > 0 {
        let c = s[0];
        let tail = s.drop_first();
        assert(s =~= seq![c] + tail);
        lemma_json_escaped_concat(seq![c], tail);
        assert(seq![c].drop_last() =~= Seq::<char>::empty());
        assert(seq![c].last() == c);
        assert(json_escaped(seq![c].drop_last()) =~= Seq::<char>::empty());
        assert(json_escaped(seq![c]) =~= json_char(c));
        let t = json_escaped(s);
        assert(t == json_char(c) + json_escaped(tail));
        lemma_json_char_unit(c, json_escaped(tail));
        assert(t.skip(json_char(c).len() as int) =~= json_escaped(tail));
        law_json_escaped_reads_back(tail);
        assert(seq![c] + tail =~= s);
    }
}

/// Whether a CSV field holding `s` must be quoted.
pub open spec fn csv_needs_quotes(s: Seq<char>) -> bool {
    s.contains(',') || s.contains('"') || s.contains('\r') || s.contains('\n')
}

/// `s` with each double quote doubled.
pub open spec fn doubled_quotes(s: Seq<char>) -> Seq<char>
    decreases s.len(),
{
    if s.len() == 0 {
        seq![]
    } else if s.last() == '"' {
        doubled_quotes(s.drop_last()) + "\"\""@
    } else {
        doubled_quotes(s.drop_last()).push(s.last())
    }
}

/// `s` as a CSV field: quoted, with doubled quotes, when it holds a comma,
/// a quote or a line break; unchanged otherwise.
pub open spec fn csv_escaped(s: Seq<char>) -> Seq<char> {
    if csv_needs_quotes(s) {
        "\""@ + doubled_quotes(s) + "\""@
    } else {
        s
    }
}

/// The characters that the inside of a quoted CSV field `t` stands for: a
/// pair of double quotes is one double quote, every other character stands
/// for itself; `None` when a double quote stands alone.
pub open spec fn csv_unquoted(t: Seq<char>) -> Option<Seq<char>>
    decreases t.len(),
{
    if t.len() == 0 {
        Some(seq![])
    } else if t[0] == '"' {
        if t.len() >= 2 && t[1] == '"' {
            match csv_unquoted(t.skip(2)) {
                Some(rest) => Some(seq!['"'] + rest),
                None => None,
            }
        } else {
            None
        }
    } else {
        match csv_unquoted(t.skip(1)) {
            Some(rest) => Some(seq![t[0]] + rest),
            None => None,
        }
    }
}

/// The value that one CSV field `t` stands for (RFC 4180): a field that
/// starts with a double quote must end with one, and what lies between
/// them is read by `csv_unquoted`; any other field stands for itself and
/// may hold no comma, double quote or line break. `None` for a malformed
/// field.
pub open spec fn csv_field_value(t: Seq<char>) -> Option<Seq<char>> {
    if t.len() > 0 && t[0] == '"' {
        if t.len() >= 2 && t.last() == '"' {
            csv_unquoted(t.subrange(1, t.len() - 1))
        } else {
            None
        }
    } else if csv_needs_quotes(t) {
        None
    } else {
        Some(t)
    }
}

/// Doubling the quotes of a concatenation doubles those of each part.
proof fn lemma_doubled_quotes_concat(a: Seq<char>, b: Seq<char>)
    ensures
        doubled_quotes(a + b) == doubled_quotes(a) + doubled_quotes(b),
    decreases b.len(),
{
    if b.len() == 0 {
        assert(a + b =~= a);
        assert(doubled_quotes(a) + doubled_quotes(b) =~= doubled_quotes(a));
    } else {
        lemma_doubled_quotes_concat(a, b.drop_last());
        assert((a + b).drop_last() =~= a + b.drop_last());
        assert((a + b).last() == b.last());
        assert(doubled_quotes(a + b) =~= doubled_quotes(a) + doubled_quotes(b));
    }
}

/// The inside of a quoted field made by doubling the quotes of `s` reads
/// back as `s`.
proof fn lemma_doubled_quotes_read_back(s: Seq<char>)
    ensures
        csv_unquoted(doubled_quotes(s)) == Some(s),
    decreases s.len(),
{
    reveal_strlit("\"\"");
    if s.len() > 0 {
        let c = s[0];
        let tail = s.drop_first();
        assert(s =~= seq![c] + tail);
        lemma_doubled_quotes_concat(seq![c], tail);
        assert(seq![c].drop_last() =~= Seq::<char>::empty());
        assert(seq![c].last() == c);
        assert(doubled_quotes(seq![c].drop_last()) =~= Seq::<char>::empty());
        let t = doubled_quotes(s);
        let rest = doubled_quotes(tail);
        lemma_doubled_quotes_read_back(tail);
        if c == '"' {
            assert(doubled_quotes(seq![c]) =~= "\"\""@);
            assert(t == "\"\""@ + rest);
            assert(t[0] == '"' && t[1] == '"');
            assert(t.skip(2) =~= rest);
        } else {
            assert(doubled_quotes(seq![c]) =~= seq![c]);
            assert(t == seq![c] + rest);
            assert(t[0] == c);
            assert(t.skip(1) =~= rest);
        }
        assert(seq![c] + tail =~= s);
    }
}

/// CSV law: the field written for `s` reads back, as one RFC 4180 field, as
/// exactly `s`.
pub proof fn law_csv_escaped_reads_back(s: Seq<char>)
    ensures
        csv_field_value(csv_escaped(s)) == Some(s),
{
    reveal_strlit("\"");
    let t = csv_escaped(s);
    if csv_needs_quotes(s) {
        let q = doubled_quotes(s);
        assert(t == "\""@ + q + "\""@);
        assert(t.len() == q.len() + 2);
        assert(t[0] == '"');
        assert(t.last() == '"');
        assert(t.subrange(1, t.len() - 1) =~= q);
        lemma_doubled_quotes_read_back(s);
    } else if s.len() > 0 && s[0] == '"' {
        assert(s.contains('"'));
    }
}

fn hex_digit(d: u32) -> (c: char)
    requires
        d < 16,
    ensures
        c == hex_char(d as nat),
{
    if d == 0 {
        '0'
    } else if d == 1 {
        '1'
    } else if d == 2 {
        '2'
    } else if d == 3 {
        '3'
    } else if d == 4 {
        '4'
    } else if d == 5 {
        '5'
    } else if d == 6 {
        '6'
    } else if d == 7 {
        '7'
    } else if d == 8 {
        '8'
    } else if d == 9 {
        '9'
    } else if d == 10 {
        'a'
    } else if d == 11 {
        'b'
    } else if d == 12 {
        'c'
    } else if d == 13 {
        'd'
    } else if d == 14 {
        'e'
    } else {
        'f'
    }
}

/// Whether `c` is a control character (`char::is_control`).
fn control_char(c: char) -> (r: bool)
    ensures
        r == is_control(c),
{
    let n = c as u32;
    n <= 0x1f || (0x7f <= n && n <= 0x9f)
}

/// `value` escaped for a JSON string.
fn json_escape_chars(value: &[char]) -> (r: Vec<char>)
    ensures
        r@ == json_escaped(value@),
{
    let mut out: Vec<char> = Vec::new();
    let mut k: usize = 0;
    while k < value.len()
        invariant
            k <= value@.len(),
            out@ == json_escaped(value@.take(k as int)),
        decreases value@.len() - k,
    {
        let ch = value[k];
        if ch == '"' {
            push_str(&mut out, "\\\"");
        } else if ch == '\\' {
            push_str(&mut out, "\\\\");
        } else if ch == '\n' {
            push_str(&mut out, "\\n");
        } else if ch == '\r' {
            push_str(&mut out, "\\r");
        } else if ch == '\t' {
            push_str(&mut out, "\\t");
        } else if control_char(ch) {
            let n = ch as u32;
            push_str(&mut out, "\\u");
            out.push(hex_digit((n / 4096) % 16));
            out.push(hex_digit((n / 256) % 16));
            out.push(hex_digit((n / 16) % 16));
            out.push(hex_digit(n % 16));
            assert(hex_char((n / 4096) as nat) == hex_char(((n / 4096) % 16) as nat));
            assert(hex_char((n / 256) as nat) == hex_char(((n / 256) % 16) as nat));
            assert(hex_char((n / 16) as nat) == hex_char(((n / 16) % 16) as nat));
        } else {
            out.push(ch);
        }
        assert(value@.take(k + 1).drop_last() =~= value@.take(k as int));
        assert(value@.take(k + 1).last() == ch);
        k = k + 1;
        assert(out@ =~= json_escaped(value@.take(k as int)));
    }
    assert(value@.take(value@.len() as int) =~= value@);
    out
}

/// `value` escaped for a JSON string: quotes, backslashes and control
/// characters are written as escapes.
pub fn json_escape(value: &str) -> (r: String)
    ensures
        r@ == json_escaped(value@),
{
    let v = chars_of(value);
    let e = json_escape_chars(v.as_slice());
    string_from(e.as_slice())
}

/// `value` as a CSV field.
fn csv_escape_chars(value: &[char]) -> (r: Vec<char>)
    ensures
        r@ == csv_escaped(value@),
{
    let mut needs = false;
    let mut k: usize = 0;
    while k < value.len()
        invariant
            k <= value@.len(),
            needs == csv_needs_quotes(value@.take(k as int)),
        decreases value@.len() - k,
    {
        let ch = value[k];
        let ghost before = value@.take(k as int);
        let ghost after = value@.take(k + 1);
        assert(after =~= before.push(ch));
        assert forall|c: char| after.contains(c) <==> (before.contains(c) || c == ch) by {
            if after.contains(c) {
                let i = choose|i: int| 0 <= i < after.len() && after[i] == c;
                if i < before.len() {
                    assert(before[i] == c);
                }
            }
            if before.contains(c) {
                let i = choose|i: int| 0 <= i < before.len() && before[i] == c;
                assert(after[i] == c);
            }
            if c == ch {
                assert(after[k as int] == c);
            }
        }
        if ch == ',' || ch == '"' || ch == '\r' || ch == '\n' {
            needs = true;
        }
        k = k + 1;
    }
    assert(value@.take(value@.len() as int) =~= value@);
    if !needs {
        let mut out: Vec<char> = Vec::new();
        push_all(&mut out, value);
        return out;
    }
    let mut out = vec_of("\"");
    let mut k: usize = 0;
    while k < value.len()
        invariant
            k <= value@.len(),
            out@ == "\""@ + doubled_quotes(value@.take(k as int)),
        decreases value@.len() - k,
    {
        let ch = value[k];
        if ch == '"' {
            push_str(&mut out, "\"\"");
        } else {
            out.push(ch);
        }
        assert(value@.take(k + 1).drop_last() =~= value@.take(k as int));
        k = k + 1;
        assert(out@ =~= "\""@ + doubled_quotes(value@.take(k as int)));
    }
    push_str(&mut out, "\"");
    out
}

/// `value` as a CSV field: wrapped in double quotes, with its own quotes
/// doubled, when it holds a comma, a quote or a line break.
pub fn csv_escape(value: &str) -> (r: String)
    ensures
        r@ == csv_escaped(value@),
{
    let v = chars_of(value);
    let e = csv_escape_chars(v.as_slice());
    string_from(e.as_slice())
}

/// A match of a regex: each group's byte range and text, if it took part.
pub type MatchView = Seq<Option<(usize, usize, Seq<char>)>>;

/// The key under which capture group `idx` is exported: its name, or its
/// index when it has none.
pub open spec fn capture_key(names: Seq<Option<Seq<char>>>, idx: int) -> Seq<char> {
    if 0 <= idx < names.len() && names[idx] is Some {
        names[idx]->0
    } else {
        decimal(idx as nat)
    }
}

/// The JSON members of the first `n` groups of a match that took part.
pub open spec fn capture_members(m: MatchView, names: Seq<Option<Seq<char>>>, n: int) -> Seq<Seq<char>>
    decreases n,
{
    if n <= 0 {
        seq![]
    } else {
        let before = capture_members(m, names, n - 1);
        match m[n - 1] {
            Some((_, _, text)) => before.push(
                "\""@ + json_escaped(capture_key(names, n - 1)) + "\":\""@ + json_escaped(text) + "\""@,
            ),
            None => before,
        }
    }
}

/// `items` joined with commas.
pub open spec fn comma_joined(items: Seq<Seq<char>>) -> Seq<char>
    decreases items.len(),
{
    if items.len() == 0 {
        seq![]
    } else if items.len() == 1 {
        items[0]
    } else {
        comma_joined(items.drop_last()) + ","@ + items.last()
    }
}

/// The JSON object mapping each participating group's key to its text.
pub open spec fn captures_json(m: MatchView, names: Seq<Option<Seq<char>>>) -> Seq<char> {
    "{"@ + comma_joined(capture_members(m, names, m.len() as int)) + "}"@
}

/// `s` without its trailing carriage returns and line feeds.
pub open spec fn trim_line_end(s: Seq<char>) -> Seq<char>
    decreases s.len(),
{
    if s.len() > 0 && (s.last() == '\r' || s.last() == '\n') {
        trim_line_end(s.drop_last())
    } else {
        s
    }
}

/// The record of one match, whose whole-match group spans `start..end`
/// with text `text`, found on line `line`.
pub open spec fn match_record(
    f: ExportFormat,
    line: nat,
    start: usize,
    end: usize,
    text: Seq<char>,
    m: MatchView,
    names: Seq<Option<Seq<char>>>,
) -> Seq<char> {
    match f {
        ExportFormat::Json => "{\"line\":"@ + decimal(line) + ",\"match_start\":"@ + decimal(start as nat)
            + ",\"match_end\":"@ + decimal(end as nat) + ",\"match\":\""@ + json_escaped(text)
            + "\",\"captures\":"@ + captures_json(m, names) + "}"@,
        ExportFormat::Csv => decimal(line) + ","@ + decimal(start as nat) + ","@ + decimal(end as nat)
            + ","@ + csv_escaped(text) + ","@ + csv_escaped(captures_json(m, names)) + "\n"@,
        ExportFormat::Text => decimal(line) + ":"@ + decimal(start as nat) + "-"@ + decimal(end as nat)
            + " "@ + trim_line_end(text) + "\n"@,
    }
}

/// The records of the non-empty matches among `ms`, all on line `line`,
/// and how many there are. JSON records are separated by a comma and a line
/// break, including from earlier records when `any_before` holds.
pub open spec fn line_records(
    f: ExportFormat,
    line: nat,
    ms: Seq<MatchView>,
    names: Seq<Option<Seq<char>>>,
    any_before: bool,
) -> (Seq<char>, nat)
    decreases ms.len(),
{
    if ms.len() == 0 {
        (seq![], 0)
    } else {
        let (text, n) = line_records(f, line, ms.drop_last(), names, any_before);
        let m = ms.last();
        if m.len() == 0 {
            (text, n)
        } else {
            match m[0] {
                Some((start, end, matched)) => if start == end {
                    (text, n)
                } else {
                    let sep = if f == ExportFormat::Json && (any_before || n > 0) {
                        ",\n"@
                    } else {
                        seq![]
                    };
                    (text + sep + match_record(f, line, start, end, matched, m, names), n + 1)
                },
                None => (text, n),
            }
        }
    }
}

/// What an export file starts with.
pub open spec fn export_header_text(f: ExportFormat) -> Seq<char> {
    match f {
        ExportFormat::Json => "[\n"@,
        ExportFormat::Csv => "line,match_start,match_end,match,captures\n"@,
        ExportFormat::Text => seq![],
    }
}

/// What an export file ends with.
pub open spec fn export_footer_text(f: ExportFormat) -> Seq<char> {
    match f {
        ExportFormat::Json => "\n]\n"@,
        _ => seq![],
    }
}

/// The beginning of an export file in format `format`.
pub fn export_header(format: ExportFormat) -> (r: String)
    ensures
        r@ == export_header_text(format),
{
    match format {
        ExportFormat::Json => string_from(vec_of("[\n").as_slice()),
        ExportFormat::Csv => string_from(vec_of("line,match_start,match_end,match,captures\n").as_slice()),
        ExportFormat::Text => string_from(Vec::new().as_slice()),
    }
}

/// The end of an export file in format `format`.
pub fn export_footer(format: ExportFormat) -> (r: String)
    ensures
        r@ == export_footer_text(format),
{
    match format {
        ExportFormat::Json => string_from(vec_of("\n]\n").as_slice()),
        _ => string_from(Vec::new().as_slice()),
    }
}

/// The JSON object of the participating capture groups of a match.
fn captures_json_chars(m: &Vec<Option<GroupMatch>>, names: &Vec<Option<String>>, ghost_names: Ghost<Seq<Option<Seq<char>>>>) -> (r: Vec<char>)
    requires
        names@.len() == ghost_names@.len(),
        forall|k: int|
            0 <= k < names@.len() ==> match #[trigger] names@[k] {
                Some(name) => ghost_names@[k] == Some(name@),
                None => ghost_names@[k] is None,
            },
    ensures
        r@ == captures_json(m@.map_values(|x: Option<GroupMatch>| group_view(x)), ghost_names@),
{
    let ghost mv = m@.map_values(|x: Option<GroupMatch>| group_view(x));
    let mut out = vec_of("{");
    let mut first = true;
    let mut idx: usize = 0;
    while idx < m.len()
        invariant
            idx <= m@.len(),
            mv == m@.map_values(|x: Option<GroupMatch>| group_view(x)),
            names@.len() == ghost_names@.len(),
            forall|k: int|
                0 <= k < names@.len() ==> match #[trigger] names@[k] {
                    Some(name) => ghost_names@[k] == Some(name@),
                    None => ghost_names@[k] is None,
                },
            first == (capture_members(mv, ghost_names@, idx as int).len() == 0),
            out@ == "{"@ + comma_joined(capture_members(mv, ghost_names@, idx as int)),
        decreases m@.len() - idx,
    {
        let ghost before = capture_members(mv, ghost_names@, idx as int);
        assert(mv[idx as int] == group_view(m@[idx as int]));
        match &m[idx] {
            Some(found) => {
                if !first {
                    push_str(&mut out, ",");
                }
                first = false;
                let mut key: Vec<char> = Vec::new();
                if idx < names.len() && names[idx].is_some() {
                    match &names[idx] {
                        Some(name) => push_str(&mut key, name.as_str()),
                        None => {},
                    }
                } else {
                    push_decimal(&mut key, idx as u64);
                }
                assert(key@ == capture_key(ghost_names@, idx as int));
                let mut member = vec_of("\"");
                push_all(&mut member, json_escape_chars(key.as_slice()).as_slice());
                push_str(&mut member, "\":\"");
                let text = chars_of(found.text.as_str());
                push_all(&mut member, json_escape_chars(text.as_slice()).as_slice());
                push_str(&mut member, "\"");
                push_all(&mut out, member.as_slice());
                proof {
                    let after = capture_members(mv, ghost_names@, idx + 1);
                    assert(after == before.push(member@));
                    if before.len() > 0 {
                        assert(after.drop_last() =~= before);
                        assert(comma_joined(after) == comma_joined(before) + ","@ + member@);
                    } else {
                        assert(comma_joined(after) == member@);
                    }
                }
            },
            None => {},
        }
        idx = idx + 1;
        assert(out@ =~= "{"@ + comma_joined(capture_members(mv, ghost_names@, idx as int)));
    }
    push_str(&mut out, "}");
    out
}

/// `s` without its trailing carriage returns and line feeds.
fn trim_line_end_chars(s: &[char]) -> (r: Vec<char>)
    ensures
        r@ == trim_line_end(s@),
{
    let mut k: usize = s.len();
    assert(s@.subrange(0, s@.len() as int) =~= s@);
    while k > 0 && (s[k - 1] == '\r' || s[k - 1] == '\n')
        invariant
            k <= s@.len(),
            trim_line_end(s@) == trim_line_end(s@.subrange(0, k as int)),
        decreases k,
    {
        assert(s@.subrange(0, k as int).drop_last() =~= s@.subrange(0, k - 1));
        k = k - 1;
    }
    let mut r: Vec<char> = Vec::new();
    let mut j: usize = 0;
    while j < k
        invariant
            j <= k <= s@.len(),
            r@ == s@.subrange(0, j as int),
        decreases k - j,
    {
        r.push(s[j]);
        j = j + 1;
        assert(r@ =~= s@.subrange(0, j as int));
    }
    r
}

/// The record of one match.
fn match_record_chars(
    format: ExportFormat,
    line: usize,
    found: &GroupMatch,
    m: &Vec<Option<GroupMatch>>,
    names: &Vec<Option<String>>,
    ghost_names: Ghost<Seq<Option<Seq<char>>>>,
) -> (r: Vec<char>)
    requires
        names@.len() == ghost_names@.len(),
        forall|k: int|
            0 <= k < names@.len() ==> match #[trigger] names@[k] {
                Some(name) => ghost_names@[k] == Some(name@),
                None => ghost_names@[k] is None,
            },
    ensures
        r@ == match_record(
            format,
            line as nat,
            found.start,
            found.end,
            found.text@,
            m@.map_values(|x: Option<GroupMatch>| group_view(x)),
            ghost_names@,
        ),
{
    let text = chars_of(found.text.as_str());
    let mut r: Vec<char> = Vec::new();
    match format {
        ExportFormat::Json => {
            push_str(&mut r, "{\"line\":");
            push_decimal(&mut r, line as u64);
            push_str(&mut r, ",\"match_start\":");
            push_decimal(&mut r, found.start as u64);
            push_str(&mut r, ",\"match_end\":");
            push_decimal(&mut r, found.end as u64);
            push_str(&mut r, ",\"match\":\"");
            push_all(&mut r, json_escape_chars(text.as_slice()).as_slice());
            push_str(&mut r, "\",\"captures\":");
            push_all(&mut r, captures_json_chars(m, names, ghost_names).as_slice());
            push_str(&mut r, "}");
        },
        ExportFormat::Csv => {
            push_decimal(&mut r, line as u64);
            push_str(&mut r, ",");
            push_decimal(&mut r, found.start as u64);
            push_str(&mut r, ",");
            push_decimal(&mut r, found.end as u64);
            push_str(&mut r, ",");
            push_all(&mut r, csv_escape_chars(text.as_slice()).as_slice());
            push_str(&mut r, ",");
            let captures = captures_json_chars(m, names, ghost_names);
            push_all(&mut r, csv_escape_chars(captures.as_slice()).as_slice());
            push_str(&mut r, "\n");
        },
        ExportFormat::Text => {
            push_decimal(&mut r, line as u64);
            push_str(&mut r, ":");
            push_decimal(&mut r, found.start as u64);
            push_str(&mut r, "-");
            push_decimal(&mut r, found.end as u64);
            push_str(&mut r, " ");
            push_all(&mut r, trim_line_end_chars(text.as_slice()).as_slice());
            push_str(&mut r, "\n");
        },
    }
    r
}

/// The records of the non-empty matches of `regex` in the line numbered
/// `line_number` (its bytes decoded as UTF-8, invalid sequences replaced),
/// and how many there are; `any_before` tells whether records were already
/// written, which JSON separates with a comma and a line break.
pub fn export_line(
    re: &CompiledRegex,
    format: ExportFormat,
    line_number: usize,
    line: &[u8],
    any_before: bool,
) -> (r: (String, usize))
    ensures
        (r.0@, r.1 as nat) == line_records(
            format,
            line_number as nat,
            re.matches_in(utf8_lossy(line@)),
            re.names(),
            any_before,
        ),
{
    let text = decode_lossy(line);
    let names = capture_names(re);
    let all = captures_in(re, text.as_str());
    let ghost ms = re.matches_in(utf8_lossy(line@));
    let ghost gn = re.names();
    let is_json = match format {
        ExportFormat::Json => true,
        _ => false,
    };
    let mut out: Vec<char> = Vec::new();
    let mut count: usize = 0;
    let mut k: usize = 0;
    while k < all.len()
        invariant
            k <= all@.len(),
            count <= k,
            ms == matches_view(all@),
            is_json == (format == ExportFormat::Json),
            names@.len() == gn.len(),
            forall|j: int|
                0 <= j < names@.len() ==> match #[trigger] names@[j] {
                    Some(name) => gn[j] == Some(name@),
                    None => gn[j] is None,
                },
            (out@, count as nat) == line_records(format, line_number as nat, ms.take(k as int), gn, any_before),
        decreases all@.len() - k,
    {
        let m = &all[k];
        let ghost mk = ms[k as int];
        assert(mk == m@.map_values(|x: Option<GroupMatch>| group_view(x)));
        assert(ms.take(k + 1).drop_last() =~= ms.take(k as int));
        assert(ms.take(k + 1).last() == mk);
        if m.len() > 0 {
            assert(mk[0] == group_view(m@[0]));
            match &m[0] {
                Some(found) => {
                    if found.start != found.end {
                        if is_json && (any_before || count > 0) {
                            push_str(&mut out, ",\n");
                        }
                        let record = match_record_chars(format, line_number, found, m, &names, Ghost(gn));
                        push_all(&mut out, record.as_slice());
                        count = count + 1;
                    }
                },
                None => {},
            }
        }
        k = k + 1;
        assert(out@ =~= line_records(format, line_number as nat, ms.take(k as int), gn, any_before).0);
    }
    assert(ms.take(all@.len() as int) =~= ms);
    (string_from(out.as_slice()), count)
}

} // verus!
