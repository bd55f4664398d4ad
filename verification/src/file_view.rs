//! The line index of a file and the lines shown from it.
//!
//! The file itself is read elsewhere; this module keeps where its lines
//! start (every 128th line start is kept as a checkpoint) and turns the
//! bytes of a line into the line shown.

use vstd::prelude::*;

use crate::text::{chars_of, decode_lossy, string_from, utf8_lossy};

verus! {

/// Lines indexed beyond the visible window.
pub const VIEW_MARGIN_LINES: usize = 120;

/// The most bytes of a line that are shown.
pub const MAX_LINE_BYTES: usize = 32768;

/// Every this many lines a line start is kept.
pub const LINE_CHECKPOINT_STRIDE: usize = 128;

/// A line as shown: its 1-based number, its text without the line ending,
/// and whether it was cut at `MAX_LINE_BYTES`.
pub struct TextLine {
    pub number: usize,
    pub text: String,
    pub truncated: bool,
}

/// `s` without its trailing carriage returns and line feeds.
pub open spec fn trim_line_breaks(s: Seq<char>) -> Seq<char>
    decreases s.len(),
{
    if s.len() > 0 && (s.last() == '\r' || s.last() == '\n') {
        trim_line_breaks(s.drop_last())
    } else {
        s
    }
}

/// The line numbered `number` read as `bytes` (line ending included): at
/// most `MAX_LINE_BYTES` bytes are kept, decoded with invalid UTF-8
/// replaced, and the trailing line breaks removed.
pub fn text_line(number: usize, bytes: &[u8]) -> (r: TextLine)
    ensures
        r.number == number,
        r.truncated == (bytes@.len() > MAX_LINE_BYTES),
        r.text@ == trim_line_breaks(
            utf8_lossy(
                if bytes@.len() > MAX_LINE_BYTES {
                    bytes@.take(MAX_LINE_BYTES as int)
                } else {
                    bytes@
                },
            ),
        ),
{
    let truncated = bytes.len() > MAX_LINE_BYTES;
    let kept: &[u8] = if truncated {
        slice_prefix(bytes, MAX_LINE_BYTES)
    } else {
        bytes
    };
    let decoded = decode_lossy(kept);
    let mut chars = chars_of(decoded.as_str());
    while chars.len() > 0 && (chars[chars.len() - 1] == '\r' || chars[chars.len() - 1] == '\n')
        invariant
            trim_line_breaks(chars@) == trim_line_breaks(decoded@),
        decreases chars@.len(),
    {
        chars.pop();
    }
    TextLine { number, text: string_from(chars.as_slice()), truncated }
}

/// The first `n` bytes of `bytes` (`<[u8]>::split_at`, first half).
fn slice_prefix(bytes: &[u8], n: usize) -> (r: &[u8])
    requires
        n <= bytes@.len(),
    ensures
        r@ == bytes@.take(n as int),
{
    let (head, _) = bytes.split_at(n);
    assert(head@ =~= bytes@.take(n as int));
    head
}

/// Where the known lines of a file start. Line starts are learned in file
/// order, one line length at a time; every `LINE_CHECKPOINT_STRIDE`-th start
/// is kept as a checkpoint from which a line can be found again.
pub struct LineIndex {
    line_checkpoints: Vec<u64>,
    indexed_lines: usize,
    indexed_offset: u64,
    eof: bool,
    starts: Ghost<Seq<u64>>,
}

impl LineIndex {
    /// The starts of the known lines, in order.
    pub closed spec fn starts(&self) -> Seq<u64> {
        self.starts@
    }

    /// Whether the end of the file has been reached.
    pub closed spec fn at_end(&self) -> bool {
        self.eof
    }

    /// The known line starts, the first at zero, each after the one before,
    /// and the checkpoints hold every `LINE_CHECKPOINT_STRIDE`-th of them.
    pub closed spec fn wf(&self) -> bool {
        let s = self.starts@;
        &&& s.len() == self.indexed_lines
        &&& s.len() >= 1
        &&& s[0] == 0
        &&& s.last() == self.indexed_offset
        &&& forall|i: int, j: int| 0 <= i < j < s.len() ==> s[i] < s[j]
        &&& self.line_checkpoints@.len() == (s.len() - 1) / (LINE_CHECKPOINT_STRIDE as int) + 1
        &&& forall|k: int|
            0 <= k < self.line_checkpoints@.len() ==> #[trigger] self.line_checkpoints@[k] == s[k
                * LINE_CHECKPOINT_STRIDE]
    }

    /// An index that knows only that the first line starts at zero.
    pub fn new() -> (r: Self)
        ensures
            r.wf(),
            r.starts() == seq![0u64],
            !r.at_end(),
    {
        let mut line_checkpoints: Vec<u64> = Vec::new();
        line_checkpoints.push(0);
        let ghost first: Seq<u64> = seq![0u64];
        LineIndex { line_checkpoints, indexed_lines: 1, indexed_offset: 0, eof: false, starts: Ghost(first) }
    }

    /// The number of lines whose start is known.
    pub fn known_lines(&self) -> (r: usize)
        requires
            self.wf(),
        ensures
            r == self.starts().len(),
    {
        self.indexed_lines
    }

    /// Where the next line to index starts.
    pub fn indexed_offset(&self) -> (r: u64)
        requires
            self.wf(),
        ensures
            r == self.starts().last(),
    {
        self.indexed_offset
    }

    /// Whether line `line` (0-based) still has to be indexed: the end of the
    /// file has not been reached and its start is not known.
    pub fn needs_line(&self, line: usize) -> (r: bool)
        requires
            self.wf(),
        ensures
            r == (!self.at_end() && line >= self.starts().len()),
    {
        !self.eof && line >= self.indexed_lines
    }

    /// Records that the last known line is `read` bytes long, which gives
    /// the start of the next line.
    pub fn record_line(&mut self, read: u64)
        requires
            old(self).wf(),
            read > 0,
            old(self).starts().last() + read <= u64::MAX,
            old(self).starts().len() < usize::MAX,
        ensures
            final(self).wf(),
            final(self).starts() == old(self).starts().push((old(self).starts().last() + read) as u64),
            final(self).at_end() == old(self).at_end(),
    {
        let ghost s = self.starts@;
        self.indexed_offset = self.indexed_offset + read;
        if self.indexed_lines % 128 == 0 {
            self.line_checkpoints.push(self.indexed_offset);
        }
        self.indexed_lines = self.indexed_lines + 1;
        self.starts = Ghost(s.push(self.indexed_offset));
        proof {
            let n = s.len();
            let t = self.starts@;
            assert forall|i: int, j: int| 0 <= i < j < t.len() implies t[i] < t[j] by {
                if j < n {
                    assert(t[i] == s[i] && t[j] == s[j]);
                } else {
                    assert(t[i] == s[i]);
                    assert(s[i] <= s[n - 1]);
                }
            }
            if n % 128 == 0 {
                assert((t.len() - 1) / 128 == (n - 1) / 128 + 1) by (nonlinear_arith)
                    requires
                        t.len() == n + 1,
                        n % 128 == 0,
                        n >= 1,
                ;
                let last = (n - 1) / 128 + 1;
                assert(last * 128 == n) by (nonlinear_arith)
                    requires
                        last == (n - 1) / 128 + 1,
                        n % 128 == 0,
                        n >= 1,
                ;
                assert forall|k: int| 0 <= k < self.line_checkpoints@.len() implies #[trigger] self.line_checkpoints@[k]
                    == t[k * 128] by {
                    if k < last {
                        assert(k * 128 < n) by (nonlinear_arith)
                            requires
                                k < last,
                                last * 128 == n,
                        ;
                        assert(old(self).line_checkpoints@[k] == s[k * 128]);
                    }
                }
            } else {
                assert((t.len() - 1) / 128 == (n - 1) / 128) by (nonlinear_arith)
                    requires
                        t.len() == n + 1,
                        n % 128 != 0,
                        n >= 1,
                ;
                assert forall|k: int| 0 <= k < self.line_checkpoints@.len() implies #[trigger] self.line_checkpoints@[k]
                    == t[k * 128] by {
                    assert(k * 128 <= n - 1) by (nonlinear_arith)
                        requires
                            0 <= k < (n - 1) / 128 + 1,
                            n >= 1,
                    ;
                    assert(old(self).line_checkpoints@[k] == s[k * 128]);
                }
            }
        }
    }

    /// Records that the end of the file was reached.
    pub fn record_eof(&mut self)
        requires
            old(self).wf(),
        ensures
            final(self).wf(),
            final(self).starts() == old(self).starts(),
            final(self).at_end(),
    {
        self.eof = true;
    }

    /// The checkpoint to read line `line` (0-based, known) from: the line
    /// it belongs to, at most `LINE_CHECKPOINT_STRIDE - 1` lines before, and
    /// where that line starts.
    pub fn checkpoint_for(&self, line: usize) -> (r: (usize, u64))
        requires
            self.wf(),
            line < self.starts().len(),
        ensures
            r.0 == line / LINE_CHECKPOINT_STRIDE * LINE_CHECKPOINT_STRIDE,
            r.0 <= line,
            r.1 == self.starts()[r.0 as int],
    {
        let idx = line / 128;
        let checkpoint_line = idx * 128;
        assert(idx < self.line_checkpoints@.len()) by (nonlinear_arith)
            requires
                idx == line / 128,
                line < self.starts@.len(),
                self.line_checkpoints@.len() == (self.starts@.len() - 1) / 128 + 1,
        ;
        assert(self.line_checkpoints@[idx as int] == self.starts@[idx * 128]);
        (checkpoint_line, self.line_checkpoints[idx])
    }
}

} // verus!
