//! The debugger's screen state and what each key, click and paste does to
//! it.
//!
//! Keys arrive as plain values (a key code, the modifier bits and whether it
//! was a press); `binding` says which command a key stands for and
//! `after_command` what the command does. Reading the file, exporting and
//! the clock stay outside: a command that needs more lines of the file
//! indexed, or an export, says so in its effect.

use vstd::prelude::*;

use crate::explain::{explain, explanation};
use crate::export::{format_after, format_label, ExportFormat};
use crate::match_index::{fresh_state, nav_next, nav_prev, MatchIndex, ScanMessage, after_messages};
use crate::regex_debug::{
    capture_descriptions, capture_line, compile_regex, regex_build_error, CompiledRegex, RegexFlags,
};
use crate::text::{
    byte_len, char_width, chars_of, decimal, lemma_byte_len_prefix, lemma_byte_len_push, push_all,
    push_decimal, push_str, string_from, string_lines, vec_of,
};

verus! {

/// The Shift modifier bit.
pub const SHIFT: u8 = 1;

/// The Control modifier bit.
pub const CONTROL: u8 = 2;

/// The Alt modifier bit.
pub const ALT: u8 = 4;

/// Lines moved by Page Up and Page Down.
pub const PAGE_LINES: usize = 25;

/// Lines moved by one turn of the mouse wheel.
pub const WHEEL_LINES: usize = 3;

/// The narrowest the right panel gets, in percent of the width.
pub const PANEL_MIN_PERCENT: u16 = 20;

/// The widest the right panel gets, in percent of the width.
pub const PANEL_MAX_PERCENT: u16 = 60;

/// A key of the keyboard.
#[derive(Clone, Copy)]
pub enum KeyCode {
    Char(char),
    Enter,
    Esc,
    F(u8),
    Left,
    Right,
    Up,
    Down,
    Home,
    End,
    PageUp,
    PageDown,
    Backspace,
    Delete,
    Other,
}

/// A key event: the key, the modifier bits held, and whether it is a press
/// (rather than a repeat or a release).
#[derive(Clone, Copy)]
pub struct KeyPress {
    pub code: KeyCode,
    pub modifiers: u8,
    pub press: bool,
}

/// What a key asks for.
#[derive(Clone, Copy)]
pub enum Command {
    Quit,
    SaveHistory,
    ToggleFrequency,
    ToggleStatus,
    ToggleCollapse,
    ToggleCaseInsensitive,
    ToggleMultiLine,
    ToggleDotMatchesNewLine,
    NextMatch,
    PrevMatch,
    CycleExportFormat,
    Export,
    ShrinkPanel,
    GrowPanel,
    Insert(char),
    Backspace,
    Delete,
    CursorLeft,
    CursorRight,
    ScrollTop,
    CursorHome,
    ScrollBottom,
    CursorEnd,
    HistoryPrev,
    HistoryNext,
    ScrollUp(usize),
    ScrollDown(usize),
    Nothing,
}

/// The key bindings.
pub open spec fn binding(key: KeyPress) -> Command {
    let m = key.modifiers;
    if !key.press {
        Command::Nothing
    } else {
        match key.code {
            KeyCode::Char(c) => if c == 'c' && m == CONTROL {
                Command::Quit
            } else if c == 'g' && m == ALT {
                Command::ToggleCollapse
            } else if c == 'i' && m == ALT {
                Command::ToggleCaseInsensitive
            } else if c == 'm' && m == ALT {
                Command::ToggleMultiLine
            } else if c == 's' && m == ALT {
                Command::ToggleDotMatchesNewLine
            } else if c == 'n' && m == ALT {
                Command::NextMatch
            } else if c == 'p' && m == ALT {
                Command::PrevMatch
            } else if c == 'e' && m == ALT {
                Command::CycleExportFormat
            } else if c == 'e' && m == CONTROL {
                Command::Export
            } else if m == 0 || m == SHIFT {
                Command::Insert(c)
            } else {
                Command::Nothing
            },
            KeyCode::Esc => Command::Quit,
            KeyCode::Enter => Command::SaveHistory,
            KeyCode::F(n) => if n == 2 {
                Command::ToggleFrequency
            } else if n == 3 {
                Command::ToggleStatus
            } else if n == 4 {
                Command::ToggleCollapse
            } else if n == 5 {
                Command::ToggleCaseInsensitive
            } else if n == 6 {
                Command::ToggleMultiLine
            } else if n == 7 {
                Command::ToggleDotMatchesNewLine
            } else if n == 8 {
                Command::NextMatch
            } else if n == 9 {
                Command::PrevMatch
            } else {
                Command::Nothing
            },
            KeyCode::Left => if m == ALT {
                Command::ShrinkPanel
            } else {
                Command::CursorLeft
            },
            KeyCode::Right => if m == ALT {
                Command::GrowPanel
            } else {
                Command::CursorRight
            },
            KeyCode::Home => if m == CONTROL {
                Command::ScrollTop
            } else {
                Command::CursorHome
            },
            KeyCode::End => if m == CONTROL {
                Command::ScrollBottom
            } else {
                Command::CursorEnd
            },
            KeyCode::Up => if m == CONTROL {
                Command::HistoryPrev
            } else {
                Command::ScrollUp(1)
            },
            KeyCode::Down => if m == CONTROL {
                Command::HistoryNext
            } else {
                Command::ScrollDown(1)
            },
            KeyCode::PageUp => Command::ScrollUp(PAGE_LINES),
            KeyCode::PageDown => Command::ScrollDown(PAGE_LINES),
            KeyCode::Backspace => Command::Backspace,
            KeyCode::Delete => Command::Delete,
            KeyCode::Other => Command::Nothing,
        }
    }
}

/// The command a key stands for.
pub fn command_for(key: KeyPress) -> (r: Command)
    ensures
        r == binding(key),
{
    if !key.press {
        return Command::Nothing;
    }
    let m = key.modifiers;
    match key.code {
        KeyCode::Char(c) => {
            if c == 'c' && m == CONTROL {
                Command::Quit
            } else if c == 'g' && m == ALT {
                Command::ToggleCollapse
            } else if c == 'i' && m == ALT {
                Command::ToggleCaseInsensitive
            } else if c == 'm' && m == ALT {
                Command::ToggleMultiLine
            } else if c == 's' && m == ALT {
                Command::ToggleDotMatchesNewLine
            } else if c == 'n' && m == ALT {
                Command::NextMatch
            } else if c == 'p' && m == ALT {
                Command::PrevMatch
            } else if c == 'e' && m == ALT {
                Command::CycleExportFormat
            } else if c == 'e' && m == CONTROL {
                Command::Export
            } else if m == 0 || m == SHIFT {
                Command::Insert(c)
            } else {
                Command::Nothing
            }
        },
        KeyCode::Esc => Command::Quit,
        KeyCode::Enter => Command::SaveHistory,
        KeyCode::F(n) => {
            if n == 2 {
                Command::ToggleFrequency
            } else if n == 3 {
                Command::ToggleStatus
            } else if n == 4 {
                Command::ToggleCollapse
            } else if n == 5 {
                Command::ToggleCaseInsensitive
            } else if n == 6 {
                Command::ToggleMultiLine
            } else if n == 7 {
                Command::ToggleDotMatchesNewLine
            } else if n == 8 {
                Command::NextMatch
            } else if n == 9 {
                Command::PrevMatch
            } else {
                Command::Nothing
            }
        },
        KeyCode::Left => if m == ALT {
            Command::ShrinkPanel
        } else {
            Command::CursorLeft
        },
        KeyCode::Right => if m == ALT {
            Command::GrowPanel
        } else {
            Command::CursorRight
        },
        KeyCode::Home => if m == CONTROL {
            Command::ScrollTop
        } else {
            Command::CursorHome
        },
        KeyCode::End => if m == CONTROL {
            Command::ScrollBottom
        } else {
            Command::CursorEnd
        },
        KeyCode::Up => if m == CONTROL {
            Command::HistoryPrev
        } else {
            Command::ScrollUp(1)
        },
        KeyCode::Down => if m == CONTROL {
            Command::HistoryNext
        } else {
            Command::ScrollDown(1)
        },
        KeyCode::PageUp => Command::ScrollUp(PAGE_LINES),
        KeyCode::PageDown => Command::ScrollDown(PAGE_LINES),
        KeyCode::Backspace => Command::Backspace,
        KeyCode::Delete => Command::Delete,
        KeyCode::Other => Command::Nothing,
    }
}

/// What must happen outside after a command: nothing, indexing the file's
/// lines up to `VIEW_MARGIN_LINES` past the given line, or an export of the
/// current matches.
#[derive(Clone, Copy)]
pub enum Effect {
    Nothing,
    IndexFrom(usize),
    Export,
}

/// What a key did: the outside work it asks for, and whether the pattern
/// was edited (which restarts the wait before it is compiled).
#[derive(Clone, Copy)]
pub struct KeyOutcome {
    pub effect: Effect,
    pub edited: bool,
}

/// A rectangle of the screen.
#[derive(Clone, Copy)]
pub struct Area {
    pub x: u16,
    pub y: u16,
    pub width: u16,
    pub height: u16,
}

/// Whether the cell at column `x`, row `y` lies in `area`.
pub open spec fn inside(area: Area, x: u16, y: u16) -> bool {
    let right: int = if area.x + area.width > u16::MAX { u16::MAX as int } else { area.x + area.width };
    let bottom: int = if area.y + area.height > u16::MAX { u16::MAX as int } else { area.y + area.height };
    x >= area.x && y >= area.y && x < right && y < bottom
}

/// Whether the cell at column `x`, row `y` lies in `area` (its right and
/// bottom edges saturating at the screen's limit).
pub fn contains(area: Area, x: u16, y: u16) -> (r: bool)
    ensures
        r == inside(area, x, y),
{
    x >= area.x && y >= area.y && x < area.x.saturating_add(area.width) && y < area.y.saturating_add(
        area.height,
    )
}

/// What the mouse did.
#[derive(Clone, Copy)]
pub enum MouseKind {
    LeftDown,
    ScrollUp,
    ScrollDown,
    Other,
}

/// A mouse event at a cell of the screen.
#[derive(Clone, Copy)]
pub struct MouseInput {
    pub kind: MouseKind,
    pub column: u16,
    pub row: u16,
}

/// The plain state that keys act on.
pub struct EditorView {
    pub input: Seq<char>,
    pub cursor_chars: nat,
    pub flags: RegexFlags,
    pub scroll_line: usize,
    pub collapse_matches: bool,
    pub frequency_collapsed: bool,
    pub status_collapsed: bool,
    pub right_panel_percent: u16,
    pub export_format: ExportFormat,
    pub export_status: Option<Seq<char>>,
    pub should_quit: bool,
    pub dirty: bool,
    pub history: Seq<Seq<char>>,
    pub history_cursor: Option<usize>,
}

/// The state after a command, the outside work it asks for, and whether
/// the pattern was edited.
pub struct EditorStep {
    pub view: EditorView,
    pub effect: Effect,
    pub edited: bool,
}

/// The largest index of a list of `n` items (zero for an empty one).
pub open spec fn last_index(n: usize) -> usize {
    if n > 0 {
        (n - 1) as usize
    } else {
        0
    }
}

/// The smaller of two numbers.
pub open spec fn at_most(a: int, b: int) -> int {
    if a <= b {
        a
    } else {
        b
    }
}

/// The pattern marked as edited: it waits to be compiled, history browsing
/// stops and the export message goes.
pub open spec fn edited(v: EditorView) -> EditorView {
    EditorView { dirty: true, history_cursor: None, export_status: None, ..v }
}

/// `v` with `text` put at the cursor and the cursor after it.
pub open spec fn with_text_at_cursor(v: EditorView, text: Seq<char>) -> EditorView {
    EditorView {
        input: v.input.take(v.cursor_chars as int) + text + v.input.skip(v.cursor_chars as int),
        cursor_chars: v.cursor_chars + text.len(),
        ..v
    }
}

/// `history` with every entry equal to `x` removed, the others kept in
/// order.
pub open spec fn without(history: Seq<Seq<char>>, x: Seq<char>) -> Seq<Seq<char>>
    decreases history.len(),
{
    if history.len() == 0 {
        history
    } else if history.last() == x {
        without(history.drop_last(), x)
    } else {
        without(history.drop_last(), x).push(history.last())
    }
}

/// The history after saving pattern `x`: unchanged for an empty pattern or
/// one already last; otherwise `x` moves (or is added) to the end.
pub open spec fn saved(history: Seq<Seq<char>>, x: Seq<char>) -> Seq<Seq<char>> {
    if x.len() == 0 || (history.len() > 0 && history.last() == x) {
        history
    } else {
        without(history, x).push(x)
    }
}

/// `v` showing history entry `idx` (when there is one): the pattern is that
/// entry, the cursor at its end, and it waits to be compiled.
pub open spec fn loaded(v: EditorView, idx: usize) -> EditorView {
    if idx < v.history.len() {
        EditorView {
            input: v.history[idx as int],
            cursor_chars: v.history[idx as int].len(),
            history_cursor: Some(idx),
            dirty: true,
            ..v
        }
    } else {
        v
    }
}

/// A step that changes the state only.
pub open spec fn quiet(v: EditorView) -> EditorStep {
    EditorStep { view: v, effect: Effect::Nothing, edited: false }
}

/// A step that edits the pattern.
pub open spec fn editing(v: EditorView) -> EditorStep {
    EditorStep { view: edited(v), effect: Effect::Nothing, edited: true }
}

/// Scrolling down `amount` lines: among matching lines only, at most to the
/// last one; otherwise any distance, after which the lines below must be
/// indexed.
pub open spec fn scrolled_down(v: EditorView, amount: usize, match_count: usize) -> EditorStep {
    if v.collapse_matches {
        quiet(
            EditorView {
                scroll_line: at_most(v.scroll_line + amount, last_index(match_count) as int) as usize,
                ..v
            },
        )
    } else {
        let s = (v.scroll_line + amount) as usize;
        EditorStep { view: EditorView { scroll_line: s, ..v }, effect: Effect::IndexFrom(s), edited: false }
    }
}

/// Jumping to a match: among matching lines only, one line on (or back);
/// otherwise to the line that navigation over the matching lines `lines`
/// finds from the line after the top one (`found`), which is then indexed.
pub open spec fn jumped(v: EditorView, forward: bool, lines: Seq<u32>) -> EditorStep {
    if v.collapse_matches {
        if forward {
            quiet(
                EditorView {
                    scroll_line: at_most(v.scroll_line + 1, last_index(lines.len() as usize) as int) as usize,
                    ..v
                },
            )
        } else {
            quiet(EditorView { scroll_line: last_index(v.scroll_line), ..v })
        }
    } else {
        let found = if forward {
            nav_next(lines, (v.scroll_line + 1) as usize)
        } else {
            nav_prev(lines, (v.scroll_line + 1) as usize)
        };
        match found {
            Some(line) => {
                let s = last_index(line);
                EditorStep { view: EditorView { scroll_line: s, ..v }, effect: Effect::IndexFrom(s), edited: false }
            },
            None => quiet(v),
        }
    }
}

/// What command `c` does to state `v`, given the matching lines `lines`,
/// whether a compiled regex is there, and how many lines of the file are
/// indexed.
pub open spec fn after_command(
    v: EditorView,
    c: Command,
    lines: Seq<u32>,
    has_regex: bool,
    known_lines: usize,
) -> EditorStep {
    match c {
        Command::Quit => quiet(EditorView { should_quit: true, ..v }),
        Command::SaveHistory => if v.input.len() == 0 || (v.history.len() > 0 && v.history.last() == v.input) {
            quiet(v)
        } else {
            quiet(EditorView { history: saved(v.history, v.input), history_cursor: None, ..v })
        },
        Command::ToggleFrequency => quiet(EditorView { frequency_collapsed: !v.frequency_collapsed, ..v }),
        Command::ToggleStatus => quiet(EditorView { status_collapsed: !v.status_collapsed, ..v }),
        Command::ToggleCollapse => quiet(EditorView { collapse_matches: !v.collapse_matches, scroll_line: 0, ..v }),
        Command::ToggleCaseInsensitive => editing(
            EditorView {
                flags: RegexFlags { case_insensitive: !v.flags.case_insensitive, ..v.flags },
                ..v
            },
        ),
        Command::ToggleMultiLine => editing(
            EditorView { flags: RegexFlags { multi_line: !v.flags.multi_line, ..v.flags }, ..v },
        ),
        Command::ToggleDotMatchesNewLine => editing(
            EditorView {
                flags: RegexFlags { dot_matches_new_line: !v.flags.dot_matches_new_line, ..v.flags },
                ..v
            },
        ),
        Command::NextMatch => jumped(v, true, lines),
        Command::PrevMatch => jumped(v, false, lines),
        Command::CycleExportFormat => quiet(
            EditorView {
                export_format: format_after(v.export_format),
                export_status: Some("export format: "@ + format_label(format_after(v.export_format))),
                ..v
            },
        ),
        Command::Export => if has_regex {
            EditorStep { view: v, effect: Effect::Export, edited: false }
        } else {
            quiet(EditorView { export_status: Some("export failed: regex is empty or invalid"@), ..v })
        },
        Command::ShrinkPanel => quiet(
            EditorView {
                right_panel_percent: if v.right_panel_percent >= PANEL_MIN_PERCENT + 2 {
                    (v.right_panel_percent - 2) as u16
                } else {
                    PANEL_MIN_PERCENT
                },
                ..v
            },
        ),
        Command::GrowPanel => quiet(
            EditorView {
                right_panel_percent: if v.right_panel_percent + 2 <= PANEL_MAX_PERCENT {
                    (v.right_panel_percent + 2) as u16
                } else {
                    PANEL_MAX_PERCENT
                },
                ..v
            },
        ),
        Command::Insert(ch) => editing(with_text_at_cursor(v, seq![ch])),
        Command::Backspace => if v.cursor_chars > 0 {
            editing(
                EditorView {
                    input: v.input.take(v.cursor_chars - 1int) + v.input.skip(v.cursor_chars as int),
                    cursor_chars: (v.cursor_chars - 1) as nat,
                    ..v
                },
            )
        } else {
            quiet(v)
        },
        Command::Delete => if v.cursor_chars < v.input.len() {
            editing(
                EditorView {
                    input: v.input.take(v.cursor_chars as int) + v.input.skip(v.cursor_chars + 1int),
                    ..v
                },
            )
        } else {
            quiet(v)
        },
        Command::CursorLeft => if v.cursor_chars > 0 {
            quiet(EditorView { cursor_chars: (v.cursor_chars - 1) as nat, ..v })
        } else {
            quiet(v)
        },
        Command::CursorRight => if v.cursor_chars < v.input.len() {
            quiet(EditorView { cursor_chars: v.cursor_chars + 1, ..v })
        } else {
            quiet(v)
        },
        Command::ScrollTop => quiet(EditorView { scroll_line: 0, ..v }),
        Command::CursorHome => quiet(EditorView { cursor_chars: 0, ..v }),
        Command::ScrollBottom => quiet(
            EditorView {
                scroll_line: if v.collapse_matches {
                    last_index(lines.len() as usize)
                } else {
                    last_index(known_lines)
                },
                ..v
            },
        ),
        Command::CursorEnd => quiet(EditorView { cursor_chars: v.input.len(), ..v }),
        Command::HistoryPrev => if v.history.len() == 0 {
            quiet(v)
        } else {
            let idx: usize = match v.history_cursor {
                Some(i) => last_index(i),
                None => (v.history.len() - 1) as usize,
            };
            EditorStep { view: loaded(v, idx), effect: Effect::Nothing, edited: true }
        },
        Command::HistoryNext => match v.history_cursor {
            None => quiet(v),
            Some(i) => if i + 1 >= v.history.len() {
                quiet(EditorView { history_cursor: None, ..v })
            } else {
                EditorStep { view: loaded(v, (i + 1) as usize), effect: Effect::Nothing, edited: true }
            },
        },
        Command::ScrollUp(n) => quiet(
            EditorView { scroll_line: if v.scroll_line >= n { (v.scroll_line - n) as usize } else { 0 }, ..v },
        ),
        Command::ScrollDown(n) => scrolled_down(v, n, lines.len() as usize),
        Command::Nothing => quiet(v),
    }
}

/// What a compile request starts: a scan of the file with this regex under
/// this generation.
pub struct ScanStart {
    pub regex: CompiledRegex,
    pub generation: u64,
}

/// The explanation shown for `pattern` (every pattern has one; see
/// `law_explanation_total`).
pub open spec fn shown_explanation(pattern: Seq<char>) -> Seq<Seq<char>> {
    explanation(pattern)->0
}

/// The lines explaining `pattern`.
fn explanation_for(pattern: &str) -> (r: Vec<String>)
    ensures
        string_lines(r@) == shown_explanation(pattern@),
{
    explain(pattern)
}

/// The debugger's state apart from the file and the clock.
pub struct App {
    pub regex_input: String,
    pub compiled: Option<CompiledRegex>,
    pub regex_error: Option<String>,
    pub explanation: Vec<String>,
    pub captures: Vec<String>,
    pub match_index: MatchIndex,
    pub flags: RegexFlags,
    pub scroll_line: usize,
    pub cursor: usize,
    pub collapse_matches: bool,
    pub frequency_collapsed: bool,
    pub status_collapsed: bool,
    pub right_panel_percent: u16,
    pub frequency_area: Area,
    pub status_area: Area,
    pub export_format: ExportFormat,
    pub export_status: Option<String>,
    pub should_quit: bool,
    pub history: Vec<String>,
    pub history_cursor: Option<usize>,
    pub regex_dirty: bool,
    pub cursor_chars: usize,
}

/// The plain form of an optional message.
pub open spec fn message_of(e: Option<String>) -> Option<Seq<char>> {
    match e {
        Some(s) => Some(s@),
        None => None,
    }
}

impl App {
    /// The state that keys act on.
    pub open spec fn editor(&self) -> EditorView {
        EditorView {
            input: self.regex_input@,
            cursor_chars: self.cursor_chars as nat,
            flags: self.flags,
            scroll_line: self.scroll_line,
            collapse_matches: self.collapse_matches,
            frequency_collapsed: self.frequency_collapsed,
            status_collapsed: self.status_collapsed,
            right_panel_percent: self.right_panel_percent,
            export_format: self.export_format,
            export_status: message_of(self.export_status),
            should_quit: self.should_quit,
            dirty: self.regex_dirty,
            history: string_lines(self.history@),
            history_cursor: self.history_cursor,
        }
    }

    /// The byte cursor sits after the first `cursor_chars` characters of
    /// the pattern; the pattern and every history entry fit in memory's
    /// byte count; history entries are distinct and not empty, and the
    /// history cursor (if any) is on one of them; the right panel stays
    /// between its narrowest and widest.
    pub open spec fn wf(&self) -> bool {
        &&& self.match_index.wf()
        &&& self.cursor_chars <= self.regex_input@.len()
        &&& self.cursor == byte_len(self.regex_input@.take(self.cursor_chars as int))
        &&& byte_len(self.regex_input@) <= usize::MAX
        &&& forall|k: int| 0 <= k < self.history@.len() ==> byte_len((#[trigger] self.history@[k])@) <= usize::MAX
        &&& forall|k: int| 0 <= k < self.history@.len() ==> (#[trigger] self.history@[k])@.len() > 0
        &&& forall|i: int, j: int| 0 <= i < j < self.history@.len() ==> self.history@[i]@ != self.history@[j]@
        &&& (self.history_cursor matches Some(i) ==> i < self.history@.len())
        &&& PANEL_MIN_PERCENT <= self.right_panel_percent <= PANEL_MAX_PERCENT
    }

    /// Whether the pattern waits to be compiled.
    pub open spec fn dirty(&self) -> bool {
        self.regex_dirty
    }

    /// The saved patterns, oldest first.
    pub open spec fn history(&self) -> Seq<Seq<char>> {
        string_lines(self.history@)
    }

    /// A fresh screen: empty pattern (waiting to be compiled), no matches,
    /// JSON exports, the right panel at 32 percent.
    pub fn new() -> (r: Self)
        ensures
            r.wf(),
            r.editor() == (EditorView {
                input: Seq::empty(),
                cursor_chars: 0,
                flags: RegexFlags { case_insensitive: false, multi_line: false, dot_matches_new_line: false },
                scroll_line: 0,
                collapse_matches: false,
                frequency_collapsed: false,
                status_collapsed: false,
                right_panel_percent: 32,
                export_format: ExportFormat::Json,
                export_status: None,
                should_quit: false,
                dirty: true,
                history: Seq::empty(),
                history_cursor: None,
            }),
            r.compiled is None,
            r.regex_error is None,
            string_lines(r.explanation@) == shown_explanation(Seq::empty()),
            r.captures@.len() == 0,
            r.match_index@ == fresh_state(0, 0, true),
            r.cursor == 0,
    {
        let input = String::new();
        let explanation = explanation_for(input.as_str());
        let r = App {
            regex_input: input,
            compiled: None,
            regex_error: None,
            explanation,
            captures: Vec::new(),
            match_index: MatchIndex::new(),
            flags: RegexFlags { case_insensitive: false, multi_line: false, dot_matches_new_line: false },
            scroll_line: 0,
            cursor: 0,
            collapse_matches: false,
            frequency_collapsed: false,
            status_collapsed: false,
            right_panel_percent: 32,
            frequency_area: Area { x: 0, y: 0, width: 0, height: 0 },
            status_area: Area { x: 0, y: 0, width: 0, height: 0 },
            export_format: ExportFormat::Json,
            export_status: None,
            should_quit: false,
            history: Vec::new(),
            history_cursor: None,
            regex_dirty: true,
            cursor_chars: 0,
        };
        assert(r.regex_input@.take(0) =~= Seq::<char>::empty());
        assert(vstd::utf8::encode_utf8(Seq::<char>::empty()) =~= Seq::<u8>::empty());
        assert(r.history() =~= Seq::<Seq<char>>::empty());
        r
    }

    /// Whether the pattern waits to be compiled.
    pub fn is_dirty(&self) -> (r: bool)
        ensures
            r == self.dirty(),
    {
        self.regex_dirty
    }

    /// The byte length of the pattern.
    fn input_bytes(&self) -> (r: usize)
        requires
            byte_len(self.regex_input@) <= usize::MAX,
        ensures
            r == byte_len(self.regex_input@),
    {
        self.regex_input.as_str().len()
    }

    /// Marks the pattern as edited.
    fn mark_regex_dirty(&mut self)
        requires
            old(self).wf(),
        ensures
            final(self).wf(),
            final(self).editor() == edited(old(self).editor()),
            keeps_regex_state(*old(self), *final(self)),
            final(self).cursor == old(self).cursor,
    {
        self.regex_dirty = true;
        self.history_cursor = None;
        self.export_status = None;
    }

    /// Puts `text` into the pattern at the cursor and moves the cursor after
    /// it.
    fn insert_at_cursor(&mut self, text: &[char])
        requires
            old(self).wf(),
            byte_len(old(self).regex_input@) + byte_len(text@) <= usize::MAX,
        ensures
            final(self).wf(),
            final(self).editor() == with_text_at_cursor(old(self).editor(), text@),
            keeps_regex_state(*old(self), *final(self)),
    {
        let chars = chars_of(self.regex_input.as_str());
        let ghost old_input = self.regex_input@;
        let ci = self.cursor_chars;
        let mut out: Vec<char> = Vec::new();
        push_all(&mut out, slice_to(chars.as_slice(), ci));
        push_all(&mut out, text);
        push_all(&mut out, slice_from(chars.as_slice(), ci));
        let added = byte_count(text);
        let total = out.len();
        let after = chars.len() - ci;
        proof {
            let pre = old_input.take(ci as int);
            let post = old_input.skip(ci as int);
            assert(old_input =~= pre + post);
            crate::text::lemma_byte_len_concat(pre, post);
            crate::text::lemma_byte_len_concat(pre, text@);
            crate::text::lemma_byte_len_concat(pre + text@, post);
            assert(out@.take(ci + text@.len()) =~= pre + text@);
        }
        self.regex_input = string_from(out.as_slice());
        self.cursor = self.cursor + added;
        self.cursor_chars = total - after;
    }

    /// Takes the characters at positions `from..to` out of the pattern,
    /// leaving the cursor after the first `cursor` characters.
    fn remove_chars(&mut self, from: usize, to: usize, cursor: usize)
        requires
            old(self).wf(),
            from < to <= old(self).regex_input@.len(),
            cursor <= from,
        ensures
            final(self).regex_input@ == old(self).regex_input@.take(from as int) + old(self).regex_input@.skip(
                to as int,
            ),
            final(self).cursor_chars == cursor,
            final(self).cursor == byte_len(old(self).regex_input@.take(cursor as int)),
            final(self).history == old(self).history,
            final(self).history_cursor == old(self).history_cursor,
            final(self).regex_dirty == old(self).regex_dirty,
            final(self).export_status == old(self).export_status,
            final(self).flags == old(self).flags,
            final(self).scroll_line == old(self).scroll_line,
            final(self).collapse_matches == old(self).collapse_matches,
            final(self).frequency_collapsed == old(self).frequency_collapsed,
            final(self).status_collapsed == old(self).status_collapsed,
            final(self).right_panel_percent == old(self).right_panel_percent,
            final(self).export_format == old(self).export_format,
            final(self).should_quit == old(self).should_quit,
            keeps_regex_state(*old(self), *final(self)),
            final(self).wf(),
    {
        let chars = chars_of(self.regex_input.as_str());
        let ghost old_input = self.regex_input@;
        let mut out: Vec<char> = Vec::new();
        push_all(&mut out, slice_to(chars.as_slice(), from));
        push_all(&mut out, slice_from(chars.as_slice(), to));
        let prefix = slice_to(chars.as_slice(), cursor);
        proof {
            lemma_byte_len_prefix(old_input, cursor as int, old_input.len() as int);
        }
        let bytes = byte_count(prefix);
        proof {
            let a = old_input.take(from as int);
            let m = old_input.subrange(from as int, to as int);
            let b = old_input.skip(to as int);
            assert(old_input =~= a + m + b);
            crate::text::lemma_byte_len_concat(a + m, b);
            crate::text::lemma_byte_len_concat(a, m);
            crate::text::lemma_byte_len_concat(a, b);
            assert(out@.take(cursor as int) =~= old_input.take(cursor as int));
        }
        self.regex_input = string_from(out.as_slice());
        self.cursor = bytes;
        self.cursor_chars = cursor;
    }

    /// Shows history entry `idx`: the pattern becomes that entry, the
    /// cursor goes to its end, and it waits to be compiled.
    fn load_history(&mut self, idx: usize)
        requires
            old(self).wf(),
        ensures
            final(self).wf(),
            final(self).editor() == loaded(old(self).editor(), idx),
            keeps_regex_state(*old(self), *final(self)),
    {
        if idx < self.history.len() {
            let entry = self.history[idx].clone();
            assert(entry@ == self.history@[idx as int]@);
            let chars = chars_of(entry.as_str());
            self.regex_input = entry;
            self.cursor = self.regex_input.as_str().len();
            self.cursor_chars = chars.len();
            self.history_cursor = Some(idx);
            self.regex_dirty = true;
            assert(self.regex_input@.take(self.cursor_chars as int) =~= self.regex_input@);
            assert(self.history() == old(self).history());
        }
    }

    /// Saves the pattern at the end of the history, unless it is empty or
    /// already the last entry; an earlier copy of it leaves the history.
    fn push_history_current(&mut self)
        requires
            old(self).wf(),
        ensures
            final(self).wf(),
            final(self).editor() == after_command(old(self).editor(), Command::SaveHistory, Seq::empty(), false, 0).view,
            keeps_regex_state(*old(self), *final(self)),
            final(self).cursor == old(self).cursor,
    {
        let ghost x = self.regex_input@;
        let ghost h = self.history();
        if self.regex_input.as_str().is_empty() {
            return;
        }
        let n = self.history.len();
        if n > 0 && self.history[n - 1] == self.regex_input {
            assert(h.last() == x);
            return;
        }
        let mut kept: Vec<String> = Vec::new();
        let mut k: usize = 0;
        assert(h.take(0) =~= Seq::<Seq<char>>::empty());
        while k < n
            invariant
                k <= n,
                n == self.history@.len(),
                h == self.history(),
                x == self.regex_input@,
                x.len() > 0,
                string_lines(kept@) == without(h.take(k as int), x),
                forall|i: int| 0 <= i < kept@.len() ==> exists|j: int| 0 <= j < k && (#[trigger] kept@[i])@ == h[j],
                forall|i: int, j: int| 0 <= i < j < kept@.len() ==> kept@[i]@ != kept@[j]@,
                forall|i: int| 0 <= i < kept@.len() ==> (#[trigger] kept@[i])@ != x,
                self.wf(),
            decreases n - k,
        {
            assert(h.take(k + 1).drop_last() =~= h.take(k as int));
            assert(h.take(k + 1).last() == h[k as int]);
            assert(h[k as int] == self.history@[k as int]@);
            if self.history[k] != self.regex_input {
                let ghost before = kept@;
                let entry = self.history[k].clone();
                kept.push(entry);
                assert(string_lines(kept@) =~= string_lines(before).push(h[k as int]));
                assert forall|i: int, j: int| 0 <= i < j < kept@.len() implies kept@[i]@ != kept@[j]@ by {
                    if j == kept@.len() - 1 {
                        let jj = choose|jj: int| 0 <= jj < k && (#[trigger] kept@[i])@ == h[jj];
                        assert(self.history@[jj]@ != self.history@[k as int]@);
                    }
                }
                assert forall|i: int| 0 <= i < kept@.len() implies exists|j: int| 0 <= j < k + 1 && (#[trigger] kept@[i])@ == h[j] by {
                    if i < kept@.len() - 1 {
                        assert(kept@[i] == before[i]);
                        let jj = choose|jj: int| 0 <= jj < k && (#[trigger] before[i])@ == h[jj];
                        assert(0 <= jj < k + 1 && kept@[i]@ == h[jj]);
                    } else {
                        assert(kept@[i]@ == h[k as int]);
                    }
                }
            } else {
                assert(forall|i: int| 0 <= i < kept@.len() ==> exists|j: int| 0 <= j < k + 1 && (#[trigger] kept@[i])@ == h[j]);
            }
            k = k + 1;
        }
        assert(h.take(n as int) =~= h);
        let ghost kept_before = kept@;
        kept.push(self.regex_input.clone());
        proof {
            assert(string_lines(kept@) =~= string_lines(kept_before).push(x));
            assert forall|i: int| 0 <= i < kept@.len() implies byte_len((#[trigger] kept@[i])@) <= usize::MAX && kept@[i]@.len() > 0 by {
                if i < kept@.len() - 1 {
                    let jj = choose|jj: int| 0 <= jj < n && (#[trigger] kept_before[i])@ == h[jj];
                    assert(kept@[i] == kept_before[i]);
                    assert(h[jj] == self.history@[jj]@);
                }
            }
        }
        self.history = kept;
        self.history_cursor = None;
    }

    /// Carries out command `c`; `known_lines` is how many lines of the file
    /// are indexed.
    pub fn apply(&mut self, c: Command, known_lines: usize) -> (r: KeyOutcome)
        requires
            old(self).wf(),
            command_fits(*old(self), c),
        ensures
            final(self).wf(),
            keeps_regex_state(*old(self), *final(self)),
            (EditorStep { view: final(self).editor(), effect: r.effect, edited: r.edited }) == after_command(
                old(self).editor(),
                c,
                old(self).match_index@.found.lines,
                old(self).compiled is Some,
                known_lines,
            ),
    {
        match c {
            Command::Insert(_) | Command::Backspace | Command::Delete | Command::CursorLeft
            | Command::CursorRight | Command::CursorHome | Command::CursorEnd => self.edit_text(c, known_lines),
            Command::SaveHistory | Command::HistoryPrev | Command::HistoryNext => self.browse_history(c, known_lines),
            Command::ToggleCaseInsensitive | Command::ToggleMultiLine | Command::ToggleDotMatchesNewLine => {
                self.toggle_flag(c, known_lines)
            },
            Command::CycleExportFormat | Command::Export | Command::ShrinkPanel | Command::GrowPanel => {
                self.change_panels(c, known_lines)
            },
            Command::NextMatch => self.jump_to_match(true),
            Command::PrevMatch => self.jump_to_match(false),
            Command::ScrollDown(n) => self.scroll_down(n),
            _ => self.change_view(c, known_lines),
        }
    }

    /// Carries out a command on the pattern text or its cursor.
    fn edit_text(&mut self, c: Command, known_lines: usize) -> (r: KeyOutcome)
        requires
            old(self).wf(),
            command_fits(*old(self), c),
            c is Insert || c is Backspace || c is Delete || c is CursorLeft || c is CursorRight || c is CursorHome
                || c is CursorEnd,
        ensures
            final(self).wf(),
            keeps_regex_state(*old(self), *final(self)),
            (EditorStep { view: final(self).editor(), effect: r.effect, edited: r.edited }) == after_command(
                old(self).editor(),
                c,
                old(self).match_index@.found.lines,
                old(self).compiled is Some,
                known_lines,
            ),
    {
        let nothing = KeyOutcome { effect: Effect::Nothing, edited: false };
        let changed = KeyOutcome { effect: Effect::Nothing, edited: true };
        match c {
            Command::Insert(ch) => {
                let one = vec![ch];
                proof {
                    crate::text::lemma_byte_len_push(Seq::<char>::empty(), ch);
                    assert(Seq::<char>::empty().push(ch) =~= one@);
                    assert(vstd::utf8::encode_utf8(Seq::<char>::empty()) =~= Seq::<u8>::empty());
                }
                self.insert_at_cursor(one.as_slice());
                self.mark_regex_dirty();
                changed
            },
            Command::Backspace => {
                if self.cursor_chars > 0 {
                    let ci = self.cursor_chars;
                    self.remove_chars(ci - 1, ci, ci - 1);
                    self.mark_regex_dirty();
                    changed
                } else {
                    nothing
                }
            },
            Command::Delete => {
                let len = chars_of(self.regex_input.as_str()).len();
                if self.cursor_chars < len {
                    let ci = self.cursor_chars;
                    self.remove_chars(ci, ci + 1, ci);
                    self.mark_regex_dirty();
                    changed
                } else {
                    nothing
                }
            },
            Command::CursorLeft => {
                if self.cursor_chars > 0 {
                    let chars = chars_of(self.regex_input.as_str());
                    let ci = self.cursor_chars;
                    let w = char_width(chars[ci - 1]);
                    proof {
                        let s = self.regex_input@;
                        assert(s.take(ci as int) =~= s.take(ci - 1).push(s[ci - 1]));
                        crate::text::lemma_byte_len_push(s.take(ci - 1), s[ci - 1]);
                    }
                    self.cursor = self.cursor - w;
                    self.cursor_chars = ci - 1;
                }
                nothing
            },
            Command::CursorRight => {
                let chars = chars_of(self.regex_input.as_str());
                if self.cursor_chars < chars.len() {
                    let ci = self.cursor_chars;
                    let w = char_width(chars[ci]);
                    proof {
                        let s = self.regex_input@;
                        assert(s.take(ci + 1) =~= s.take(ci as int).push(s[ci as int]));
                        crate::text::lemma_byte_len_push(s.take(ci as int), s[ci as int]);
                        lemma_byte_len_prefix(s, ci + 1, s.len() as int);
                    }
                    self.cursor = self.cursor + w;
                    self.cursor_chars = ci + 1;
                }
                nothing
            },
            Command::CursorHome => {
                self.cursor = 0;
                self.cursor_chars = 0;
                assert(self.regex_input@.take(0) =~= Seq::<char>::empty());
                assert(vstd::utf8::encode_utf8(Seq::<char>::empty()) =~= Seq::<u8>::empty());
                nothing
            },
            Command::CursorEnd => {
                let chars = chars_of(self.regex_input.as_str());
                self.cursor = self.input_bytes();
                self.cursor_chars = chars.len();
                assert(self.regex_input@.take(self.cursor_chars as int) =~= self.regex_input@);
                nothing
            },
            _ => nothing,
        }
    }

    /// Carries out a command on the history of patterns.
    fn browse_history(&mut self, c: Command, known_lines: usize) -> (r: KeyOutcome)
        requires
            old(self).wf(),
            c is SaveHistory || c is HistoryPrev || c is HistoryNext,
        ensures
            final(self).wf(),
            keeps_regex_state(*old(self), *final(self)),
            (EditorStep { view: final(self).editor(), effect: r.effect, edited: r.edited }) == after_command(
                old(self).editor(),
                c,
                old(self).match_index@.found.lines,
                old(self).compiled is Some,
                known_lines,
            ),
    {
        let nothing = KeyOutcome { effect: Effect::Nothing, edited: false };
        let changed = KeyOutcome { effect: Effect::Nothing, edited: true };
        match c {
            Command::SaveHistory => {
                self.push_history_current();
                nothing
            },
            Command::HistoryPrev => {
                if self.history.len() == 0 {
                    nothing
                } else {
                    let idx = match self.history_cursor {
                        Some(i) => if i > 0 { i - 1 } else { 0 },
                        None => self.history.len() - 1,
                    };
                    self.load_history(idx);
                    changed
                }
            },
            Command::HistoryNext => {
                match self.history_cursor {
                    None => nothing,
                    Some(i) => {
                        let n = self.history.len();
                        if i + 1 >= n {
                            self.history_cursor = None;
                            nothing
                        } else {
                            self.load_history(i + 1);
                            changed
                        }
                    },
                }
            },
            _ => nothing,
        }
    }

    /// Flips one of the regex flags.
    fn toggle_flag(&mut self, c: Command, known_lines: usize) -> (r: KeyOutcome)
        requires
            old(self).wf(),
            c is ToggleCaseInsensitive || c is ToggleMultiLine || c is ToggleDotMatchesNewLine,
        ensures
            final(self).wf(),
            keeps_regex_state(*old(self), *final(self)),
            (EditorStep { view: final(self).editor(), effect: r.effect, edited: r.edited }) == after_command(
                old(self).editor(),
                c,
                old(self).match_index@.found.lines,
                old(self).compiled is Some,
                known_lines,
            ),
    {
        match c {
            Command::ToggleCaseInsensitive => self.flags.toggle_case_insensitive(),
            Command::ToggleMultiLine => self.flags.toggle_multi_line(),
            _ => self.flags.toggle_dot_matches_new_line(),
        }
        self.mark_regex_dirty();
        KeyOutcome { effect: Effect::Nothing, edited: true }
    }

    /// Carries out a command on what is shown.
    fn change_view(&mut self, c: Command, known_lines: usize) -> (r: KeyOutcome)
        requires
            old(self).wf(),
            !(c is Insert || c is Backspace || c is Delete || c is CursorLeft || c is CursorRight || c is CursorHome
                || c is CursorEnd || c is SaveHistory || c is HistoryPrev || c is HistoryNext
                || c is ToggleCaseInsensitive || c is ToggleMultiLine || c is ToggleDotMatchesNewLine
                || c is NextMatch || c is PrevMatch || c is ScrollDown || c is CycleExportFormat || c is Export
                || c is ShrinkPanel || c is GrowPanel),
        ensures
            final(self).wf(),
            keeps_regex_state(*old(self), *final(self)),
            (EditorStep { view: final(self).editor(), effect: r.effect, edited: r.edited }) == after_command(
                old(self).editor(),
                c,
                old(self).match_index@.found.lines,
                old(self).compiled is Some,
                known_lines,
            ),
    {
        let nothing = KeyOutcome { effect: Effect::Nothing, edited: false };
        match c {
            Command::Quit => {
                self.should_quit = true;
                nothing
            },
            Command::ToggleFrequency => {
                self.frequency_collapsed = !self.frequency_collapsed;
                nothing
            },
            Command::ToggleStatus => {
                self.status_collapsed = !self.status_collapsed;
                nothing
            },
            Command::ToggleCollapse => {
                self.collapse_matches = !self.collapse_matches;
                self.scroll_line = 0;
                nothing
            },
            Command::ScrollTop => {
                self.scroll_line = 0;
                nothing
            },
            Command::ScrollBottom => {
                let n = if self.collapse_matches {
                    self.match_index.matching_line_count()
                } else {
                    known_lines
                };
                self.scroll_line = if n > 0 { n - 1 } else { 0 };
                nothing
            },
            Command::ScrollUp(n) => {
                self.scroll_line = if self.scroll_line >= n { self.scroll_line - n } else { 0 };
                nothing
            },
            _ => nothing,
        }
    }

    /// Carries out a command on the panels or the export settings.
    fn change_panels(&mut self, c: Command, known_lines: usize) -> (r: KeyOutcome)
        requires
            old(self).wf(),
            c is CycleExportFormat || c is Export || c is ShrinkPanel || c is GrowPanel,
        ensures
            final(self).wf(),
            keeps_regex_state(*old(self), *final(self)),
            (EditorStep { view: final(self).editor(), effect: r.effect, edited: r.edited }) == after_command(
                old(self).editor(),
                c,
                old(self).match_index@.found.lines,
                old(self).compiled is Some,
                known_lines,
            ),
    {
        let nothing = KeyOutcome { effect: Effect::Nothing, edited: false };
        match c {
            Command::CycleExportFormat => {
                self.export_format = self.export_format.next();
                let mut text = vec_of("export format: ");
                push_str(&mut text, self.export_format.label());
                self.export_status = Some(string_from(text.as_slice()));
                nothing
            },
            Command::Export => {
                if self.compiled.is_some() {
                    KeyOutcome { effect: Effect::Export, edited: false }
                } else {
                    self.export_status = Some(string_from(vec_of("export failed: regex is empty or invalid").as_slice()));
                    nothing
                }
            },
            Command::ShrinkPanel => {
                self.right_panel_percent = if self.right_panel_percent >= 22 {
                    self.right_panel_percent - 2
                } else {
                    20
                };
                nothing
            },
            Command::GrowPanel => {
                self.right_panel_percent = if self.right_panel_percent <= 58 {
                    self.right_panel_percent + 2
                } else {
                    60
                };
                nothing
            },
            _ => nothing,
        }
    }

    /// Scrolls down `amount` lines.
    fn scroll_down(&mut self, amount: usize) -> (r: KeyOutcome)
        requires
            old(self).wf(),
            old(self).scroll_line + amount <= usize::MAX,
        ensures
            final(self).wf(),
            keeps_regex_state(*old(self), *final(self)),
            (EditorStep { view: final(self).editor(), effect: r.effect, edited: r.edited }) == scrolled_down(
                old(self).editor(),
                amount,
                old(self).match_index@.found.lines.len() as usize,
            ),
    {
        if self.collapse_matches {
            let count = self.match_index.matching_line_count();
            let last = if count > 0 { count - 1 } else { 0 };
            let target = self.scroll_line + amount;
            self.scroll_line = if target <= last { target } else { last };
            KeyOutcome { effect: Effect::Nothing, edited: false }
        } else {
            self.scroll_line = self.scroll_line + amount;
            KeyOutcome { effect: Effect::IndexFrom(self.scroll_line), edited: false }
        }
    }

    /// Jumps to the next (or previous) match.
    fn jump_to_match(&mut self, forward: bool) -> (r: KeyOutcome)
        requires
            old(self).wf(),
            old(self).scroll_line + 1 <= usize::MAX,
        ensures
            final(self).wf(),
            keeps_regex_state(*old(self), *final(self)),
            (EditorStep { view: final(self).editor(), effect: r.effect, edited: r.edited }) == jumped(
                old(self).editor(),
                forward,
                old(self).match_index@.found.lines,
            ),
    {
        if self.collapse_matches {
            if forward {
                let count = self.match_index.matching_line_count();
                let last = if count > 0 { count - 1 } else { 0 };
                let target = self.scroll_line + 1;
                self.scroll_line = if target <= last { target } else { last };
            } else {
                self.scroll_line = if self.scroll_line > 0 { self.scroll_line - 1 } else { 0 };
            }
            return KeyOutcome { effect: Effect::Nothing, edited: false };
        }
        let found = if forward {
            self.match_index.next_line_after(self.scroll_line + 1)
        } else {
            self.match_index.prev_line_before(self.scroll_line + 1)
        };
        match found {
            Some(line) => {
                self.scroll_line = if line > 0 { line - 1 } else { 0 };
                KeyOutcome { effect: Effect::IndexFrom(self.scroll_line), edited: false }
            },
            None => KeyOutcome { effect: Effect::Nothing, edited: false },
        }
    }

    /// Acts on a key: the command it is bound to, carried out.
    pub fn handle_key(&mut self, key: KeyPress, known_lines: usize) -> (r: KeyOutcome)
        requires
            old(self).wf(),
            command_fits(*old(self), binding(key)),
        ensures
            final(self).wf(),
            keeps_regex_state(*old(self), *final(self)),
            (EditorStep { view: final(self).editor(), effect: r.effect, edited: r.edited }) == after_command(
                old(self).editor(),
                binding(key),
                old(self).match_index@.found.lines,
                old(self).compiled is Some,
                known_lines,
            ),
    {
        let c = command_for(key);
        self.apply(c, known_lines)
    }

    /// Acts on a mouse event: a left click on the frequency or status panel
    /// folds or unfolds it, the wheel scrolls `WHEEL_LINES` lines.
    pub fn handle_mouse(&mut self, mouse: MouseInput) -> (r: Effect)
        requires
            old(self).wf(),
            mouse.kind is ScrollDown ==> old(self).scroll_line + WHEEL_LINES <= usize::MAX,
        ensures
            final(self).wf(),
            keeps_regex_state(*old(self), *final(self)),
            (EditorStep { view: final(self).editor(), effect: r, edited: false }) == after_mouse(
                old(self).editor(),
                mouse,
                old(self).frequency_area,
                old(self).status_area,
                old(self).match_index@.found.lines.len() as usize,
            ),
    {
        match mouse.kind {
            MouseKind::LeftDown => {
                if contains(self.frequency_area, mouse.column, mouse.row) {
                    self.frequency_collapsed = !self.frequency_collapsed;
                } else if contains(self.status_area, mouse.column, mouse.row) {
                    self.status_collapsed = !self.status_collapsed;
                }
                Effect::Nothing
            },
            MouseKind::ScrollUp => {
                self.scroll_line = if self.scroll_line >= 3 { self.scroll_line - 3 } else { 0 };
                Effect::Nothing
            },
            MouseKind::ScrollDown => self.scroll_down(WHEEL_LINES).effect,
            MouseKind::Other => Effect::Nothing,
        }
    }

    /// Pastes `text` into the pattern at the cursor, its line breaks left
    /// out; whether the pattern changed (nothing is left of an empty paste
    /// or one of line breaks only).
    pub fn handle_paste(&mut self, text: &str) -> (r: bool)
        requires
            old(self).wf(),
            byte_len(old(self).regex_input@) + byte_len(text@) <= usize::MAX,
        ensures
            final(self).wf(),
            keeps_regex_state(*old(self), *final(self)),
            r == (without_breaks(text@).len() > 0),
            final(self).editor() == (if r {
                edited(with_text_at_cursor(old(self).editor(), without_breaks(text@)))
            } else {
                old(self).editor()
            }),
    {
        let chars = chars_of(text);
        let mut pasted: Vec<char> = Vec::new();
        let mut i: usize = 0;
        assert(text@.take(0) =~= Seq::<char>::empty());
        while i < chars.len()
            invariant
                i <= chars@.len(),
                chars@ == text@,
                pasted@ == without_breaks(text@.take(i as int)),
            decreases chars@.len() - i,
        {
            assert(text@.take(i + 1).drop_last() =~= text@.take(i as int));
            let c = chars[i];
            if c != '\r' && c != '\n' {
                pasted.push(c);
            }
            i = i + 1;
        }
        assert(text@.take(chars@.len() as int) =~= text@);
        if pasted.len() == 0 {
            return false;
        }
        proof {
            lemma_without_breaks_bytes(text@);
        }
        self.insert_at_cursor(pasted.as_slice());
        self.mark_regex_dirty();
        true
    }

    /// Compiles the pattern once it has waited long enough after its last
    /// edit (`waited`), as described by `compiled_as`: an empty pattern
    /// clears everything; a pattern that builds starts a new scan of a file
    /// of `file_size` bytes, which is returned; one that does not keeps its
    /// error message. The explanation follows the pattern in each case.
    pub fn maybe_compile_regex(&mut self, waited: bool, file_size: u64) -> (r: Option<ScanStart>)
        requires
            old(self).wf(),
        ensures
            final(self).wf(),
            final(self).editor() == (if old(self).regex_dirty && waited {
                EditorView { dirty: false, ..old(self).editor() }
            } else {
                old(self).editor()
            }),
            final(self).frequency_area == old(self).frequency_area,
            final(self).status_area == old(self).status_area,
            !(old(self).regex_dirty && waited) ==> keeps_regex_state(*old(self), *final(self)) && r is None,
            (old(self).regex_dirty && waited) ==> compiled_as(*old(self), *final(self), file_size, r),
    {
        if !self.regex_dirty || !waited {
            return None;
        }
        self.regex_dirty = false;
        let ghost next = vstd::wrapping::u64_specs::wrapping_add(self.match_index@.generation, 1);
        if self.regex_input.as_str().is_empty() {
            self.compiled = None;
            self.regex_error = None;
            self.explanation = explanation_for(self.regex_input.as_str());
            self.captures = Vec::new();
            self.match_index.clear();
            return None;
        }
        match compile_regex(self.regex_input.as_str(), self.flags) {
            Ok(re) => {
                self.captures = capture_descriptions(&re);
                let generation = self.match_index.start(file_size);
                let copy = re.duplicate();
                self.compiled = Some(re);
                self.regex_error = None;
                self.explanation = explanation_for(self.regex_input.as_str());
                Some(ScanStart { regex: copy, generation })
            },
            Err(err) => {
                self.compiled = None;
                self.regex_error = Some(err.message);
                self.explanation = explanation_for(self.regex_input.as_str());
                self.captures = Vec::new();
                self.match_index.clear();
                None
            },
        }
    }

    /// Takes in the scan messages that came, in order.
    pub fn drain_match_index(&mut self, messages: Vec<ScanMessage>)
        requires
            old(self).wf(),
        ensures
            final(self).wf(),
            final(self).editor() == old(self).editor(),
            final(self).match_index@ == after_messages(old(self).match_index@, messages@),
            final(self).compiled == old(self).compiled,
            final(self).regex_error == old(self).regex_error,
            final(self).explanation == old(self).explanation,
            final(self).captures == old(self).captures,
            final(self).frequency_area == old(self).frequency_area,
            final(self).status_area == old(self).status_area,
    {
        self.match_index.drain(messages);
    }

    /// Records how an export ended: how many matches went to which file, or
    /// why it failed.
    pub fn record_export(&mut self, outcome: Result<(usize, String), String>)
        requires
            old(self).wf(),
        ensures
            final(self).wf(),
            keeps_regex_state(*old(self), *final(self)),
            final(self).editor() == (EditorView { export_status: Some(export_message(outcome)), ..old(self).editor() }),
    {
        let mut text: Vec<char> = Vec::new();
        match &outcome {
            Ok((count, path)) => {
                push_str(&mut text, "exported ");
                push_decimal(&mut text, *count as u64);
                push_str(&mut text, " matches to ");
                push_str(&mut text, path.as_str());
            },
            Err(message) => {
                push_str(&mut text, "export failed: ");
                push_str(&mut text, message.as_str());
            },
        }
        self.export_status = Some(string_from(text.as_slice()));
    }
}

/// The fields that keys leave alone are the same in `a` and `b`.
pub open spec fn keeps_regex_state(a: App, b: App) -> bool {
    &&& a.compiled == b.compiled
    &&& a.regex_error == b.regex_error
    &&& a.explanation == b.explanation
    &&& a.captures == b.captures
    &&& a.match_index == b.match_index
    &&& a.frequency_area == b.frequency_area
    &&& a.status_area == b.status_area
}

/// Command `c` keeps the numbers it moves within machine limits: a scroll
/// down stays within `usize`, a jump looks from the line after the top one,
/// and a typed character keeps the pattern's byte length within `usize`.
pub open spec fn command_fits(a: App, c: Command) -> bool {
    match c {
        Command::ScrollDown(n) => a.scroll_line + n <= usize::MAX,
        Command::NextMatch => a.scroll_line + 1 <= usize::MAX,
        Command::PrevMatch => a.scroll_line + 1 <= usize::MAX,
        Command::Insert(_) => byte_len(a.regex_input@) + 4 <= usize::MAX,
        _ => true,
    }
}

/// The first `n` of `v`.
fn slice_to(v: &[char], n: usize) -> (r: &[char])
    requires
        n <= v@.len(),
    ensures
        r@ == v@.take(n as int),
{
    let (head, _) = v.split_at(n);
    assert(head@ =~= v@.take(n as int));
    head
}

/// All of `v` after the first `n`.
fn slice_from(v: &[char], n: usize) -> (r: &[char])
    requires
        n <= v@.len(),
    ensures
        r@ == v@.skip(n as int),
{
    let (_, tail) = v.split_at(n);
    assert(tail@ =~= v@.skip(n as int));
    tail
}

/// The number of bytes of `text` in UTF-8.
fn byte_count(text: &[char]) -> (r: usize)
    requires
        byte_len(text@) <= usize::MAX,
    ensures
        r == byte_len(text@),
{
    let mut total: usize = 0;
    let mut i: usize = 0;
    assert(text@.take(0) =~= Seq::<char>::empty());
    assert(vstd::utf8::encode_utf8(Seq::<char>::empty()) =~= Seq::<u8>::empty());
    while i < text.len()
        invariant
            i <= text@.len(),
            byte_len(text@) <= usize::MAX,
            total == byte_len(text@.take(i as int)),
        decreases text@.len() - i,
    {
        proof {
            assert(text@.take(i + 1) =~= text@.take(i as int).push(text@[i as int]));
            crate::text::lemma_byte_len_push(text@.take(i as int), text@[i as int]);
            lemma_byte_len_prefix(text@, i + 1, text@.len() as int);
        }
        total = total + char_width(text[i]);
        i = i + 1;
    }
    assert(text@.take(text@.len() as int) =~= text@);
    total
}


/// What a mouse event does to state `v`, given where the frequency and
/// status panels are and how many lines match.
pub open spec fn after_mouse(
    v: EditorView,
    mouse: MouseInput,
    frequency_area: Area,
    status_area: Area,
    match_count: usize,
) -> EditorStep {
    match mouse.kind {
        MouseKind::LeftDown => if inside(frequency_area, mouse.column, mouse.row) {
            quiet(EditorView { frequency_collapsed: !v.frequency_collapsed, ..v })
        } else if inside(status_area, mouse.column, mouse.row) {
            quiet(EditorView { status_collapsed: !v.status_collapsed, ..v })
        } else {
            quiet(v)
        },
        MouseKind::ScrollUp => quiet(
            EditorView { scroll_line: if v.scroll_line >= WHEEL_LINES { (v.scroll_line - WHEEL_LINES) as usize } else { 0 }, ..v },
        ),
        MouseKind::ScrollDown => {
            let step = scrolled_down(v, WHEEL_LINES, match_count);
            EditorStep { view: step.view, effect: step.effect, edited: false }
        },
        MouseKind::Other => quiet(v),
    }
}

/// `s` without its carriage returns and line feeds.
pub open spec fn without_breaks(s: Seq<char>) -> Seq<char>
    decreases s.len(),
{
    if s.len() == 0 {
        s
    } else if s.last() == '\r' || s.last() == '\n' {
        without_breaks(s.drop_last())
    } else {
        without_breaks(s.drop_last()).push(s.last())
    }
}

/// Leaving characters out does not make a text longer in bytes.
proof fn lemma_without_breaks_bytes(s: Seq<char>)
    ensures
        byte_len(without_breaks(s)) <= byte_len(s),
    decreases s.len(),
{
    if s.len() > 0 {
        lemma_without_breaks_bytes(s.drop_last());
        assert(s =~= s.drop_last().push(s.last()));
        lemma_byte_len_push(s.drop_last(), s.last());
        if !(s.last() == '\r' || s.last() == '\n') {
            lemma_byte_len_push(without_breaks(s.drop_last()), s.last());
        }
    } else {
        assert(without_breaks(s) =~= s);
    }
}

/// The message of an export's outcome.
pub open spec fn export_message(outcome: Result<(usize, String), String>) -> Seq<char> {
    match outcome {
        Ok((count, path)) => "exported "@ + decimal(count as nat) + " matches to "@ + path@,
        Err(message) => "export failed: "@ + message@,
    }
}

/// What compiling the pattern of `a` (a compile that was due) gives in `b`,
/// with `r` the scan to start: see `maybe_compile_regex`.
pub open spec fn compiled_as(a: App, b: App, file_size: u64, r: Option<ScanStart>) -> bool {
    let next = vstd::wrapping::u64_specs::wrapping_add(a.match_index@.generation, 1);
    let f = a.flags;
    &&& string_lines(b.explanation@) == shown_explanation(a.regex_input@)
    &&& if a.regex_input@.len() == 0 {
        &&& b.compiled is None
        &&& b.regex_error is None
        &&& b.captures@.len() == 0
        &&& b.match_index@ == fresh_state(next, 0, true)
        &&& r is None
    } else {
        match regex_build_error(a.regex_input@, f.case_insensitive, f.multi_line, f.dot_matches_new_line) {
            None => {
                &&& b.compiled matches Some(re) && re.source() == a.regex_input@ && re.built_flags() == f
                &&& b.regex_error is None
                &&& string_lines(b.captures@) == Seq::new(
                    b.compiled->0.names().len(),
                    |k: int| capture_line(k as nat, b.compiled->0.names()[k]),
                )
                &&& b.match_index@ == fresh_state(next, file_size, false)
                &&& r matches Some(start) && start.regex.source() == a.regex_input@ && start.regex.built_flags() == f
                    && start.generation == next
            },
            Some(message) => {
                &&& b.compiled is None
                &&& b.regex_error matches Some(e) && e@ == message
                &&& b.captures@.len() == 0
                &&& b.match_index@ == fresh_state(next, 0, true)
                &&& r is None
            },
        }
    }
}


/// Entries of `without(h, x)` are entries of `h` other than `x`, and every
/// such entry is kept.
proof fn lemma_without_contains(h: Seq<Seq<char>>, x: Seq<char>, y: Seq<char>)
    ensures
        without(h, x).contains(y) <==> (h.contains(y) && y != x),
    decreases h.len(),
{
    if h.len() > 0 {
        let t = h.drop_last();
        lemma_without_contains(t, x, y);
        assert(h =~= t.push(h.last()));
        vstd::seq_lib::lemma_seq_contains_after_push(t, h.last(), y);
        if h.last() != x {
            vstd::seq_lib::lemma_seq_contains_after_push(without(t, x), h.last(), y);
        }
    } else {
        assert(!h.contains(y));
        assert(!without(h, x).contains(y));
    }
}

/// Keeping some entries of a history with distinct entries keeps them
/// distinct.
proof fn lemma_without_distinct(h: Seq<Seq<char>>, x: Seq<char>)
    requires
        h.no_duplicates(),
    ensures
        without(h, x).no_duplicates(),
    decreases h.len(),
{
    if h.len() > 0 {
        let t = h.drop_last();
        assert(t.no_duplicates()) by {
            assert forall|i: int, j: int| 0 <= i < t.len() && 0 <= j < t.len() && i != j implies t[i] != t[j] by {
                assert(t[i] == h[i] && t[j] == h[j]);
            }
        }
        lemma_without_distinct(t, x);
        if h.last() != x {
            let w = without(t, x);
            lemma_without_contains(t, x, h.last());
            assert(!t.contains(h.last())) by {
                if t.contains(h.last()) {
                    let k = choose|k: int| 0 <= k < t.len() && t[k] == h.last();
                    assert(h[k] == h[h.len() - 1]);
                }
            }
            assert forall|i: int, j: int| 0 <= i < w.push(h.last()).len() && 0 <= j < w.push(h.last()).len() && i != j implies w.push(h.last())[i] != w.push(h.last())[j] by {
                if i == w.len() {
                    assert(w.contains(w[j]));
                } else if j == w.len() {
                    assert(w.contains(w[i]));
                }
            }
        }
    }
}

/// History law: saving a non-empty pattern leaves it as the last entry,
/// keeps the entries distinct, and keeps every other entry.
pub proof fn law_saved_history(h: Seq<Seq<char>>, x: Seq<char>)
    requires
        h.no_duplicates(),
        x.len() > 0,
    ensures
        saved(h, x).len() > 0,
        saved(h, x).last() == x,
        saved(h, x).no_duplicates(),
        forall|y: Seq<char>| saved(h, x).contains(y) <==> (h.contains(y) || y == x),
{
    if h.len() > 0 && h.last() == x {
        assert forall|y: Seq<char>| saved(h, x).contains(y) <==> (h.contains(y) || y == x) by {
            if y == x {
                assert(h[h.len() - 1] == x);
            }
        }
    } else {
        let w = without(h, x);
        lemma_without_distinct(h, x);
        lemma_without_contains(h, x, x);
        assert forall|y: Seq<char>| saved(h, x).contains(y) <==> (h.contains(y) || y == x) by {
            lemma_without_contains(h, x, y);
            vstd::seq_lib::lemma_seq_contains_after_push(w, x, y);
        }
        assert forall|i: int, j: int| 0 <= i < w.push(x).len() && 0 <= j < w.push(x).len() && i != j implies w.push(x)[i] != w.push(x)[j] by {
            if i == w.len() {
                assert(w.contains(w[j]));
            } else if j == w.len() {
                assert(w.contains(w[i]));
            }
        }
    }
}

/// Cursor law: the byte cursor of a well-formed screen (which every key,
/// click and paste keeps well formed) lies within the pattern's bytes on a
/// character boundary, so editing at it or moving it never splits a
/// character.
pub proof fn law_cursor_on_char_boundary(a: App)
    requires
        a.wf(),
    ensures
        a.cursor <= byte_len(a.regex_input@),
        vstd::utf8::is_char_boundary(vstd::utf8::encode_utf8(a.regex_input@), a.cursor as int),
{
    broadcast use vstd::utf8::encode_utf8_valid_utf8, vstd::utf8::is_char_boundary_start_end_of_seq;

    let s = a.regex_input@;
    let k = a.cursor_chars as int;
    let head = vstd::utf8::encode_utf8(s.take(k));
    let tail = vstd::utf8::encode_utf8(s.skip(k));
    let all = vstd::utf8::encode_utf8(s);
    assert(s =~= s.take(k) + s.skip(k));
    crate::text::lemma_encode_concat(s.take(k), s.skip(k));
    assert(all == head + tail);
    if tail.len() > 0 {
        assert(vstd::utf8::is_char_boundary(tail, 0));
        vstd::utf8::is_char_boundary_iff_not_is_continuation_byte(tail, 0);
        vstd::utf8::is_char_boundary_iff_not_is_continuation_byte(all, head.len() as int);
        assert(all[head.len() as int] == tail[0]);
    } else {
        assert(all.len() == head.len());
    }
}

/// Editing law: typing a character and then deleting it with Backspace
/// gives back the pattern and the cursor.
pub proof fn law_insert_then_backspace(v: EditorView, c: char, lines: Seq<u32>, has_regex: bool, known: usize)
    requires
        v.cursor_chars <= v.input.len(),
    ensures
        ({
            let typed = after_command(v, Command::Insert(c), lines, has_regex, known).view;
            let back = after_command(typed, Command::Backspace, lines, has_regex, known).view;
            back.input == v.input && back.cursor_chars == v.cursor_chars && back.dirty
        }),
{
    let typed = after_command(v, Command::Insert(c), lines, has_regex, known).view;
    let ci = v.cursor_chars as int;
    assert(typed.input.take(ci) =~= v.input.take(ci));
    assert(typed.input.skip(ci + 1) =~= v.input.skip(ci));
    assert(v.input =~= v.input.take(ci) + v.input.skip(ci));
}

/// Cursor law: moving left and then right from a cursor that is not at
/// the start comes back to it.
pub proof fn law_cursor_left_right(v: EditorView, lines: Seq<u32>, has_regex: bool, known: usize)
    requires
        0 < v.cursor_chars <= v.input.len(),
    ensures
        after_command(
            after_command(v, Command::CursorLeft, lines, has_regex, known).view,
            Command::CursorRight,
            lines,
            has_regex,
            known,
        ).view == v,
{
}

/// Flag law: toggling a flag twice restores the flags.
pub proof fn law_toggle_twice(v: EditorView, lines: Seq<u32>, has_regex: bool, known: usize)
    ensures
        after_command(
            after_command(v, Command::ToggleCaseInsensitive, lines, has_regex, known).view,
            Command::ToggleCaseInsensitive,
            lines,
            has_regex,
            known,
        ).view.flags == v.flags,
        after_command(
            after_command(v, Command::ToggleMultiLine, lines, has_regex, known).view,
            Command::ToggleMultiLine,
            lines,
            has_regex,
            known,
        ).view.flags == v.flags,
        after_command(
            after_command(v, Command::ToggleDotMatchesNewLine, lines, has_regex, known).view,
            Command::ToggleDotMatchesNewLine,
            lines,
            has_regex,
            known,
        ).view.flags == v.flags,
{
}

/// Collapsed jump law: when only matching lines are shown, the previous
/// match is one line up (staying at the top line), the next one is one line
/// down (staying at the last matching line), nothing else changes, and
/// going down then up from above the last matching line comes back.
pub proof fn law_collapsed_jumps(v: EditorView, lines: Seq<u32>, has_regex: bool, known: usize)
    requires
        v.collapse_matches,
        lines.len() <= usize::MAX,
    ensures
        ({
            let up = after_command(v, Command::PrevMatch, lines, has_regex, known);
            &&& up.view == EditorView { scroll_line: if v.scroll_line > 0 { (v.scroll_line - 1) as usize } else { 0 }, ..v }
            &&& up.effect == Effect::Nothing
            &&& !up.edited
        }),
        ({
            let down = after_command(v, Command::NextMatch, lines, has_regex, known);
            &&& v.scroll_line + 1 < lines.len() ==> down.view == EditorView { scroll_line: (v.scroll_line + 1) as usize, ..v }
            &&& lines.len() > 0 && v.scroll_line + 1 >= lines.len() ==> down.view == EditorView { scroll_line: (lines.len() - 1) as usize, ..v }
            &&& down.effect == Effect::Nothing
            &&& !down.edited
        }),
        v.scroll_line + 1 < lines.len() ==> after_command(
            after_command(v, Command::NextMatch, lines, has_regex, known).view,
            Command::PrevMatch,
            lines,
            has_regex,
            known,
        ).view == v,
{
}

/// History browsing law: going back one entry and forward again returns to
/// the entry that was shown.
pub proof fn law_history_back_and_forth(v: EditorView, lines: Seq<u32>, has_regex: bool, known: usize, i: usize)
    requires
        v.history_cursor == Some(i),
        1 <= i < v.history.len(),
    ensures
        ({
            let back = after_command(v, Command::HistoryPrev, lines, has_regex, known).view;
            let forth = after_command(back, Command::HistoryNext, lines, has_regex, known).view;
            forth.input == v.history[i as int] && forth.history_cursor == Some(i) && forth.history == v.history
        }),
{
}

} // verus!
