use vstd::prelude::*;

verus! {

// ---------------------------------------------------------------------------
// How deeply the components of an (unfolded) iCalendar text can nest.
//
// icalendar's parser recurses once for every component it opens, so a text that
// nests components thousands of levels deep exhausts the stack. Before a text is
// parsed, this module bounds the number of components the parser can have open
// at once:
//
// - On a text whose lines all have the plain shape of content lines (a `BEGIN:` or
//   `END:` line with a name, or a property whose parameters end on its own line,
//   with one kind of line ending throughout), the parser reads line by line, so
//   at most as many components are open as `BEGIN:` lines outnumber `END:` lines.
// - From the first line of another shape on, every component the parser opens
//   starts at a fresh `BEGIN:` (in any case) of the rest of the text, so counting
//   every such occurrence bounds what it can open.
// ---------------------------------------------------------------------------

/// The deepest component nesting a calendar may reach and still be parsed.
pub const MAX_NESTING: usize = 200;

/// Where the scan of a line stands.
#[derive(Clone, Copy)]
enum LineState {
    /// Nothing read yet.
    Start,
    /// The first `k` letters of `BEGIN` read (in any case).
    Begin(usize),
    /// `BEGIN:` and then name characters.
    BeginName,
    /// The first `k` letters of `END` read (in any case).
    End(usize),
    /// `END:` and then name characters.
    EndName,
    /// A property name.
    Key,
    /// Just after a `;` that starts a parameter.
    ParamStart,
    /// A parameter name.
    ParamKey,
    /// Just after the `=` of a parameter.
    ParamValueStart,
    /// Just after the opening quote of a parameter value.
    QuotedStart,
    /// Inside a quoted parameter value.
    Quoted,
    /// Just after the closing quote of a parameter value.
    QuotedEnd,
    /// Inside an unquoted parameter value.
    Unquoted,
    /// The property value, up to the end of the line.
    Value,
    /// A line of another shape was met: no line is trusted from here on.
    Bad,
}

/// The scan of a text so far.
#[derive(Clone, Copy)]
struct ScanState {
    line: LineState,
    /// A `\r` outside a value was just read; only a `\n` may follow it.
    cr: bool,
    /// `BEGIN:` lines minus `END:` lines so far (never below zero).
    depth: usize,
    /// The largest `depth` so far.
    max_depth: usize,
}

pub open spec fn is_key_char(c: char) -> bool {
    ('a' <= c && c <= 'z') || ('A' <= c && c <= 'Z') || ('0' <= c && c <= '9') || c == '.'
        || c == ',' || c == '/' || c == '_' || c == '-'
}

fn key_char(c: char) -> (r: bool)
    ensures
        r == is_key_char(c),
{
    ('a' <= c && c <= 'z') || ('A' <= c && c <= 'Z') || ('0' <= c && c <= '9') || c == '.'
        || c == ',' || c == '/' || c == '_' || c == '-'
}

/// `c` is letter `k` of `BEGIN`, in either case.
pub open spec fn is_begin_letter(k: usize, c: char) -> bool {
    if k == 0 {
        c == 'b' || c == 'B'
    } else if k == 1 {
        c == 'e' || c == 'E'
    } else if k == 2 {
        c == 'g' || c == 'G'
    } else if k == 3 {
        c == 'i' || c == 'I'
    } else if k == 4 {
        c == 'n' || c == 'N'
    } else {
        false
    }
}

fn begin_letter(k: usize, c: char) -> (r: bool)
    ensures
        r == is_begin_letter(k, c),
{
    if k == 0 {
        c == 'b' || c == 'B'
    } else if k == 1 {
        c == 'e' || c == 'E'
    } else if k == 2 {
        c == 'g' || c == 'G'
    } else if k == 3 {
        c == 'i' || c == 'I'
    } else if k == 4 {
        c == 'n' || c == 'N'
    } else {
        false
    }
}

/// `c` is letter `k` of `END`, in either case.
pub open spec fn is_end_letter(k: usize, c: char) -> bool {
    if k == 0 {
        c == 'e' || c == 'E'
    } else if k == 1 {
        c == 'n' || c == 'N'
    } else if k == 2 {
        c == 'd' || c == 'D'
    } else {
        false
    }
}

fn end_letter(k: usize, c: char) -> (r: bool)
    ensures
        r == is_end_letter(k, c),
{
    if k == 0 {
        c == 'e' || c == 'E'
    } else if k == 1 {
        c == 'n' || c == 'N'
    } else if k == 2 {
        c == 'd' || c == 'D'
    } else {
        false
    }
}

/// After a property name character: more name, the value, or a parameter.
spec fn after_key(c: char) -> LineState {
    if is_key_char(c) {
        LineState::Key
    } else if c == ':' {
        LineState::Value
    } else if c == ';' {
        LineState::ParamStart
    } else {
        LineState::Bad
    }
}

fn after_key_exec(c: char) -> (r: LineState)
    ensures
        r == after_key(c),
{
    if key_char(c) {
        LineState::Key
    } else if c == ':' {
        LineState::Value
    } else if c == ';' {
        LineState::ParamStart
    } else {
        LineState::Bad
    }
}

/// The line state after character `c`, which is neither the line's end nor a `\r`
/// outside a value.
spec fn line_step(st: LineState, c: char) -> LineState {
    match st {
        LineState::Start => if is_begin_letter(0, c) {
            LineState::Begin(1)
        } else if is_end_letter(0, c) {
            LineState::End(1)
        } else {
            after_key(c)
        },
        LineState::Begin(k) => if k < 5 && is_begin_letter(k, c) {
            LineState::Begin((k + 1) as usize)
        } else if k == 5 && c == ':' {
            LineState::BeginName
        } else {
            after_key(c)
        },
        LineState::End(k) => if k < 3 && is_end_letter(k, c) {
            LineState::End((k + 1) as usize)
        } else if k == 3 && c == ':' {
            LineState::EndName
        } else {
            after_key(c)
        },
        LineState::BeginName => if is_key_char(c) {
            LineState::BeginName
        } else {
            LineState::Bad
        },
        LineState::EndName => if is_key_char(c) {
            LineState::EndName
        } else {
            LineState::Bad
        },
        LineState::Key => after_key(c),
        LineState::ParamStart => if is_key_char(c) {
            LineState::ParamKey
        } else {
            LineState::Bad
        },
        LineState::ParamKey => if is_key_char(c) {
            LineState::ParamKey
        } else if c == '=' {
            LineState::ParamValueStart
        } else if c == ';' {
            LineState::ParamStart
        } else if c == ':' {
            LineState::Value
        } else {
            LineState::Bad
        },
        LineState::ParamValueStart => if c == '"' {
            LineState::QuotedStart
        } else if c == ';' {
            LineState::ParamStart
        } else if c == ':' {
            LineState::Value
        } else {
            LineState::Unquoted
        },
        LineState::QuotedStart => if c == '"' {
            LineState::Bad
        } else {
            LineState::Quoted
        },
        LineState::Quoted => if c == '"' {
            LineState::QuotedEnd
        } else {
            LineState::Quoted
        },
        LineState::QuotedEnd => if c == ';' {
            LineState::ParamStart
        } else if c == ':' {
            LineState::Value
        } else {
            LineState::Bad
        },
        LineState::Unquoted => if c == ';' {
            LineState::ParamStart
        } else if c == ':' {
            LineState::Value
        } else if c == '"' {
            LineState::Bad
        } else {
            LineState::Unquoted
        },
        LineState::Value => LineState::Value,
        LineState::Bad => LineState::Bad,
    }
}

fn line_step_exec(st: LineState, c: char) -> (r: LineState)
    ensures
        r == line_step(st, c),
{
    match st {
        LineState::Start => if begin_letter(0, c) {
            LineState::Begin(1)
        } else if end_letter(0, c) {
            LineState::End(1)
        } else {
            after_key_exec(c)
        },
        LineState::Begin(k) => if k < 5 && begin_letter(k, c) {
            LineState::Begin(k + 1)
        } else if k == 5 && c == ':' {
            LineState::BeginName
        } else {
            after_key_exec(c)
        },
        LineState::End(k) => if k < 3 && end_letter(k, c) {
            LineState::End(k + 1)
        } else if k == 3 && c == ':' {
            LineState::EndName
        } else {
            after_key_exec(c)
        },
        LineState::BeginName => if key_char(c) {
            LineState::BeginName
        } else {
            LineState::Bad
        },
        LineState::EndName => if key_char(c) {
            LineState::EndName
        } else {
            LineState::Bad
        },
        LineState::Key => after_key_exec(c),
        LineState::ParamStart => if key_char(c) {
            LineState::ParamKey
        } else {
            LineState::Bad
        },
        LineState::ParamKey => if key_char(c) {
            LineState::ParamKey
        } else if c == '=' {
            LineState::ParamValueStart
        } else if c == ';' {
            LineState::ParamStart
        } else if c == ':' {
            LineState::Value
        } else {
            LineState::Bad
        },
        LineState::ParamValueStart => if c == '"' {
            LineState::QuotedStart
        } else if c == ';' {
            LineState::ParamStart
        } else if c == ':' {
            LineState::Value
        } else {
            LineState::Unquoted
        },
        LineState::QuotedStart => if c == '"' {
            LineState::Bad
        } else {
            LineState::Quoted
        },
        LineState::Quoted => if c == '"' {
            LineState::QuotedEnd
        } else {
            LineState::Quoted
        },
        LineState::QuotedEnd => if c == ';' {
            LineState::ParamStart
        } else if c == ':' {
            LineState::Value
        } else {
            LineState::Bad
        },
        LineState::Unquoted => if c == ';' {
            LineState::ParamStart
        } else if c == ':' {
            LineState::Value
        } else if c == '"' {
            LineState::Bad
        } else {
            LineState::Unquoted
        },
        LineState::Value => LineState::Value,
        LineState::Bad => LineState::Bad,
    }
}

/// States in which a `\r` is part of the text read (a value), not a line ending.
spec fn in_value(st: LineState) -> bool {
    match st {
        LineState::QuotedStart | LineState::Quoted | LineState::Unquoted | LineState::Value => true,
        _ => false,
    }
}

fn in_value_exec(st: LineState) -> (r: bool)
    ensures
        r == in_value(st),
{
    match st {
        LineState::QuotedStart | LineState::Quoted | LineState::Unquoted | LineState::Value => true,
        _ => false,
    }
}

spec fn initial() -> ScanState {
    ScanState { line: LineState::Start, cr: false, depth: 0, max_depth: 0 }
}

/// The scan after one more character.
spec fn step(s: ScanState, c: char) -> ScanState {
    match s.line {
        LineState::Bad => s,
        _ => if c == '\n' {
            match s.line {
                LineState::BeginName => {
                    let d: usize = if s.depth < usize::MAX {
                        (s.depth + 1) as usize
                    } else {
                        s.depth
                    };
                    ScanState {
                        line: LineState::Start,
                        cr: false,
                        depth: d,
                        max_depth: if d > s.max_depth {
                            d
                        } else {
                            s.max_depth
                        },
                    }
                },
                LineState::EndName => ScanState {
                    line: LineState::Start,
                    cr: false,
                    depth: if s.depth > 0 {
                        (s.depth - 1) as usize
                    } else {
                        0
                    },
                    max_depth: s.max_depth,
                },
                LineState::Start | LineState::Begin(_) | LineState::End(_) | LineState::Key
                | LineState::Value => ScanState {
                    line: LineState::Start,
                    cr: false,
                    depth: s.depth,
                    max_depth: s.max_depth,
                },
                _ => ScanState {
                    line: LineState::Bad,
                    cr: false,
                    depth: s.depth,
                    max_depth: s.max_depth,
                },
            }
        } else if s.cr {
            ScanState { line: LineState::Bad, cr: false, depth: s.depth, max_depth: s.max_depth }
        } else if c == '\r' && !in_value(s.line) {
            ScanState { line: s.line, cr: true, depth: s.depth, max_depth: s.max_depth }
        } else {
            ScanState {
                line: line_step(s.line, c),
                cr: false,
                depth: s.depth,
                max_depth: s.max_depth,
            }
        },
    }
}

fn step_exec(s: ScanState, c: char) -> (r: ScanState)
    ensures
        r == step(s, c),
{
    match s.line {
        LineState::Bad => s,
        _ => if c == '\n' {
            match s.line {
                LineState::BeginName => {
                    let d: usize = if s.depth < usize::MAX {
                        s.depth + 1
                    } else {
                        s.depth
                    };
                    ScanState {
                        line: LineState::Start,
                        cr: false,
                        depth: d,
                        max_depth: if d > s.max_depth {
                            d
                        } else {
                            s.max_depth
                        },
                    }
                },
                LineState::EndName => ScanState {
                    line: LineState::Start,
                    cr: false,
                    depth: if s.depth > 0 {
                        s.depth - 1
                    } else {
                        0
                    },
                    max_depth: s.max_depth,
                },
                LineState::Start | LineState::Begin(_) | LineState::End(_) | LineState::Key
                | LineState::Value => ScanState {
                    line: LineState::Start,
                    cr: false,
                    depth: s.depth,
                    max_depth: s.max_depth,
                },
                _ => ScanState {
                    line: LineState::Bad,
                    cr: false,
                    depth: s.depth,
                    max_depth: s.max_depth,
                },
            }
        } else if s.cr {
            ScanState { line: LineState::Bad, cr: false, depth: s.depth, max_depth: s.max_depth }
        } else if c == '\r' && !in_value_exec(s.line) {
            ScanState { line: s.line, cr: true, depth: s.depth, max_depth: s.max_depth }
        } else {
            ScanState {
                line: line_step_exec(s.line, c),
                cr: false,
                depth: s.depth,
                max_depth: s.max_depth,
            }
        },
    }
}

/// The scan of a whole text.
spec fn scan(text: Seq<char>) -> ScanState {
    run(initial(), text)
}

/// The scan of `text` from state `s`.
spec fn run(s: ScanState, text: Seq<char>) -> ScanState
    decreases text.len(),
{
    if text.len() == 0 {
        s
    } else {
        step(run(s, text.drop_last()), text.last())
    }
}

fn scan_exec(text: &Vec<char>) -> (s: ScanState)
    ensures
        s == scan(text@),
{
    let mut s = ScanState { line: LineState::Start, cr: false, depth: 0, max_depth: 0 };
    let n = text.len();
    let mut i: usize = 0;
    while i < n
        invariant
            n == text@.len(),
            i <= n,
            s == scan(text@.take(i as int)),
        decreases n - i,
    {
        assert(text@.take(i + 1).drop_last() =~= text@.take(i as int));
        s = step_exec(s, text[i]);
        i = i + 1;
    }
    assert(text@.take(n as int) =~= text@);
    s
}

/// Either every line ends in `\r\n`, or none does.
spec fn line_endings_consistent(text: Seq<char>) -> bool {
    (forall|i: int| 0 <= i < text.len() && #[trigger] text[i] == '\n' ==> i > 0 && text[i - 1] == '\r')
        || (forall|i: int|
        0 <= i < text.len() && #[trigger] text[i] == '\n' ==> !(i > 0 && text[i - 1] == '\r'))
}

fn line_endings_consistent_exec(text: &Vec<char>) -> (ok: bool)
    ensures
        ok == line_endings_consistent(text@),
{
    let n = text.len();
    let mut crlf: bool = false;
    let mut bare: bool = false;
    let mut i: usize = 0;
    while i < n
        invariant
            n == text@.len(),
            i <= n,
            crlf == exists|j: int|
                0 <= j < i && #[trigger] text@[j] == '\n' && j > 0 && text@[j - 1] == '\r',
            bare == exists|j: int|
                0 <= j < i && #[trigger] text@[j] == '\n' && !(j > 0 && text@[j - 1] == '\r'),
        decreases n - i,
    {
        if text[i] == '\n' {
            if i > 0 && text[i - 1] == '\r' {
                crlf = true;
            } else {
                bare = true;
            }
        }
        i = i + 1;
    }
    !(crlf && bare)
}

/// `BEGIN:` (in any case) starts at position `i`.
spec fn begin_at(text: Seq<char>, i: int) -> bool {
    &&& 0 <= i
    &&& i + 6 <= text.len()
    &&& is_begin_letter(0, text[i])
    &&& is_begin_letter(1, text[i + 1])
    &&& is_begin_letter(2, text[i + 2])
    &&& is_begin_letter(3, text[i + 3])
    &&& is_begin_letter(4, text[i + 4])
    &&& text[i + 5] == ':'
}

/// How many times `BEGIN:` (in any case) starts before position `n`.
spec fn begins_before(text: Seq<char>, n: int) -> int
    decreases n,
{
    if n <= 0 {
        0
    } else {
        begins_before(text, n - 1) + if begin_at(text, n - 1) {
            1int
        } else {
            0int
        }
    }
}

proof fn lemma_begins_before_bounded(text: Seq<char>, n: int)
    requires
        0 <= n,
    ensures
        0 <= begins_before(text, n) <= n,
    decreases n,
{
    if n > 0 {
        lemma_begins_before_bounded(text, n - 1);
    }
}

fn begins_exec(text: &Vec<char>) -> (count: usize)
    ensures
        count == begins_before(text@, text@.len() as int),
{
    let n = text.len();
    let mut count: usize = 0;
    let mut i: usize = 0;
    while i < n
        invariant
            n == text@.len(),
            i <= n,
            count == begins_before(text@, i as int),
        decreases n - i,
    {
        proof {
            lemma_begins_before_bounded(text@, i as int);
        }
        let found = n >= 6 && i <= n - 6 && begin_letter(0, text[i]) && begin_letter(1, text[i + 1])
            && begin_letter(2, text[i + 2]) && begin_letter(3, text[i + 3]) && begin_letter(
            4,
            text[i + 4],
        ) && text[i + 5] == ':';
        if found {
            count = count + 1;
        }
        i = i + 1;
    }
    count
}

/// A bound on how many components icalendar's parser can have open at once while it
/// reads the (unfolded) text: one more than the deepest `BEGIN:`/`END:` line nesting
/// of a text of plain content lines; otherwise that, plus every `BEGIN:` the text
/// holds.
pub closed spec fn nesting_bound(text: Seq<char>) -> int {
    let s = scan(text);
    let begins = begins_before(text, text.len() as int);
    if !line_endings_consistent(text) {
        begins + 1
    } else if s.line is Bad {
        s.max_depth + begins + 1
    } else {
        s.max_depth + 1
    }
}

/// Whether the components of `text` stay within `MAX_NESTING` levels, as
/// `nesting_bound` counts them.
pub fn nesting_within_limit(text: &str) -> (ok: bool)
    ensures
        ok == (nesting_bound(text@) <= MAX_NESTING as int),
{
    let chars = crate::text::chars_of(text);
    let consistent = line_endings_consistent_exec(&chars);
    let s = scan_exec(&chars);
    let begins = begins_exec(&chars);
    if !consistent {
        begins < MAX_NESTING
    } else if matches!(s.line, LineState::Bad) {
        s.max_depth < MAX_NESTING && begins < MAX_NESTING - s.max_depth
    } else {
        s.max_depth < MAX_NESTING
    }
}

// ---------------------------------------------------------------------------
// What the bound is on a calendar written as well-formed content lines.
// ---------------------------------------------------------------------------

/// How a parameter's value is written after its name.
pub enum ContentParamValue {
    /// No value: `;NAME`.
    Absent,
    /// `;NAME="TEXT"`.
    Quoted(Seq<char>),
    /// `;NAME=TEXT`.
    Plain(Seq<char>),
}

/// A parameter of a content line.
pub struct ContentParam {
    pub name: Seq<char>,
    pub value: ContentParamValue,
}

/// A content line of an iCalendar text, without its line ending.
pub enum ContentLine {
    /// `BEGIN:NAME`, the keyword in any case.
    Open { keyword: Seq<char>, name: Seq<char> },
    /// `END:NAME`, the keyword in any case.
    Close { keyword: Seq<char>, name: Seq<char> },
    /// `NAME[;PARAM[=VALUE]]*:VALUE`.
    Property { name: Seq<char>, params: Seq<ContentParam>, value: Seq<char> },
}

/// `BEGIN`, in any case.
pub open spec fn is_begin_keyword(w: Seq<char>) -> bool {
    w.len() == 5 && forall|i: int| 0 <= i < 5 ==> is_begin_letter(i as usize, #[trigger] w[i])
}

/// `END`, in any case.
pub open spec fn is_end_keyword(w: Seq<char>) -> bool {
    w.len() == 3 && forall|i: int| 0 <= i < 3 ==> is_end_letter(i as usize, #[trigger] w[i])
}

/// A name: letters, digits, `-`, `_`, `.`, `,` and `/`.
pub open spec fn is_name(w: Seq<char>) -> bool {
    forall|i: int| 0 <= i < w.len() ==> is_key_char(#[trigger] w[i])
}

/// Text that stays on its line.
pub open spec fn is_line_text(w: Seq<char>) -> bool {
    forall|i: int| 0 <= i < w.len() ==> #[trigger] w[i] != '\r' && w[i] != '\n'
}

/// A well-formed parameter: a name, and a quoted value without quotes or a plain value
/// without `;`, `:` or quotes, neither empty.
pub open spec fn is_content_param(p: ContentParam) -> bool {
    &&& p.name.len() > 0
    &&& is_name(p.name)
    &&& match p.value {
        ContentParamValue::Absent => true,
        ContentParamValue::Quoted(q) => q.len() > 0 && is_line_text(q) && !q.contains('"'),
        ContentParamValue::Plain(v) => v.len() > 0 && is_line_text(v) && !v.contains('"')
            && !v.contains(';') && !v.contains(':'),
    }
}

/// A well-formed content line: a `BEGIN:` or `END:` line with a name, or a property
/// (whose name is not one of those keywords) with well-formed parameters and a value.
pub open spec fn is_content_line(l: ContentLine) -> bool {
    match l {
        ContentLine::Open { keyword, name } => is_begin_keyword(keyword) && is_name(name),
        ContentLine::Close { keyword, name } => is_end_keyword(keyword) && is_name(name),
        ContentLine::Property { name, params, value } => {
            &&& name.len() > 0
            &&& is_name(name)
            &&& !is_begin_keyword(name)
            &&& !is_end_keyword(name)
            &&& forall|i: int| 0 <= i < params.len() ==> is_content_param(#[trigger] params[i])
            &&& is_line_text(value)
        },
    }
}

pub open spec fn render_param(p: ContentParam) -> Seq<char> {
    seq![';'] + p.name + match p.value {
        ContentParamValue::Absent => Seq::<char>::empty(),
        ContentParamValue::Quoted(q) => seq!['=', '"'] + q + seq!['"'],
        ContentParamValue::Plain(v) => seq!['='] + v,
    }
}

pub open spec fn render_params(params: Seq<ContentParam>) -> Seq<char>
    decreases params.len(),
{
    if params.len() == 0 {
        Seq::empty()
    } else {
        render_params(params.drop_last()) + render_param(params.last())
    }
}

pub open spec fn render_line(l: ContentLine) -> Seq<char> {
    match l {
        ContentLine::Open { keyword, name } => keyword + seq![':'] + name,
        ContentLine::Close { keyword, name } => keyword + seq![':'] + name,
        ContentLine::Property { name, params, value } => name + render_params(params) + seq![':']
            + value,
    }
}

/// The lines, each ended by `\r\n`.
pub open spec fn calendar_text(lines: Seq<ContentLine>) -> Seq<char>
    decreases lines.len(),
{
    if lines.len() == 0 {
        Seq::empty()
    } else {
        calendar_text(lines.drop_last()) + render_line(lines.last()) + seq!['\r', '\n']
    }
}

/// How many components are open after the lines: `BEGIN:` lines opened minus `END:`
/// lines closed (an `END:` with nothing open closes nothing).
pub open spec fn open_depth(lines: Seq<ContentLine>) -> int
    decreases lines.len(),
{
    if lines.len() == 0 {
        0
    } else {
        let d = open_depth(lines.drop_last());
        match lines.last() {
            ContentLine::Open { .. } => d + 1,
            ContentLine::Close { .. } => if d > 0 {
                d - 1
            } else {
                0
            },
            ContentLine::Property { .. } => d,
        }
    }
}

/// The deepest nesting reached over the lines.
pub open spec fn deepest(lines: Seq<ContentLine>) -> int
    decreases lines.len(),
{
    if lines.len() == 0 {
        0
    } else {
        let m = deepest(lines.drop_last());
        let d = open_depth(lines);
        if d > m {
            d
        } else {
            m
        }
    }
}

spec fn at(line: LineState, depth: int, max_depth: int) -> ScanState {
    ScanState { line, cr: false, depth: depth as usize, max_depth: max_depth as usize }
}

proof fn lemma_run_append(s: ScanState, a: Seq<char>, b: Seq<char>)
    ensures
        run(s, a + b) == run(run(s, a), b),
    decreases b.len(),
{
    if b.len() == 0 {
        assert(a + b =~= a);
    } else {
        assert((a + b).drop_last() =~= a + b.drop_last());
        assert((a + b).last() == b.last());
        lemma_run_append(s, a, b.drop_last());
    }
}

proof fn lemma_run_one(s: ScanState, c: char)
    ensures
        run(s, seq![c]) == step(s, c),
{
    assert(seq![c].drop_last() =~= Seq::<char>::empty());
    assert(run(s, Seq::<char>::empty()) == s);
}

proof fn lemma_run_crlf(s: ScanState)
    ensures
        run(s, seq!['\r', '\n']) == step(step(s, '\r'), '\n'),
{
    lemma_run_one(s, '\r');
    lemma_run_one(step(s, '\r'), '\n');
    assert(seq!['\r', '\n'] =~= seq!['\r'] + seq!['\n']);
    lemma_run_append(s, seq!['\r'], seq!['\n']);
}

proof fn lemma_run_fixed(s: ScanState, w: Seq<char>)
    requires
        forall|i: int| 0 <= i < w.len() ==> step(s, #[trigger] w[i]) == s,
    ensures
        run(s, w) == s,
    decreases w.len(),
{
    if w.len() > 0 {
        lemma_run_fixed(s, w.drop_last());
        assert(step(s, w[w.len() - 1]) == s);
    }
}

/// The line state after the first characters of a name.
spec fn key_state(w: Seq<char>) -> LineState {
    if w.len() == 0 {
        LineState::Start
    } else if w.len() <= 5 && forall|i: int| 0 <= i < w.len() ==> is_begin_letter(i as usize, #[trigger] w[i]) {
        LineState::Begin(w.len() as usize)
    } else if w.len() <= 3 && forall|i: int| 0 <= i < w.len() ==> is_end_letter(i as usize, #[trigger] w[i]) {
        LineState::End(w.len() as usize)
    } else {
        LineState::Key
    }
}

proof fn lemma_key_prefix(d: int, m: int, w: Seq<char>)
    requires
        is_name(w),
    ensures
        run(at(LineState::Start, d, m), w) == at(key_state(w), d, m),
    decreases w.len(),
{
    if w.len() > 0 {
        let v = w.drop_last();
        let c = w.last();
        assert(is_name(v)) by {
            assert forall|i: int| 0 <= i < v.len() implies is_key_char(#[trigger] v[i]) by {
                assert(v[i] == w[i]);
            }
        }
        lemma_key_prefix(d, m, v);
        assert(is_key_char(c)) by {
            assert(c == w[w.len() - 1]);
        }
        let n = v.len();
        let bv = n <= 5 && forall|i: int| 0 <= i < n ==> is_begin_letter(i as usize, #[trigger] v[i]);
        let ev = n <= 3 && forall|i: int| 0 <= i < n ==> is_end_letter(i as usize, #[trigger] v[i]);
        let bw = w.len() <= 5 && forall|i: int| 0 <= i < w.len() ==> is_begin_letter(i as usize, #[trigger] w[i]);
        let ew = w.len() <= 3 && forall|i: int| 0 <= i < w.len() ==> is_end_letter(i as usize, #[trigger] w[i]);
        assert(forall|i: int| 0 <= i < n ==> w[i] == v[i]);
        if bw {
            assert(bv) by {
                assert forall|i: int| 0 <= i < n implies is_begin_letter(i as usize, #[trigger] v[i]) by {
                    assert(is_begin_letter(i as usize, w[i]));
                }
            }
            assert(is_begin_letter(n as usize, c)) by {
                assert(is_begin_letter(n as usize, w[n as int]));
            }
        } else if ew {
            assert(ev) by {
                assert forall|i: int| 0 <= i < n implies is_end_letter(i as usize, #[trigger] v[i]) by {
                    assert(is_end_letter(i as usize, w[i]));
                }
            }
            assert(is_end_letter(n as usize, c)) by {
                assert(is_end_letter(n as usize, w[n as int]));
            }
            if n > 0 {
                assert(!bv) by {
                    assert(is_end_letter(0, w[0]));
                    assert(w[0] == v[0]);
                }
            }
        } else {
            if bv && n < 5 && is_begin_letter(n as usize, c) {
                assert forall|i: int| 0 <= i < w.len() implies is_begin_letter(i as usize, #[trigger] w[i]) by {
                    if i < n {
                        assert(w[i] == v[i]);
                    }
                }
            }
            if ev && !bv && n < 3 && is_end_letter(n as usize, c) {
                assert forall|i: int| 0 <= i < w.len() implies is_end_letter(i as usize, #[trigger] w[i]) by {
                    if i < n {
                        assert(w[i] == v[i]);
                    }
                }
            }
            if n == 0 {
                assert(w[0] == c);
            }
        }
        assert(c != '\n' && c != '\r');
    }
}

/// States from which `;` starts a parameter and `:` starts the value.
spec fn ready(x: LineState) -> bool {
    match x {
        LineState::Key | LineState::ParamKey | LineState::Unquoted | LineState::QuotedEnd => true,
        LineState::Begin(k) => 1 <= k <= 4,
        LineState::End(k) => 1 <= k <= 2,
        _ => false,
    }
}

proof fn lemma_param(x: LineState, d: int, m: int, p: ContentParam)
    requires
        ready(x),
        is_content_param(p),
    ensures
        run(at(x, d, m), render_param(p)).cr == false,
        run(at(x, d, m), render_param(p)).depth == at(x, d, m).depth,
        run(at(x, d, m), render_param(p)).max_depth == at(x, d, m).max_depth,
        ready(run(at(x, d, m), render_param(p)).line),
{
    let s0 = at(x, d, m);
    let semi = seq![';'];
    assert(semi.last() == ';' && semi.drop_last() =~= Seq::<char>::empty());
    let s1 = run(s0, semi);
    lemma_run_one(s0, ';');
    assert(s1 == at(LineState::ParamStart, d, m));
    // The name: its first character starts the parameter name.
    let name = p.name;
    let first = name.take(1);
    let rest = name.skip(1);
    assert(name =~= first + rest);
    assert(first.last() == name[0] && first.drop_last() =~= Seq::<char>::empty());
    assert(is_key_char(name[0]));
    let s2 = run(s1, first);
    assert(first =~= seq![name[0]]);
    lemma_run_one(s1, name[0]);
    assert(s2 == at(LineState::ParamKey, d, m));
    assert forall|i: int| 0 <= i < rest.len() implies step(s2, #[trigger] rest[i]) == s2 by {
        assert(rest[i] == name[i + 1]);
        assert(is_key_char(name[i + 1]));
    }
    lemma_run_fixed(s2, rest);
    lemma_run_append(s1, first, rest);
    lemma_run_append(s0, semi, name);
    let tail = match p.value {
        ContentParamValue::Absent => Seq::<char>::empty(),
        ContentParamValue::Quoted(q) => seq!['=', '"'] + q + seq!['"'],
        ContentParamValue::Plain(v) => seq!['='] + v,
    };
    assert(render_param(p) == semi + name + tail);
    lemma_run_append(s0, semi + name, tail);
    match p.value {
        ContentParamValue::Absent => {
            assert(tail =~= Seq::<char>::empty());
        },
        ContentParamValue::Quoted(q) => {
            let open = seq!['=', '"'];
            lemma_run_one(s2, '=');
            lemma_run_one(at(LineState::ParamValueStart, d, m), '"');
            assert(open =~= seq!['='] + seq!['"']);
            lemma_run_append(s2, seq!['='], seq!['"']);
            let s3 = run(s2, open);
            assert(s3 == at(LineState::QuotedStart, d, m));
            let qf = q.take(1);
            let qr = q.skip(1);
            assert(q =~= qf + qr);
            assert(qf.last() == q[0] && qf.drop_last() =~= Seq::<char>::empty());
            assert(q[0] != '"' && q[0] != '\n') by {
                assert(q.contains(q[0]) ==> q[0] != '"');
                assert(q.contains(q[0]));
            }
            let s4 = run(s3, qf);
            assert(qf =~= seq![q[0]]);
            lemma_run_one(s3, q[0]);
            assert(s4 == at(LineState::Quoted, d, m));
            assert forall|i: int| 0 <= i < qr.len() implies step(s4, #[trigger] qr[i]) == s4 by {
                assert(qr[i] == q[i + 1]);
                assert(q.contains(q[i + 1]));
                assert(q[i + 1] != '\n');
            }
            lemma_run_fixed(s4, qr);
            lemma_run_append(s3, qf, qr);
            let close = seq!['"'];
            lemma_run_one(s4, '"');
            assert(run(s4, close) == at(LineState::QuotedEnd, d, m));
            lemma_run_append(s2, open, q);
            lemma_run_append(s2, open + q, close);
        },
        ContentParamValue::Plain(v) => {
            let eq = seq!['='];
            assert(eq.last() == '=' && eq.drop_last() =~= Seq::<char>::empty());
            let s3 = run(s2, eq);
            lemma_run_one(s2, '=');
            assert(s3 == at(LineState::ParamValueStart, d, m));
            let vf = v.take(1);
            let vr = v.skip(1);
            assert(v =~= vf + vr);
            assert(vf.last() == v[0] && vf.drop_last() =~= Seq::<char>::empty());
            assert(v.contains(v[0]));
            assert(v[0] != '\r' && v[0] != '\n');
            let s4 = run(s3, vf);
            assert(vf =~= seq![v[0]]);
            lemma_run_one(s3, v[0]);
            assert(s4 == at(LineState::Unquoted, d, m));
            assert forall|i: int| 0 <= i < vr.len() implies step(s4, #[trigger] vr[i]) == s4 by {
                assert(vr[i] == v[i + 1]);
                assert(v.contains(v[i + 1]));
                assert(v[i + 1] != '\n');
            }
            lemma_run_fixed(s4, vr);
            lemma_run_append(s3, vf, vr);
            lemma_run_append(s2, eq, v);
        },
    }
}

proof fn lemma_params(x: LineState, d: int, m: int, params: Seq<ContentParam>)
    requires
        ready(x),
        forall|i: int| 0 <= i < params.len() ==> is_content_param(#[trigger] params[i]),
    ensures
        run(at(x, d, m), render_params(params)).cr == false,
        run(at(x, d, m), render_params(params)).depth == at(x, d, m).depth,
        run(at(x, d, m), render_params(params)).max_depth == at(x, d, m).max_depth,
        ready(run(at(x, d, m), render_params(params)).line),
    decreases params.len(),
{
    if params.len() == 0 {
    } else {
        let before = params.drop_last();
        assert forall|i: int| 0 <= i < before.len() implies is_content_param(#[trigger] before[i]) by {
            assert(before[i] == params[i]);
        }
        lemma_params(x, d, m, before);
        let r = run(at(x, d, m), render_params(before));
        assert(r == at(r.line, d, m));
        assert(is_content_param(params[params.len() - 1]));
        lemma_param(r.line, d, m, params.last());
        lemma_run_append(at(x, d, m), render_params(before), render_param(params.last()));
    }
}

proof fn lemma_line(l: ContentLine, d: int, m: int)
    requires
        is_content_line(l),
        0 <= d <= m,
        m < usize::MAX,
    ensures
        ({
            let nd = match l {
                ContentLine::Open { .. } => d + 1,
                ContentLine::Close { .. } => if d > 0 {
                    d - 1
                } else {
                    0
                },
                ContentLine::Property { .. } => d,
            };
            run(at(LineState::Start, d, m), render_line(l) + seq!['\r', '\n']) == at(
                LineState::Start,
                nd,
                if nd > m {
                    nd
                } else {
                    m
                },
            )
        }),
{
    let s0 = at(LineState::Start, d, m);
    let crlf = seq!['\r', '\n'];
    assert(crlf.drop_last() =~= seq!['\r'] && crlf.last() == '\n');
    assert(seq!['\r'].drop_last() =~= Seq::<char>::empty() && seq!['\r'].last() == '\r');
    let colon = seq![':'];
    assert(colon.drop_last() =~= Seq::<char>::empty() && colon.last() == ':');
    lemma_run_append(s0, render_line(l), crlf);
    lemma_run_crlf(run(s0, render_line(l)));
    match l {
        ContentLine::Open { keyword, name } => {
            assert(is_name(keyword)) by {
                assert forall|i: int| 0 <= i < keyword.len() implies is_key_char(#[trigger] keyword[i]) by {
                    assert(is_begin_letter(i as usize, keyword[i]));
                }
            }
            lemma_key_prefix(d, m, keyword);
            assert(key_state(keyword) == LineState::Begin(5));
            let s1 = at(LineState::Begin(5), d, m);
            lemma_run_one(s1, ':');
            assert(run(s1, colon) == at(LineState::BeginName, d, m));
            let s2 = at(LineState::BeginName, d, m);
            assert forall|i: int| 0 <= i < name.len() implies step(s2, #[trigger] name[i]) == s2 by {
                assert(is_key_char(name[i]));
            }
            lemma_run_fixed(s2, name);
            lemma_run_append(s0, keyword, colon);
            lemma_run_append(s0, keyword + colon, name);
        },
        ContentLine::Close { keyword, name } => {
            assert(is_name(keyword)) by {
                assert forall|i: int| 0 <= i < keyword.len() implies is_key_char(#[trigger] keyword[i]) by {
                    assert(is_end_letter(i as usize, keyword[i]));
                }
            }
            lemma_key_prefix(d, m, keyword);
            assert(!is_begin_letter(0, keyword[0])) by {
                assert(is_end_letter(0, keyword[0]));
            }
            assert(key_state(keyword) == LineState::End(3));
            let s1 = at(LineState::End(3), d, m);
            lemma_run_one(s1, ':');
            assert(run(s1, colon) == at(LineState::EndName, d, m));
            let s2 = at(LineState::EndName, d, m);
            assert forall|i: int| 0 <= i < name.len() implies step(s2, #[trigger] name[i]) == s2 by {
                assert(is_key_char(name[i]));
            }
            lemma_run_fixed(s2, name);
            lemma_run_append(s0, keyword, colon);
            lemma_run_append(s0, keyword + colon, name);
        },
        ContentLine::Property { name, params, value } => {
            lemma_key_prefix(d, m, name);
            let x = key_state(name);
            assert(ready(x)) by {
                if name.len() <= 5 && forall|i: int| 0 <= i < name.len() ==> is_begin_letter(i as usize, #[trigger] name[i]) {
                    if name.len() == 5 {
                        assert(is_begin_keyword(name));
                    }
                } else if name.len() <= 3 && forall|i: int| 0 <= i < name.len() ==> is_end_letter(i as usize, #[trigger] name[i]) {
                    if name.len() == 3 {
                        assert(is_end_keyword(name));
                    }
                }
            }
            lemma_params(x, d, m, params);
            let r = run(at(x, d, m), render_params(params));
            assert(r == at(r.line, d, m));
            lemma_run_one(r, ':');
            assert(run(r, colon) == at(LineState::Value, d, m));
            let s3 = at(LineState::Value, d, m);
            assert forall|i: int| 0 <= i < value.len() implies step(s3, #[trigger] value[i]) == s3 by {
                assert(value[i] != '\n');
            }
            lemma_run_fixed(s3, value);
            lemma_run_append(s0, name, render_params(params));
            lemma_run_append(s0, name + render_params(params), colon);
            lemma_run_append(s0, name + render_params(params) + colon, value);
        },
    }
}

proof fn lemma_depth_bounds(lines: Seq<ContentLine>)
    ensures
        0 <= open_depth(lines) <= deepest(lines) <= lines.len(),
    decreases lines.len(),
{
    if lines.len() > 0 {
        lemma_depth_bounds(lines.drop_last());
    }
}

proof fn lemma_line_text_concat(a: Seq<char>, b: Seq<char>)
    requires
        is_line_text(a),
        is_line_text(b),
    ensures
        is_line_text(a + b),
{
    assert forall|i: int| 0 <= i < (a + b).len() implies #[trigger] (a + b)[i] != '\r' && (a
        + b)[i] != '\n' by {
        if i < a.len() {
            assert((a + b)[i] == a[i]);
        } else {
            assert((a + b)[i] == b[i - a.len()]);
        }
    }
}

proof fn lemma_name_is_line_text(w: Seq<char>)
    requires
        is_name(w),
    ensures
        is_line_text(w),
{
    assert forall|i: int| 0 <= i < w.len() implies #[trigger] w[i] != '\r' && w[i] != '\n' by {
        assert(is_key_char(w[i]));
    }
}

proof fn lemma_params_text(params: Seq<ContentParam>)
    requires
        forall|i: int| 0 <= i < params.len() ==> is_content_param(#[trigger] params[i]),
    ensures
        is_line_text(render_params(params)),
    decreases params.len(),
{
    if params.len() == 0 {
        assert(is_line_text(Seq::<char>::empty()));
    } else {
        let before = params.drop_last();
        assert forall|i: int| 0 <= i < before.len() implies is_content_param(#[trigger] before[i]) by {
            assert(before[i] == params[i]);
        }
        lemma_params_text(before);
        let p = params.last();
        assert(is_content_param(params[params.len() - 1]));
        lemma_name_is_line_text(p.name);
        assert(is_line_text(seq![';']));
        lemma_line_text_concat(seq![';'], p.name);
        let tail = match p.value {
            ContentParamValue::Absent => Seq::<char>::empty(),
            ContentParamValue::Quoted(q) => seq!['=', '"'] + q + seq!['"'],
            ContentParamValue::Plain(v) => seq!['='] + v,
        };
        match p.value {
            ContentParamValue::Absent => {
                assert(is_line_text(tail));
            },
            ContentParamValue::Quoted(q) => {
                assert(is_line_text(seq!['=', '"']));
                assert(is_line_text(seq!['"']));
                lemma_line_text_concat(seq!['=', '"'], q);
                lemma_line_text_concat(seq!['=', '"'] + q, seq!['"']);
            },
            ContentParamValue::Plain(v) => {
                assert(is_line_text(seq!['=']));
                lemma_line_text_concat(seq!['='], v);
            },
        }
        lemma_line_text_concat(seq![';'] + p.name, tail);
        lemma_line_text_concat(render_params(before), render_param(p));
    }
}

proof fn lemma_line_text(l: ContentLine)
    requires
        is_content_line(l),
    ensures
        is_line_text(render_line(l)),
{
    assert(is_line_text(seq![':']));
    match l {
        ContentLine::Open { keyword, name } => {
            assert(is_name(keyword)) by {
                assert forall|i: int| 0 <= i < keyword.len() implies is_key_char(#[trigger] keyword[i]) by {
                    assert(is_begin_letter(i as usize, keyword[i]));
                }
            }
            lemma_name_is_line_text(keyword);
            lemma_name_is_line_text(name);
            lemma_line_text_concat(keyword, seq![':']);
            lemma_line_text_concat(keyword + seq![':'], name);
        },
        ContentLine::Close { keyword, name } => {
            assert(is_name(keyword)) by {
                assert forall|i: int| 0 <= i < keyword.len() implies is_key_char(#[trigger] keyword[i]) by {
                    assert(is_end_letter(i as usize, keyword[i]));
                }
            }
            lemma_name_is_line_text(keyword);
            lemma_name_is_line_text(name);
            lemma_line_text_concat(keyword, seq![':']);
            lemma_line_text_concat(keyword + seq![':'], name);
        },
        ContentLine::Property { name, params, value } => {
            lemma_name_is_line_text(name);
            lemma_params_text(params);
            lemma_line_text_concat(name, render_params(params));
            lemma_line_text_concat(name + render_params(params), seq![':']);
            lemma_line_text_concat(name + render_params(params) + seq![':'], value);
        },
    }
}

proof fn lemma_calendar(lines: Seq<ContentLine>)
    requires
        forall|i: int| 0 <= i < lines.len() ==> is_content_line(#[trigger] lines[i]),
        lines.len() < usize::MAX,
    ensures
        scan(calendar_text(lines)) == at(LineState::Start, open_depth(lines), deepest(lines)),
        forall|i: int|
            0 <= i < calendar_text(lines).len() && #[trigger] calendar_text(lines)[i] == '\n'
                ==> i > 0 && calendar_text(lines)[i - 1] == '\r',
    decreases lines.len(),
{
    if lines.len() == 0 {
        assert(initial() == at(LineState::Start, 0, 0));
    } else {
        let before = lines.drop_last();
        let l = lines.last();
        assert forall|i: int| 0 <= i < before.len() implies is_content_line(#[trigger] before[i]) by {
            assert(before[i] == lines[i]);
        }
        lemma_calendar(before);
        lemma_depth_bounds(before);
        assert(is_content_line(lines[lines.len() - 1]));
        let d = open_depth(before);
        let m = deepest(before);
        lemma_line(l, d, m);
        let prev = calendar_text(before);
        let line = render_line(l);
        let crlf = seq!['\r', '\n'];
        let text = calendar_text(lines);
        assert(text == prev + line + crlf);
        assert(prev + line + crlf =~= prev + (line + crlf));
        lemma_run_append(initial(), prev, line + crlf);
        lemma_line_text(l);
        assert forall|i: int| 0 <= i < text.len() && #[trigger] text[i] == '\n' implies i > 0
            && text[i - 1] == '\r' by {
            if i < prev.len() {
                assert(text[i] == prev[i]);
                assert(text[i - 1] == prev[i - 1]);
            } else if i < prev.len() + line.len() {
                assert(text[i] == line[i - prev.len()]);
            } else if i == prev.len() + line.len() {
                assert(text[i] == '\r');
            } else {
                assert(text[i - 1] == '\r');
            }
        }
    }
}

/// On a calendar written as well-formed content lines (`BEGIN:`/`END:` lines with a
/// name, and properties `NAME[;PARAM[=VALUE]]*:VALUE` of any name, each line ended by
/// `\r\n`), the bound is exactly one more than the deepest nesting of its components:
/// whatever the property names, parameters and values are, a feed is refused only
/// when its components nest deeper than `MAX_NESTING` allows.
pub proof fn lemma_content_lines_nesting(lines: Seq<ContentLine>)
    requires
        forall|i: int| 0 <= i < lines.len() ==> is_content_line(#[trigger] lines[i]),
        lines.len() < usize::MAX,
    ensures
        nesting_bound(calendar_text(lines)) == deepest(lines) + 1,
{
    lemma_calendar(lines);
    lemma_depth_bounds(lines);
}

} // verus!
