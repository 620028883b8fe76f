//! Yet another INI-like file parser.
//!
//! This one is specifically written for the somewhat simplified format of
//! the os-release file as found in recent Linux distributions.  A line is
//! blank, a comment, or a `NAME=value` assignment whose value may be
//! unquoted, single-quoted, or double-quoted; backslash escapes are decoded
//! everywhere except inside single quotes.  Anything else is rejected with
//! a precise error; the first malformed line aborts a whole-file parse.

use vstd::prelude::*;

verus! {

use vstd::string::StrSliceExecFns;
use vstd::string::StringExecFns;
use crate::mapping::ConfigMapping;

/// An error that occurred during parsing.  Each variant carries the
/// offending line.
#[derive(Debug, Clone, PartialEq, Eq)]
pub enum YAIError {
    /// A backslash at the end of the line.
    BackslashAtEnd(String),
    /// An invalid line in the file.
    BadLine(String),
    /// A quoted value contains the quote character.
    QuoteInQuoted(String),
    /// Mismatched open/close quotes.
    MismatchedQuotes(String),
}

/// The kind of a parse failure, without the offending line.
#[derive(Debug, Clone, Copy, PartialEq, Eq, Structural)]
pub enum YAIErrorKind {
    /// A backslash at the end of the line.
    BackslashAtEnd,
    /// An invalid line in the file.
    BadLine,
    /// A quoted value contains the quote character.
    QuoteInQuoted,
    /// Mismatched open/close quotes.
    MismatchedQuotes,
}

impl YAIError {
    /// The kind of this error.
    pub open spec fn kind(self) -> YAIErrorKind {
        match self {
            YAIError::BackslashAtEnd(_) => YAIErrorKind::BackslashAtEnd,
            YAIError::BadLine(_) => YAIErrorKind::BadLine,
            YAIError::QuoteInQuoted(_) => YAIErrorKind::QuoteInQuoted,
            YAIError::MismatchedQuotes(_) => YAIErrorKind::MismatchedQuotes,
        }
    }

    /// The offending line carried by this error.
    pub open spec fn line(self) -> Seq<char> {
        match self {
            YAIError::BackslashAtEnd(l) => l@,
            YAIError::BadLine(l) => l@,
            YAIError::QuoteInQuoted(l) => l@,
            YAIError::MismatchedQuotes(l) => l@,
        }
    }
}

/// What a single line means: nothing, one binding, or a parse failure.
pub enum LineClass {
    /// The line is blank or a comment.
    Ignored,
    /// The line binds a name to a decoded value.
    Entry(Seq<char>, Seq<char>),
    /// The line is malformed.
    Fail(YAIErrorKind),
}

/// The outcome of parsing a whole text: the finished name/value mapping,
/// or the kind and text of the first offending line.
pub enum ParseOutcome {
    /// Every line parsed; the bindings, later lines shadowing earlier ones.
    Done(Map<Seq<char>, Seq<char>>),
    /// Some line was malformed; the kind and the text of the first one.
    Failed(YAIErrorKind, Seq<char>),
}

// ---------------------------------------------------------------------
// Character classes.
// ---------------------------------------------------------------------

/// Whitespace, for blank-line and comment detection: the ASCII whitespace
/// characters and the Unicode space separators.
pub open spec fn is_space(c: char) -> bool {
    c == ' ' || c == '\t' || c == '\r' || c == '\n' || c == '\u{b}' || c == '\u{c}' || c == '\u{85}'
        || c == '\u{a0}' || c == '\u{1680}' || (0x2000 <= c as u32 && c as u32 <= 0x200a) || c
        == '\u{2028}' || c == '\u{2029}' || c == '\u{202f}' || c == '\u{205f}' || c == '\u{3000}'
}

/// The characters allowed in a variable name: letters, digits, underscore.
pub open spec fn is_name_char(c: char) -> bool {
    (65 <= c as u32 && c as u32 <= 90) || (97 <= c as u32 && c as u32 <= 122) || (48 <= c as u32
        && c as u32 <= 57) || c == '_'
}

/// A quote character: single or double quote.
pub open spec fn is_quote(c: char) -> bool {
    c == '\'' || c == '"'
}

fn space_char(c: char) -> (r: bool)
    ensures
        r == is_space(c),
{
    let u = c as u32;
    c == ' ' || c == '\t' || c == '\r' || c == '\n' || c == '\u{b}' || c == '\u{c}' || c == '\u{85}'
        || c == '\u{a0}' || c == '\u{1680}' || (0x2000 <= u && u <= 0x200a) || c == '\u{2028}' || c
        == '\u{2029}' || c == '\u{202f}' || c == '\u{205f}' || c == '\u{3000}'
}

fn name_char(c: char) -> (r: bool)
    ensures
        r == is_name_char(c),
{
    let u = c as u32;
    (65 <= u && u <= 90) || (97 <= u && u <= 122) || (48 <= u && u <= 57) || c == '_'
}

fn quote_char(c: char) -> (r: bool)
    ensures
        r == is_quote(c),
{
    c == '\'' || c == '"'
}

// ---------------------------------------------------------------------
// Scanning.
// ---------------------------------------------------------------------

/// The index of the first non-whitespace character at or after `i`.
pub open spec fn scan_spaces(s: Seq<char>, i: int) -> int
    decreases s.len() - i,
{
    if 0 <= i < s.len() && is_space(s[i]) {
        scan_spaces(s, i + 1)
    } else {
        i
    }
}

/// The index where the run of name characters starting at `i` ends.
pub open spec fn scan_name(s: Seq<char>, i: int) -> int
    decreases s.len() - i,
{
    if 0 <= i < s.len() && is_name_char(s[i]) {
        scan_name(s, i + 1)
    } else {
        i
    }
}

proof fn lemma_scan_spaces_char(s: Seq<char>, i: int, k: int)
    requires
        0 <= i <= k <= s.len(),
        forall|j: int| i <= j < k ==> is_space(s[j]),
        k == s.len() || !is_space(s[k]),
    ensures
        scan_spaces(s, i) == k,
    decreases k - i,
{
    if i < k {
        lemma_scan_spaces_char(s, i + 1, k);
    }
}

proof fn lemma_scan_spaces_props(s: Seq<char>, i: int)
    requires
        0 <= i <= s.len(),
    ensures
        i <= scan_spaces(s, i) <= s.len(),
        forall|j: int| i <= j < scan_spaces(s, i) ==> is_space(s[j]),
        scan_spaces(s, i) == s.len() || !is_space(s[scan_spaces(s, i)]),
    decreases s.len() - i,
{
    if i < s.len() && is_space(s[i]) {
        lemma_scan_spaces_props(s, i + 1);
    }
}

proof fn lemma_scan_name_char(s: Seq<char>, i: int, k: int)
    requires
        0 <= i <= k <= s.len(),
        forall|j: int| i <= j < k ==> is_name_char(s[j]),
        k == s.len() || !is_name_char(s[k]),
    ensures
        scan_name(s, i) == k,
    decreases k - i,
{
    if i < k {
        lemma_scan_name_char(s, i + 1, k);
    }
}

// ---------------------------------------------------------------------
// Escape decoding.
// ---------------------------------------------------------------------

/// Decode backslash escapes: a backslash consumes the character right
/// after it and emits that character literally, whatever it is; all other
/// characters are copied verbatim.  `None` means the text ends in a
/// backslash with nothing left to consume.
pub open spec fn unescape(s: Seq<char>) -> Option<Seq<char>>
    decreases s.len(),
{
    if s.len() == 0 {
        Some(Seq::empty())
    } else if s[0] == '\\' {
        if s.len() == 1 {
            None
        } else {
            match unescape(s.skip(2)) {
                None => None,
                Some(t) => Some(seq![s[1]] + t),
            }
        }
    } else {
        match unescape(s.skip(1)) {
            None => None,
            Some(t) => Some(seq![s[0]] + t),
        }
    }
}

/// A prefix without backslashes is copied verbatim by escape decoding.
proof fn lemma_unescape_clean_prefix(s: Seq<char>, k: int)
    requires
        0 <= k <= s.len(),
        forall|j: int| 0 <= j < k ==> s[j] != '\\',
    ensures
        unescape(s) == match unescape(s.skip(k)) {
            None => None::<Seq<char>>,
            Some(t) => Some(s.take(k) + t),
        },
    decreases k,
{
    if k == 0 {
        assert(s.skip(0) =~= s);
        match unescape(s) {
            None => {},
            Some(t) => {
                assert(s.take(0) + t =~= t);
            },
        }
    } else {
        assert(s[0] != '\\');
        lemma_unescape_clean_prefix(s.skip(1), k - 1);
        assert(s.skip(1).skip(k - 1) =~= s.skip(k));
        match unescape(s.skip(k)) {
            None => {},
            Some(t) => {
                assert(seq![s[0]] + (s.skip(1).take(k - 1) + t) =~= s.take(k) + t);
            },
        }
    }
}

/// Escape-decode the character range `[from, to)` of `line`.
fn unescape_range(line: &str, from: usize, to: usize) -> (r: Option<String>)
    requires
        from <= to <= line@.len(),
    ensures
        match r {
            Some(v) => unescape(line@.subrange(from as int, to as int)) == Some(v@),
            None => unescape(line@.subrange(from as int, to as int)) is None,
        },
{
    let ghost seg = line@.subrange(from as int, to as int);
    let mut out: String = String::new();
    let mut cur: usize = from;
    proof {
        assert(seg.skip(cur - from) =~= seg);
        assert(out@ + seg =~= seg);
    }
    while cur < to
        invariant
            from <= cur <= to <= line@.len(),
            seg == line@.subrange(from as int, to as int),
            unescape(seg) == match unescape(line@.subrange(cur as int, to as int)) {
                None => None::<Seq<char>>,
                Some(t) => Some(out@ + t),
            },
        decreases to - cur,
    {
        let mut i: usize = cur;
        while i < to && line.get_char(i) != '\\'
            invariant
                cur <= i <= to <= line@.len(),
                forall|j: int| cur <= j < i ==> line@[j] != '\\',
            decreases to - i,
        {
            i += 1;
        }
        let ghost out0 = out@;
        let ghost mid = line@.subrange(cur as int, to as int);
        let ghost pre = line@.subrange(cur as int, i as int);
        let ghost tail = line@.subrange(i as int, to as int);
        proof {
            assert(forall|j: int| 0 <= j < i - cur ==> mid[j] != '\\');
            lemma_unescape_clean_prefix(mid, i - cur);
            assert(mid.take(i - cur) =~= pre);
            assert(mid.skip(i - cur) =~= tail);
        }
        out.append(line.substring_char(cur, i));
        if i == to {
            proof {
                assert(tail =~= Seq::<char>::empty());
                assert(unescape(tail) == Some(Seq::<char>::empty()));
                assert(pre + Seq::<char>::empty() =~= pre);
                assert(unescape(mid) == Some(pre));
                assert(unescape(seg) == Some(out0 + pre));
                assert(out@ + Seq::<char>::empty() =~= out0 + pre);
            }
            cur = i;
        } else if i + 1 == to {
            proof {
                assert(tail.len() == 1);
                assert(tail[0] == '\\');
                assert(unescape(tail) is None);
                assert(unescape(mid) is None);
                assert(unescape(seg) is None);
            }
            return None;
        } else {
            let ghost nxt = line@.subrange(i as int + 2, to as int);
            proof {
                assert(tail.len() >= 2);
                assert(tail[0] == '\\');
                assert(tail[1] == line@[i as int + 1]);
                assert(tail.skip(2) =~= nxt);
            }
            out.append(line.substring_char(i + 1, i + 2));
            proof {
                let c = line@[i as int + 1];
                assert(line@.subrange(i as int + 1, i as int + 2) =~= seq![c]);
                assert(out@ == out0 + pre + seq![c]);
                match unescape(nxt) {
                    None => {
                        assert(unescape(tail) is None);
                        assert(unescape(mid) is None);
                        assert(unescape(seg) is None);
                    },
                    Some(u) => {
                        assert(unescape(tail) == Some(seq![c] + u));
                        assert(unescape(mid) == Some(pre + (seq![c] + u)));
                        assert(unescape(seg) == Some(out0 + (pre + (seq![c] + u))));
                        assert(out0 + (pre + (seq![c] + u)) =~= out@ + u);
                    },
                }
            }
            cur = i + 2;
        }
    }
    proof {
        assert(line@.subrange(cur as int, to as int) =~= Seq::<char>::empty());
        assert(unescape(line@.subrange(cur as int, to as int)) == Some(Seq::<char>::empty()));
        assert(out@ + Seq::<char>::empty() =~= out@);
    }
    Some(out)
}

// ---------------------------------------------------------------------
// The grammar: what each line means.
// ---------------------------------------------------------------------

/// The meaning of the text that follows `NAME=`, per the quoting rules:
/// a single-quoted value is taken verbatim and may not contain a single
/// quote; a double-quoted value is escape-decoded and must end in an
/// unescaped closing quote; an unquoted value is the whole remainder of
/// the line, escape-decoded.
pub open spec fn classify_value(name: Seq<char>, rest: Seq<char>) -> LineClass {
    if rest.len() > 0 && rest[0] == '\'' {
        let inner = rest.skip(1);
        let quoted = if inner.len() > 0 && is_quote(inner.last()) {
            inner.drop_last()
        } else {
            inner
        };
        if quoted.contains('\'') {
            LineClass::Fail(YAIErrorKind::QuoteInQuoted)
        } else if !(inner.len() > 0 && inner.last() == '\'') {
            LineClass::Fail(YAIErrorKind::MismatchedQuotes)
        } else {
            LineClass::Entry(name, quoted)
        }
    } else if rest.len() > 0 && rest[0] == '"' {
        let inner = rest.skip(1);
        if !(inner.len() > 0 && inner.last() == '"') {
            LineClass::Fail(YAIErrorKind::MismatchedQuotes)
        } else {
            match unescape(inner.drop_last()) {
                None => LineClass::Fail(YAIErrorKind::MismatchedQuotes),
                Some(v) => LineClass::Entry(name, v),
            }
        }
    } else {
        match unescape(rest) {
            None => LineClass::Fail(YAIErrorKind::BackslashAtEnd),
            Some(v) => LineClass::Entry(name, v),
        }
    }
}

/// The meaning of one whole line: ignored (blank or comment), a binding
/// with its decoded value, or a parse failure.
pub open spec fn classify_line(s: Seq<char>) -> LineClass {
    let ws = scan_spaces(s, 0);
    if ws == s.len() || s[ws] == '#' {
        LineClass::Ignored
    } else {
        let ne = scan_name(s, 0);
        if 1 <= ne && ne < s.len() && s[ne] == '=' {
            classify_value(s.take(ne), s.skip(ne + 1))
        } else {
            LineClass::Fail(YAIErrorKind::BadLine)
        }
    }
}

// ---------------------------------------------------------------------
// The line parser.
// ---------------------------------------------------------------------

fn range_has_quote(line: &str, from: usize, to: usize) -> (r: bool)
    requires
        from <= to <= line@.len(),
    ensures
        r == line@.subrange(from as int, to as int).contains('\''),
{
    let ghost seg = line@.subrange(from as int, to as int);
    let mut i: usize = from;
    while i < to
        invariant
            from <= i <= to <= line@.len(),
            seg == line@.subrange(from as int, to as int),
            forall|j: int| from <= j < i ==> line@[j] != '\'',
        decreases to - i,
    {
        if line.get_char(i) == '\'' {
            proof {
                assert(seg[i - from] == '\'');
            }
            return true;
        }
        i += 1;
    }
    proof {
        if seg.contains('\'') {
            let j = choose|j: int| 0 <= j < seg.len() && seg[j] == '\'';
            assert(line@[from + j] == '\'');
        }
    }
    false
}

/// Parse one line.  An ignored (blank or comment) line yields `Ok(None)`;
/// a `NAME=value` assignment yields the name and the decoded value; any
/// other line yields the error, which carries the offending line.
pub fn parse_line(line: &str) -> (r: Result<Option<(String, String)>, YAIError>)
    ensures
        match r {
            Ok(None) => classify_line(line@) == LineClass::Ignored,
            Ok(Some((name, value))) => classify_line(line@) == LineClass::Entry(name@, value@),
            Err(e) => classify_line(line@) == LineClass::Fail(e.kind()) && e.line() == line@,
        },
{
    let n = line.unicode_len();
    // Blank lines and comments.
    let mut i: usize = 0;
    while i < n && space_char(line.get_char(i))
        invariant
            0 <= i <= n,
            n == line@.len(),
            forall|j: int| 0 <= j < i ==> is_space(line@[j]),
        decreases n - i,
    {
        i += 1;
    }
    proof {
        lemma_scan_spaces_char(line@, 0, i as int);
    }
    if i == n {
        return Ok(None);
    }
    if line.get_char(i) == '#' {
        return Ok(None);
    }
    // The `NAME=` part.
    let mut ne: usize = 0;
    while ne < n && name_char(line.get_char(ne))
        invariant
            0 <= ne <= n,
            n == line@.len(),
            forall|j: int| 0 <= j < ne ==> is_name_char(line@[j]),
        decreases n - ne,
    {
        ne += 1;
    }
    proof {
        lemma_scan_name_char(line@, 0, ne as int);
    }
    if ne == 0 || ne == n || line.get_char(ne) != '=' {
        return Err(YAIError::BadLine(line.to_owned()));
    }
    let name_str = line.substring_char(0, ne).to_owned();
    let ghost rest = line@.skip(ne as int + 1);
    proof {
        assert(classify_line(line@) == classify_value(line@.take(ne as int), rest));
        assert(line@.take(ne as int) == name_str@);
    }
    let vstart = ne + 1;
    proof {
        assert(rest.len() == n - vstart);
        assert(forall|j: int| 0 <= j < rest.len() ==> rest[j] == line@[vstart + j]);
    }
    if vstart < n && line.get_char(vstart) == '\'' {
        // A single-quoted value: taken verbatim, no escapes allowed.
        let ghost inner = rest.skip(1);
        proof {
            assert(inner =~= line@.subrange(vstart as int + 1, n as int));
        }
        let mut qend = n;
        if n > vstart + 1 && quote_char(line.get_char(n - 1)) {
            qend = n - 1;
            proof {
                assert(inner.drop_last() =~= line@.subrange(vstart as int + 1, n as int - 1));
            }
        }
        proof {
            assert(line@.subrange(vstart as int + 1, qend as int) == (if inner.len() > 0
                && is_quote(inner.last()) {
                inner.drop_last()
            } else {
                inner
            }));
        }
        if range_has_quote(line, vstart + 1, qend) {
            return Err(YAIError::QuoteInQuoted(line.to_owned()));
        }
        if !(n > vstart + 1 && line.get_char(n - 1) == '\'') {
            return Err(YAIError::MismatchedQuotes(line.to_owned()));
        }
        let value = line.substring_char(vstart + 1, qend).to_owned();
        Ok(Some((name_str, value)))
    } else if vstart < n && line.get_char(vstart) == '"' {
        // A double-quoted value: must end in an unescaped closing quote;
        // the inner text is escape-decoded.
        let ghost inner = rest.skip(1);
        proof {
            assert(inner =~= line@.subrange(vstart as int + 1, n as int));
        }
        if !(n > vstart + 1 && line.get_char(n - 1) == '"') {
            return Err(YAIError::MismatchedQuotes(line.to_owned()));
        }
        proof {
            assert(inner.drop_last() =~= line@.subrange(vstart as int + 1, n as int - 1));
        }
        match unescape_range(line, vstart + 1, n - 1) {
            None => Err(YAIError::MismatchedQuotes(line.to_owned())),
            Some(value) => Ok(Some((name_str, value))),
        }
    } else {
        // An unquoted value: the whole remainder, escape-decoded.
        proof {
            assert(rest =~= line@.subrange(vstart as int, n as int));
        }
        match unescape_range(line, vstart, n) {
            None => Err(YAIError::BackslashAtEnd(line.to_owned())),
            Some(value) => Ok(Some((name_str, value))),
        }
    }
}

// ---------------------------------------------------------------------
// Splitting a text into lines.
// ---------------------------------------------------------------------

/// The index of the first newline in `s`, or `s.len()` if there is none.
pub open spec fn first_nl(s: Seq<char>) -> int
    decreases s.len(),
{
    if s.len() == 0 {
        0
    } else if s[0] == '\n' {
        0
    } else {
        1 + first_nl(s.skip(1))
    }
}

proof fn lemma_first_nl_char(s: Seq<char>, k: int)
    requires
        0 <= k <= s.len(),
        forall|j: int| 0 <= j < k ==> s[j] != '\n',
        k == s.len() || s[k] == '\n',
    ensures
        first_nl(s) == k,
    decreases k,
{
    if k > 0 {
        lemma_first_nl_char(s.skip(1), k - 1);
    }
}

/// Strip one trailing carriage return, as left by a `\r\n` line ending.
pub open spec fn strip_cr(l: Seq<char>) -> Seq<char> {
    if l.len() > 0 && l.last() == '\r' {
        l.drop_last()
    } else {
        l
    }
}

/// Split a text into lines: a line ends at `\n` or `\r\n`, a final line
/// ending is optional, and a bare `\r` with no `\n` after it stays part
/// of its line.
pub open spec fn split_lines(s: Seq<char>) -> Seq<Seq<char>>
    decreases s.len(),
{
    if s.len() == 0 {
        Seq::empty()
    } else {
        let k = first_nl(s);
        if 0 <= k && k < s.len() {
            seq![strip_cr(s.take(k))] + split_lines(s.skip(k + 1))
        } else {
            seq![s]
        }
    }
}

// ---------------------------------------------------------------------
// Parsing a whole text.
// ---------------------------------------------------------------------

/// Parse lines in order: ignored lines are skipped, bindings accumulate
/// with a later line shadowing an earlier one of the same name, and the
/// first malformed line aborts the whole parse.
pub open spec fn parse_all(lines: Seq<Seq<char>>) -> ParseOutcome
    decreases lines.len(),
{
    if lines.len() == 0 {
        ParseOutcome::Done(Map::empty())
    } else {
        match classify_line(lines[0]) {
            LineClass::Ignored => parse_all(lines.drop_first()),
            LineClass::Entry(name, value) => match parse_all(lines.drop_first()) {
                ParseOutcome::Done(m) => ParseOutcome::Done(
                    if m.contains_key(name) {
                        m
                    } else {
                        m.insert(name, value)
                    },
                ),
                ParseOutcome::Failed(k, l) => ParseOutcome::Failed(k, l),
            },
            LineClass::Fail(k) => ParseOutcome::Failed(k, lines[0]),
        }
    }
}

/// Parse a whole text: split it into lines, parse each in file order,
/// and collect the bindings into a mapping.  The first malformed line
/// aborts the parse and is returned as the error.
pub fn parse_text(contents: &str) -> (r: Result<ConfigMapping, YAIError>)
    ensures
        match r {
            Ok(m) => m.well_formed() && parse_all(split_lines(contents@)) == ParseOutcome::Done(
                m@,
            ),
            Err(e) => parse_all(split_lines(contents@)) == ParseOutcome::Failed(
                e.kind(),
                e.line(),
            ),
        },
{
    let n = contents.unicode_len();
    let ghost all_lines = split_lines(contents@);
    let mut cm = ConfigMapping::new();
    let mut pos: usize = 0;
    let ghost mut li: int = 0;
    proof {
        assert(contents@.skip(0) =~= contents@);
        assert(all_lines.skip(0) =~= all_lines);
        match parse_all(all_lines) {
            ParseOutcome::Done(m) => {
                assert(cm@.union_prefer_right(m) =~= m);
            },
            ParseOutcome::Failed(k, l) => {},
        }
    }
    while pos < n
        invariant
            0 <= pos <= n,
            n == contents@.len(),
            0 <= li,
            all_lines == split_lines(contents@),
            split_lines(contents@.skip(pos as int)) == all_lines.skip(li),
            li + split_lines(contents@.skip(pos as int)).len() == all_lines.len(),
            cm.well_formed(),
            match parse_all(all_lines.skip(li)) {
                ParseOutcome::Done(m) => parse_all(all_lines) == ParseOutcome::Done(
                    cm@.union_prefer_right(m),
                ),
                ParseOutcome::Failed(k, l) => parse_all(all_lines) == ParseOutcome::Failed(k, l),
            },
        decreases n - pos,
    {
        let ghost s_pos = contents@.skip(pos as int);
        let ghost rest_lines = all_lines.skip(li);
        // Find the end of the current line.
        let mut end: usize = pos;
        while end < n && contents.get_char(end) != '\n'
            invariant
                pos <= end <= n,
                n == contents@.len(),
                forall|j: int| pos <= j < end ==> contents@[j] != '\n',
            decreases n - end,
        {
            end += 1;
        }
        proof {
            assert(forall|j: int| 0 <= j < end - pos ==> s_pos[j] != '\n');
            lemma_first_nl_char(s_pos, end - pos);
        }
        let line_end = if end < n && end > pos && contents.get_char(end - 1) == '\r' {
            end - 1
        } else {
            end
        };
        let piece = contents.substring_char(pos, line_end);
        proof {
            if end < n {
                assert(s_pos.take(end - pos) =~= contents@.subrange(pos as int, end as int));
                if end > pos && contents@[end - 1] == '\r' {
                    assert(strip_cr(s_pos.take(end - pos)) =~= contents@.subrange(
                        pos as int,
                        end as int - 1,
                    ));
                } else {
                    assert(strip_cr(s_pos.take(end - pos)) == s_pos.take(end - pos));
                }
                assert(s_pos.skip(end - pos + 1) =~= contents@.skip(end as int + 1));
                assert(rest_lines == seq![strip_cr(s_pos.take(end - pos))] + split_lines(
                    contents@.skip(end as int + 1),
                ));
                assert(rest_lines[0] == piece@);
                assert(rest_lines.drop_first() =~= split_lines(contents@.skip(end as int + 1)));
            } else {
                assert(end == n);
                assert(first_nl(s_pos) == s_pos.len());
                assert(rest_lines == seq![s_pos]);
                assert(piece@ =~= s_pos);
                assert(rest_lines[0] == piece@);
                assert(contents@.skip(n as int) =~= Seq::<char>::empty());
                assert(rest_lines.drop_first() =~= split_lines(contents@.skip(n as int)));
            }
            assert(rest_lines.len() > 0);
        }
        match parse_line(piece) {
            Ok(None) => {
                proof {
                    assert(parse_all(rest_lines) == parse_all(rest_lines.drop_first()));
                }
            },
            Ok(Some(nv)) => {
                let (ns, vs) = nv;
                let ghost cm0 = cm@;
                let ghost nsv = ns@;
                let ghost vsv = vs@;
                cm.insert(ns, vs);
                proof {
                    assert(classify_line(rest_lines[0]) == LineClass::Entry(nsv, vsv));
                    match parse_all(rest_lines.drop_first()) {
                        ParseOutcome::Done(m2) => {
                            let merged = if m2.contains_key(nsv) {
                                m2
                            } else {
                                m2.insert(nsv, vsv)
                            };
                            assert(parse_all(rest_lines) == ParseOutcome::Done(merged));
                            assert(cm0.union_prefer_right(merged) =~= cm0.insert(
                                nsv,
                                vsv,
                            ).union_prefer_right(m2));
                        },
                        ParseOutcome::Failed(k, l) => {
                            assert(parse_all(rest_lines) == ParseOutcome::Failed(k, l));
                        },
                    }
                }
            },
            Err(e) => {
                proof {
                    assert(parse_all(rest_lines) == ParseOutcome::Failed(e.kind(), rest_lines[0]));
                }
                return Err(e);
            },
        }
        pos = if end < n {
            end + 1
        } else {
            n
        };
        proof {
            li = li + 1;
            assert(rest_lines.drop_first() =~= all_lines.skip(li));
            assert(split_lines(contents@.skip(pos as int)) == all_lines.skip(li));
        }
    }
    proof {
        assert(contents@.skip(pos as int) =~= Seq::<char>::empty());
        assert(all_lines.skip(li).len() == 0);
        assert(all_lines.skip(li) =~= Seq::<Seq<char>>::empty());
        assert(parse_all(all_lines.skip(li)) == ParseOutcome::Done(
            Map::<Seq<char>, Seq<char>>::empty(),
        ));
        assert(cm@.union_prefer_right(Map::empty()) =~= cm@);
    }
    Ok(cm)
}

// ---------------------------------------------------------------------
// Laws of the dialect.
// ---------------------------------------------------------------------

/// Law: a line consisting only of whitespace, or whose first
/// non-whitespace character is `#`, is ignored: it yields neither a
/// binding nor an error.
pub proof fn lemma_ignored_line(s: Seq<char>, k: int)
    requires
        0 <= k <= s.len(),
        forall|j: int| 0 <= j < k ==> is_space(s[j]),
        k == s.len() || s[k] == '#',
    ensures
        classify_line(s) == LineClass::Ignored,
{
    let ws = scan_spaces(s, 0);
    lemma_scan_spaces_props(s, 0);
    if ws < k {
        assert(is_space(s[ws]));
        assert(false);
    }
    if ws < s.len() {
        if k < ws {
            assert(is_space(s[k]));
            assert(!is_space('#'));
            assert(false);
        }
        assert(ws == k);
        assert(s[ws] == '#');
    }
}

/// Text without backslashes decodes to itself: escape decoding only ever
/// rewrites a backslash and the character after it.
pub proof fn lemma_unescape_verbatim(s: Seq<char>)
    requires
        forall|j: int| 0 <= j < s.len() ==> s[j] != '\\',
    ensures
        unescape(s) == Some(s),
{
    lemma_unescape_clean_prefix(s, s.len() as int);
    assert(s.skip(s.len() as int) =~= Seq::<char>::empty());
    assert(s.take(s.len() as int) =~= s);
    assert(s + Seq::<char>::empty() =~= s);
}

/// Law: a well-formed assignment whose value part holds no quote
/// character decodes to the literal text after `=`, with escape decoding
/// applied; a trailing unconsumed backslash is the one way it can fail.
pub proof fn lemma_unquoted_entry(s: Seq<char>, n: int)
    requires
        1 <= n < s.len(),
        s[n] == '=',
        forall|j: int| 0 <= j < n ==> is_name_char(s[j]),
        forall|j: int| n < j < s.len() ==> !is_quote(s[j]),
    ensures
        classify_line(s) == match unescape(s.skip(n + 1)) {
            None => LineClass::Fail(YAIErrorKind::BackslashAtEnd),
            Some(v) => LineClass::Entry(s.take(n), v),
        },
{
    assert(is_name_char(s[0]));
    assert(!is_space(s[0]));
    assert(s[0] != '#');
    lemma_scan_spaces_char(s, 0, 0);
    assert(!is_name_char('='));
    lemma_scan_name_char(s, 0, n);
    let rest = s.skip(n + 1);
    if rest.len() > 0 {
        assert(rest[0] == s[n + 1]);
        assert(!is_quote(s[n + 1]));
    }
    assert(classify_line(s) == classify_value(s.take(n), rest));
}

/// Law (round trip): a single-quoted value whose inner text contains no
/// single quote and no backslash decodes to exactly that inner text.
pub proof fn lemma_single_quoted_round_trip(name: Seq<char>, inner: Seq<char>)
    requires
        1 <= name.len(),
        forall|j: int| 0 <= j < name.len() ==> is_name_char(name[j]),
        forall|j: int| 0 <= j < inner.len() ==> inner[j] != '\'' && inner[j] != '\\',
    ensures
        classify_line(name + seq!['='] + seq!['\''] + inner + seq!['\'']) == LineClass::Entry(
            name,
            inner,
        ),
{
    let s = name + seq!['='] + seq!['\''] + inner + seq!['\''];
    let nl = name.len() as int;
    assert(s.len() == nl + inner.len() + 3);
    assert(forall|j: int| 0 <= j < nl ==> s[j] == name[j]);
    assert(s[nl] == '=');
    assert(s[nl + 1] == '\'');
    assert(forall|j: int| 0 <= j < inner.len() ==> s[nl + 2 + j] == inner[j]);
    assert(s[s.len() - 1] == '\'');
    assert(is_name_char(s[0]));
    assert(!is_space(s[0]));
    assert(s[0] != '#');
    lemma_scan_spaces_char(s, 0, 0);
    assert(!is_name_char('='));
    lemma_scan_name_char(s, 0, nl);
    let rest = s.skip(nl + 1);
    assert(rest[0] == '\'');
    let quoted_inner = rest.skip(1);
    assert(quoted_inner =~= inner + seq!['\'']);
    assert(quoted_inner.len() > 0);
    assert(quoted_inner.last() == '\'');
    assert(quoted_inner.drop_last() =~= inner);
    assert(!inner.contains('\'')) by {
        if inner.contains('\'') {
            let j = choose|j: int| 0 <= j < inner.len() && inner[j] == '\'';
            assert(inner[j] != '\'');
        }
    }
    assert(s.take(nl) =~= name);
    assert(classify_line(s) == classify_value(s.take(nl), rest));
}

/// Law (idempotence): the outcome of a parse is a function of the input
/// text alone, so parsing the same well-formed text twice yields mappings
/// that agree on every key.
pub proof fn lemma_parse_idempotent(
    text: Seq<char>,
    m1: Map<Seq<char>, Seq<char>>,
    m2: Map<Seq<char>, Seq<char>>,
)
    requires
        parse_all(split_lines(text)) == ParseOutcome::Done(m1),
        parse_all(split_lines(text)) == ParseOutcome::Done(m2),
    ensures
        m1 == m2,
        forall|k: Seq<char>| m1.contains_key(k) <==> m2.contains_key(k),
        forall|k: Seq<char>| m1.contains_key(k) ==> m1[k] == m2[k],
{
}

} // verus!
