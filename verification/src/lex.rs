//! The lexer for the rule notation: it turns raw text into the tokens the
//! parser consumes.
//!
//! The notation knows newlines (kept, for line counting), identifiers
//! (`[a-zA-Z_][a-zA-Z_0-9]*`), the punctuation `<`, `>`, `::=` and `|`, and
//! quoted terminals (`"..."`, where a backslash makes the next character
//! literal); spaces, carriage returns and tabs in between are skipped. A
//! terminal token carries the text between its quotes with the escape
//! sequences still unresolved; the parser resolves them.

use vstd::prelude::*;

use crate::text::char_string;
use crate::text::to_chars;
use vstd::string::StrSliceExecFns;

verus! {

/// Failure of lexing: an unexpected character, with the count of newlines
/// seen before it and the character itself as text.
#[derive(Debug, Clone)]
pub enum LexError {
    Unexpected(usize, String),
}

/// One token of the rule notation.
#[derive(Debug)]
pub enum Tk {
    /// A newline, kept so the parser can count lines.
    Nl,
    /// An identifier: a rule name.
    Id(String),
    /// `<`, opening a rule name or non-terminal.
    Lt,
    /// `>`, closing a rule name or non-terminal.
    Gt,
    /// `::=`, binding a rule name to its variants.
    Assign,
    /// `|`, separating the variants of a rule.
    Pipe,
    /// A quoted terminal, without its quotes, escapes unresolved.
    Terminal(String),
}

/// Mathematical image of a token.
pub enum TkView {
    Nl,
    Id(Seq<char>),
    Lt,
    Gt,
    Assign,
    Pipe,
    Terminal(Seq<char>),
}

impl View for Tk {
    type V = TkView;

    open spec fn view(&self) -> TkView {
        match self {
            Tk::Nl => TkView::Nl,
            Tk::Id(s) => TkView::Id(s@),
            Tk::Lt => TkView::Lt,
            Tk::Gt => TkView::Gt,
            Tk::Assign => TkView::Assign,
            Tk::Pipe => TkView::Pipe,
            Tk::Terminal(s) => TkView::Terminal(s@),
        }
    }
}

/// The images of a token list.
pub open spec fn tks_view(s: Seq<Tk>) -> Seq<TkView> {
    s.map_values(|t: Tk| t@)
}

/// Whether `c` may start an identifier.
pub open spec fn is_id_start(c: char) -> bool {
    ('a' <= c && c <= 'z') || ('A' <= c && c <= 'Z') || c == '_'
}

/// Whether `c` may continue an identifier.
pub open spec fn is_id_char(c: char) -> bool {
    is_id_start(c) || ('0' <= c && c <= '9')
}

/// The position right after the identifier characters running from `j`.
pub open spec fn id_end(s: Seq<char>, j: int) -> int
    decreases s.len() - j,
{
    if 0 <= j < s.len() && is_id_char(s[j]) {
        id_end(s, j + 1)
    } else {
        j
    }
}

/// The position right after the quote closing a terminal whose content
/// starts at `j`, if the terminal is closed at all; a backslash makes the
/// following character content.
pub open spec fn term_end(s: Seq<char>, j: int) -> Option<int>
    decreases s.len() - j,
{
    if j < 0 || j >= s.len() {
        None
    } else if s[j] == '"' {
        Some(j + 1)
    } else if s[j] == '\\' {
        if j + 1 >= s.len() {
            None
        } else {
            term_end(s, j + 2)
        }
    } else {
        term_end(s, j + 1)
    }
}

/// Prepend a token to the outcome of lexing the rest.
pub open spec fn tk_cons(t: TkView, rest: Result<Seq<TkView>, (int, Seq<char>)>) -> Result<
    Seq<TkView>,
    (int, Seq<char>),
> {
    match rest {
        Ok(ts) => Ok(seq![t] + ts),
        Err(e) => Err(e),
    }
}

/// Lex the text from position `pos` on, `line` newlines having been seen:
/// the remaining tokens, or the newline count and offending character of the
/// first lexical error.
pub open spec fn spec_tokenize_from(s: Seq<char>, pos: int, line: int) -> Result<
    Seq<TkView>,
    (int, Seq<char>),
>
    decreases s.len() - pos,
{
    if pos < 0 || pos >= s.len() {
        Ok(Seq::empty())
    } else {
        let c = s[pos];
        if c == ' ' || c == '\r' || c == '\t' {
            spec_tokenize_from(s, pos + 1, line)
        } else if c == '\n' {
            tk_cons(TkView::Nl, spec_tokenize_from(s, pos + 1, line + 1))
        } else if c == '<' {
            tk_cons(TkView::Lt, spec_tokenize_from(s, pos + 1, line))
        } else if c == '>' {
            tk_cons(TkView::Gt, spec_tokenize_from(s, pos + 1, line))
        } else if c == '|' {
            tk_cons(TkView::Pipe, spec_tokenize_from(s, pos + 1, line))
        } else if c == ':' {
            if pos + 3 <= s.len() && s[pos + 1] == ':' && s[pos + 2] == '=' {
                tk_cons(TkView::Assign, spec_tokenize_from(s, pos + 3, line))
            } else {
                Err((line, seq![c]))
            }
        } else if is_id_start(c) {
            let end = id_end(s, pos + 1);
            proof {
                lemma_id_end_bounds(s, pos + 1);
            }
            tk_cons(TkView::Id(s.subrange(pos, end)), spec_tokenize_from(s, end, line))
        } else if c == '"' {
            match term_end(s, pos + 1) {
                Some(end) => {
                    proof {
                        lemma_term_end_bounds(s, pos + 1);
                    }
                    tk_cons(
                        TkView::Terminal(s.subrange(pos + 1, end - 1)),
                        spec_tokenize_from(s, end, line),
                    )
                },
                None => Err((line, seq![c])),
            }
        } else {
            Err((line, seq![c]))
        }
    }
}

/// Lexing an identifier stops within the text, after where it started.
pub proof fn lemma_id_end_bounds(s: Seq<char>, j: int)
    requires
        0 <= j <= s.len(),
    ensures
        j <= id_end(s, j) <= s.len(),
    decreases s.len() - j,
{
    if 0 <= j < s.len() && is_id_char(s[j]) {
        lemma_id_end_bounds(s, j + 1);
    }
}

/// A closed terminal ends within the text, after where its content started.
pub proof fn lemma_term_end_bounds(s: Seq<char>, j: int)
    requires
        0 <= j,
    ensures
        term_end(s, j) matches Some(e) ==> j < e <= s.len(),
    decreases s.len() - j,
{
    if 0 <= j < s.len() && s[j] != '"' {
        if s[j] == '\\' {
            if j + 1 < s.len() {
                lemma_term_end_bounds(s, j + 2);
            }
        } else {
            lemma_term_end_bounds(s, j + 1);
        }
    }
}

/// The whole lexing of a text: its tokens, or the first lexical error.
pub open spec fn spec_tokenize(s: Seq<char>) -> Result<Seq<TkView>, (int, Seq<char>)> {
    spec_tokenize_from(s, 0, 0)
}

/// Whether `c` may start an identifier.
fn id_start_exec(c: char) -> (b: bool)
    ensures
        b == is_id_start(c),
{
    ('a' <= c && c <= 'z') || ('A' <= c && c <= 'Z') || c == '_'
}

/// Whether `c` may continue an identifier.
fn id_char_exec(c: char) -> (b: bool)
    ensures
        b == is_id_char(c),
{
    id_start_exec(c) || ('0' <= c && c <= '9')
}

/// Scan to the end of an identifier whose characters run from `j0`.
fn scan_id_end(chars: &Vec<char>, j0: usize) -> (e: usize)
    requires
        j0 <= chars@.len(),
    ensures
        id_end(chars@, j0 as int) == e as int,
        j0 <= e <= chars@.len(),
{
    let mut j = j0;
    while j < chars.len() && id_char_exec(chars[j])
        invariant
            j0 <= j <= chars@.len(),
            id_end(chars@, j0 as int) == id_end(chars@, j as int),
        decreases chars@.len() - j,
    {
        j += 1;
    }
    j
}

/// Scan to the position right after the quote closing a terminal whose
/// content starts at `j0`, if any.
fn scan_term_end(chars: &Vec<char>, j0: usize) -> (r: Option<usize>)
    requires
        j0 <= chars@.len(),
    ensures
        match r {
            Some(e) => term_end(chars@, j0 as int) == Some(e as int) && j0 < e
                <= chars@.len(),
            None => term_end(chars@, j0 as int) is None,
        },
{
    let mut j = j0;
    while j < chars.len()
        invariant
            j0 <= j <= chars@.len(),
            term_end(chars@, j0 as int) == term_end(chars@, j as int),
        decreases chars@.len() - j,
    {
        if chars[j] == '"' {
            return Some(j + 1);
        } else if chars[j] == '\\' {
            if j + 1 >= chars.len() {
                return None;
            }
            j += 2;
        } else {
            j += 1;
        }
    }
    None
}

/// Lex the whole text into tokens; on the first unexpected character, fail
/// with the count of newlines seen before it and the character itself.
pub fn tokenize(data: &str) -> (r: Result<Vec<Tk>, LexError>)
    ensures
        match r {
            Ok(v) => spec_tokenize(data@) == Ok::<_, (int, Seq<char>)>(tks_view(v@)) && v@.len()
                <= data@.len(),
            Err(LexError::Unexpected(line, txt)) => spec_tokenize(data@) == Err::<Seq<TkView>, _>(
                (line as int, txt@),
            ),
        },
{
    let chars = to_chars(data);
    let ghost s = data@;
    let mut out: Vec<Tk> = Vec::new();
    let mut pos: usize = 0;
    let mut line: usize = 0;
    while pos < chars.len()
        invariant
            chars@ == s,
            s == data@,
            s.len() <= usize::MAX,
            pos <= s.len(),
            line <= pos,
            out@.len() <= pos,
            match spec_tokenize_from(s, pos as int, line as int) {
                Ok(ts) => spec_tokenize_from(s, 0, 0) == Ok::<_, (int, Seq<char>)>(
                    tks_view(out@) + ts,
                ),
                Err(e) => spec_tokenize_from(s, 0, 0) == Err::<Seq<TkView>, _>(e),
            },
        decreases s.len() - pos,
    {
        let ghost out0 = out@;
        let ghost pos0 = pos as int;
        let ghost line0 = line as int;
        let c = chars[pos];
        if c == ' ' || c == '\r' || c == '\t' {
            pos += 1;
        } else if c == '\n' {
            let ghost t = TkView::Nl;
            out.push(Tk::Nl);
            pos += 1;
            line += 1;
            proof {
                assert(tks_view(out@) =~= tks_view(out0).push(t));
                lemma_push_token(s, out0, out@, t, pos0, pos as int, line0, line as int);
            }
        } else if c == '<' {
            let ghost t = TkView::Lt;
            out.push(Tk::Lt);
            pos += 1;
            proof {
                assert(tks_view(out@) =~= tks_view(out0).push(t));
                lemma_push_token(s, out0, out@, t, pos0, pos as int, line0, line0);
            }
        } else if c == '>' {
            let ghost t = TkView::Gt;
            out.push(Tk::Gt);
            pos += 1;
            proof {
                assert(tks_view(out@) =~= tks_view(out0).push(t));
                lemma_push_token(s, out0, out@, t, pos0, pos as int, line0, line0);
            }
        } else if c == '|' {
            let ghost t = TkView::Pipe;
            out.push(Tk::Pipe);
            pos += 1;
            proof {
                assert(tks_view(out@) =~= tks_view(out0).push(t));
                lemma_push_token(s, out0, out@, t, pos0, pos as int, line0, line0);
            }
        } else if c == ':' {
            if chars.len() - pos >= 3 && chars[pos + 1] == ':' && chars[pos + 2] == '=' {
                let ghost t = TkView::Assign;
                out.push(Tk::Assign);
                pos += 3;
                proof {
                    assert(tks_view(out@) =~= tks_view(out0).push(t));
                    lemma_push_token(s, out0, out@, t, pos0, pos as int, line0, line0);
                }
            } else {
                return Err(LexError::Unexpected(line, char_string(c)));
            }
        } else if id_start_exec(c) {
            let e = scan_id_end(&chars, pos + 1);
            let id = data.substring_char(pos, e).to_owned();
            proof {
                assert(id@ == s.subrange(pos0, e as int));
            }
            let ghost t = TkView::Id(id@);
            out.push(Tk::Id(id));
            proof {
                assert(tks_view(out@) =~= tks_view(out0).push(t));
                lemma_push_token(s, out0, out@, t, pos0, e as int, line0, line0);
            }
            pos = e;
        } else if c == '"' {
            match scan_term_end(&chars, pos + 1) {
                Some(e) => {
                    let content = data.substring_char(pos + 1, e - 1).to_owned();
                    proof {
                        assert(content@ == s.subrange(pos0 + 1, e - 1 as int));
                    }
                    let ghost t = TkView::Terminal(content@);
                    out.push(Tk::Terminal(content));
                    proof {
                        assert(tks_view(out@) =~= tks_view(out0).push(t));
                        lemma_push_token(s, out0, out@, t, pos0, e as int, line0, line0);
                    }
                    pos = e;
                },
                None => {
                    return Err(LexError::Unexpected(line, char_string(c)));
                },
            }
        } else {
            return Err(LexError::Unexpected(line, char_string(c)));
        }
    }
    proof {
        assert(tks_view(out@) + Seq::<TkView>::empty() =~= tks_view(out@));
    }
    Ok(out)
}

/// One step of the main lexing loop: if the token at `pos0` is `t`, the
/// scan resumes at `pos1`, and `out1` is `out0` with `t` appended, then the
/// running account of the whole lexing is kept.
proof fn lemma_push_token(
    s: Seq<char>,
    out0: Seq<Tk>,
    out1: Seq<Tk>,
    t: TkView,
    pos0: int,
    pos1: int,
    line0: int,
    line1: int,
)
    requires
        tks_view(out1) == tks_view(out0).push(t),
        spec_tokenize_from(s, pos0, line0) == tk_cons(t, spec_tokenize_from(s, pos1, line1)),
        match spec_tokenize_from(s, pos0, line0) {
            Ok(ts) => spec_tokenize_from(s, 0, 0) == Ok::<_, (int, Seq<char>)>(
                tks_view(out0) + ts,
            ),
            Err(e) => spec_tokenize_from(s, 0, 0) == Err::<Seq<TkView>, _>(e),
        },
    ensures
        match spec_tokenize_from(s, pos1, line1) {
            Ok(ts) => spec_tokenize_from(s, 0, 0) == Ok::<_, (int, Seq<char>)>(
                tks_view(out1) + ts,
            ),
            Err(e) => spec_tokenize_from(s, 0, 0) == Err::<Seq<TkView>, _>(e),
        },
{
    match spec_tokenize_from(s, pos1, line1) {
        Ok(ts) => {
            assert(tks_view(out1) + ts =~= tks_view(out0) + (seq![t] + ts));
        },
        Err(e) => {},
    }
}

} // verus!
