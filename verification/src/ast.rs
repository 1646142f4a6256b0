//! The grammar model: atoms, variants and rules, together with the parser that
//! turns a token stream into a list of rules.

use vstd::prelude::*;

use crate::lex::LexError;
use crate::lex::Tk;
use crate::lex::TkView;
use crate::lex::tks_view;
use crate::lex::tokenize;
use crate::text::to_chars;
use vstd::string::StringExecFns;

verus! {

/// The basic unit of a rule: either a literal piece of text to match exactly,
/// or a reference to another rule by name.
#[derive(Debug, Clone)]
pub enum Atom {
    Terminal { content: String },
    NonTerminal { name: String },
}

/// One alternative of a rule: an ordered sequence of atoms, all of which must
/// match in order for the variant to match.
#[derive(Debug, Clone)]
pub struct RuleVariant {
    pub items: Vec<Atom>,
}

/// A named rule: it matches a string exactly when at least one of its variants
/// does, the variants being tried in declaration order.
#[derive(Debug, Clone)]
pub struct Rule {
    pub name: String,
    pub variants: Vec<RuleVariant>,
}

/// Mathematical image of an [`Atom`]: the strings become sequences of
/// characters.
pub enum AtomView {
    Terminal { content: Seq<char> },
    NonTerminal { name: Seq<char> },
}

/// Mathematical image of a [`Rule`]: a name and the variants, each variant a
/// sequence of atom views.
pub struct RuleView {
    pub name: Seq<char>,
    pub variants: Seq<Seq<AtomView>>,
}

impl View for Atom {
    type V = AtomView;

    open spec fn view(&self) -> AtomView {
        match self {
            Atom::Terminal { content } => AtomView::Terminal { content: content@ },
            Atom::NonTerminal { name } => AtomView::NonTerminal { name: name@ },
        }
    }
}

impl View for RuleVariant {
    type V = Seq<AtomView>;

    open spec fn view(&self) -> Seq<AtomView> {
        self.items@.map_values(|a: Atom| a@)
    }
}

impl View for Rule {
    type V = RuleView;

    open spec fn view(&self) -> RuleView {
        RuleView {
            name: self.name@,
            variants: self.variants@.map_values(|v: RuleVariant| v@),
        }
    }
}

/// The image of a whole rule list.
pub open spec fn rules_view(rs: Seq<Rule>) -> Seq<RuleView> {
    rs.map_values(|r: Rule| r@)
}

/// The images of a variant list.
pub open spec fn variants_view(s: Seq<RuleVariant>) -> Seq<Seq<AtomView>> {
    s.map_values(|v: RuleVariant| v@)
}

/// Failure of parsing, each wrapping layer naming the construct that was
/// being read when the inner failure struck.
#[derive(Debug)]
pub enum ParseError {
    /// The failure struck while reading an atom.
    InAtom(Box<ParseError>),
    /// The failure struck while reading the numbered variant of a rule.
    InVariant(usize, Box<ParseError>),
    /// The failure struck while reading the named rule (or, where the name
    /// was not reached yet, a note saying so).
    InRule(String, Box<ParseError>),
    /// The failure struck between rules.
    InFile(Box<ParseError>),
    /// An unexpected token: the line count, the token's text, and a hint at
    /// what was expected.
    UnexpectedHint(usize, String, String),
    /// The text could not even be lexed.
    Lex(LexError),
}

/// One wrapping layer of a parse failure, mathematically.
pub enum ParseCtx {
    Atom,
    Variant(int),
    InRule(Seq<char>),
    File,
}

/// The innermost failure of a parse error.
pub enum ParseLeaf {
    Unexpected(int, Seq<char>, Seq<char>),
    Lex(int, Seq<char>),
}

/// Mathematical image of a [`ParseError`]: the wrapping layers outermost
/// first, and the innermost failure.
pub struct ParseErrView {
    pub ctx: Seq<ParseCtx>,
    pub leaf: ParseLeaf,
}

/// The image of a parse error.
pub open spec fn perr_view(e: &ParseError) -> ParseErrView
    decreases e,
{
    match e {
        ParseError::InAtom(b) => perr_wrap(ParseCtx::Atom, perr_view(&**b)),
        ParseError::InVariant(i, b) => perr_wrap(ParseCtx::Variant(*i as int), perr_view(&**b)),
        ParseError::InRule(n, b) => perr_wrap(ParseCtx::InRule(n@), perr_view(&**b)),
        ParseError::InFile(b) => perr_wrap(ParseCtx::File, perr_view(&**b)),
        ParseError::UnexpectedHint(l, tk, hint) => perr_leaf(
            ParseLeaf::Unexpected(*l as int, tk@, hint@),
        ),
        ParseError::Lex(LexError::Unexpected(l, txt)) => perr_leaf(
            ParseLeaf::Lex(*l as int, txt@),
        ),
    }
}

/// Wrap one more layer around a failure.
pub open spec fn perr_wrap(c: ParseCtx, e: ParseErrView) -> ParseErrView {
    ParseErrView { ctx: seq![c] + e.ctx, leaf: e.leaf }
}

/// A bare innermost failure.
pub open spec fn perr_leaf(l: ParseLeaf) -> ParseErrView {
    ParseErrView { ctx: Seq::empty(), leaf: l }
}

/// One character of a token's content, escaped for a diagnostic:
/// backslashes, quotes, newlines, tabs and carriage returns take their
/// source-notation escape; every other character stands as itself.
pub open spec fn escape_char(c: char) -> Seq<char> {
    if c == '\\' {
        seq!['\\', '\\']
    } else if c == '"' {
        seq!['\\', '"']
    } else if c == '\n' {
        seq!['\\', 'n']
    } else if c == '\t' {
        seq!['\\', 't']
    } else if c == '\r' {
        seq!['\\', 'r']
    } else {
        seq![c]
    }
}

/// A token content escaped for a diagnostic, from position `i` on.
pub open spec fn spec_escape_from(s: Seq<char>, i: int) -> Seq<char>
    decreases s.len() - i,
{
    if i < 0 || i >= s.len() {
        Seq::empty()
    } else {
        escape_char(s[i]) + spec_escape_from(s, i + 1)
    }
}

/// A whole token content escaped for a diagnostic.
pub open spec fn spec_escape(s: Seq<char>) -> Seq<char> {
    spec_escape_from(s, 0)
}

/// The text a token is rendered as in a diagnostic: its content, where it
/// has one, quoted and escaped.
pub open spec fn spec_token_text(t: TkView) -> Seq<char> {
    match t {
        TkView::Nl => "Nl"@,
        TkView::Id(s) => "Id(\""@ + spec_escape(s) + "\")"@,
        TkView::Lt => "Lt"@,
        TkView::Gt => "Gt"@,
        TkView::Assign => "Assign"@,
        TkView::Pipe => "Pipe"@,
        TkView::Terminal(s) => "Terminal(\""@ + spec_escape(s) + "\")"@,
    }
}

/// The diagnostic for an unexpected token (or end of input) at `pos`.
pub open spec fn spec_unexpected(ts: Seq<TkView>, pos: int, line: int, exp: Seq<char>) -> ParseErrView {
    perr_leaf(
        ParseLeaf::Unexpected(
            line,
            if 0 <= pos < ts.len() {
                spec_token_text(ts[pos])
            } else {
                "EOF"@
            },
            exp,
        ),
    )
}

/// One character of an escape sequence, resolved.
pub open spec fn unescape_char(c: char) -> char {
    if c == 'n' {
        '\n'
    } else if c == 't' {
        '\t'
    } else if c == 'r' {
        '\r'
    } else {
        c
    }
}

/// Resolve escape sequences from position `i` on; `esc` says whether the
/// character before position `i` was an unconsumed backslash.
pub open spec fn spec_unescape_from(s: Seq<char>, i: int, esc: bool) -> Seq<char>
    decreases s.len() - i,
{
    if i < 0 || i >= s.len() {
        Seq::empty()
    } else if esc {
        seq![unescape_char(s[i])] + spec_unescape_from(s, i + 1, false)
    } else if s[i] == '\\' {
        spec_unescape_from(s, i + 1, true)
    } else {
        seq![s[i]] + spec_unescape_from(s, i + 1, false)
    }
}

/// A terminal's content with its escape sequences resolved: a backslash
/// makes the next character literal (with `n`, `t` and `r` standing for
/// newline, tab and carriage return); a trailing lone backslash is dropped.
pub open spec fn spec_unescape(s: Seq<char>) -> Seq<char> {
    spec_unescape_from(s, 0, false)
}

// ------------------------------------------------------------------
// The parse itself, mathematically: each function mirrors one reduction
// step and yields the parsed piece (or the failure), the position after
// it, and the line count after it.
// ------------------------------------------------------------------
/// Read one atom at `pos`: a quoted terminal, or `<`, an identifier and
/// `>` forming a non-terminal.
pub open spec fn spec_reduce_atom(ts: Seq<TkView>, pos: int, line: int) -> (Result<
    AtomView,
    ParseErrView,
>, int, int) {
    if 0 <= pos < ts.len() && ts[pos] is Lt {
        if pos + 1 < ts.len() && ts[pos + 1] is Id {
            if pos + 2 < ts.len() && ts[pos + 2] is Gt {
                (Ok(AtomView::NonTerminal { name: ts[pos + 1]->Id_0 }), pos + 3, line)
            } else {
                (
                    Err(perr_wrap(ParseCtx::Atom, spec_unexpected(ts, pos + 2, line, "'>'"@))),
                    pos + 2,
                    line,
                )
            }
        } else {
            (
                Err(
                    perr_wrap(
                        ParseCtx::Atom,
                        spec_unexpected(ts, pos + 1, line, "non-terminal identifier"@),
                    ),
                ),
                pos + 1,
                line,
            )
        }
    } else if 0 <= pos < ts.len() && ts[pos] is Terminal {
        (Ok(AtomView::Terminal { content: spec_unescape(ts[pos]->Terminal_0) }), pos + 1, line)
    } else {
        (
            Err(perr_wrap(ParseCtx::Atom, spec_unexpected(ts, pos, line, "'<' or \"...\""@))),
            pos,
            line,
        )
    }
}

/// After a successful atom the position has advanced, within bounds.
pub proof fn lemma_atom_advances(ts: Seq<TkView>, pos: int, line: int)
    requires
        0 <= pos <= ts.len(),
    ensures
        spec_reduce_atom(ts, pos, line).0 is Ok ==> pos < spec_reduce_atom(ts, pos, line).1
            <= ts.len(),
        spec_reduce_atom(ts, pos, line).2 == line,
{
}

/// Read atoms at `pos` onto the variant `acc` for as long as one can start.
pub open spec fn spec_reduce_variant(
    ts: Seq<TkView>,
    pos: int,
    line: int,
    idx: int,
    acc: Seq<AtomView>,
) -> (Result<Seq<AtomView>, ParseErrView>, int, int)
    decreases ts.len() - pos,
{
    let (ra, pos1, line1) = spec_reduce_atom(ts, pos, line);
    match ra {
        Err(e) => (Err(perr_wrap(ParseCtx::Variant(idx), e)), pos1, line1),
        Ok(a) => {
            proof {
                if 0 <= pos && pos <= ts.len() {
                    lemma_atom_advances(ts, pos, line);
                }
            }
            if 0 <= pos && pos <= ts.len() && pos1 < ts.len() && (ts[pos1] is Lt
                || ts[pos1] is Terminal) {
                spec_reduce_variant(ts, pos1, line1, idx, acc.push(a))
            } else {
                (Ok(acc.push(a)), pos1, line1)
            }
        },
    }
}

/// After a successful variant the position has advanced, within bounds.
pub proof fn lemma_variant_advances(
    ts: Seq<TkView>,
    pos: int,
    line: int,
    idx: int,
    acc: Seq<AtomView>,
)
    requires
        0 <= pos <= ts.len(),
    ensures
        spec_reduce_variant(ts, pos, line, idx, acc).0 is Ok ==> pos < spec_reduce_variant(
            ts,
            pos,
            line,
            idx,
            acc,
        ).1 <= ts.len(),
        spec_reduce_variant(ts, pos, line, idx, acc).2 == line,
    decreases ts.len() - pos,
{
    lemma_atom_advances(ts, pos, line);
    let (ra, pos1, line1) = spec_reduce_atom(ts, pos, line);
    if ra is Ok && pos1 < ts.len() && (ts[pos1] is Lt || ts[pos1] is Terminal) {
        lemma_variant_advances(ts, pos1, line1, idx, acc.push(ra->Ok_0));
    }
}

/// Read variants at `pos` onto `acc`, separated by `|` (possibly preceded by
/// one newline).
pub open spec fn spec_reduce_variants(
    ts: Seq<TkView>,
    pos: int,
    line: int,
    acc: Seq<Seq<AtomView>>,
) -> (Result<Seq<Seq<AtomView>>, ParseErrView>, int, int)
    decreases ts.len() - pos,
{
    let (rv, pos1, line1) = spec_reduce_variant(ts, pos, line, acc.len() as int + 1, Seq::empty());
    match rv {
        Err(e) => (Err(e), pos1, line1),
        Ok(items) => {
            proof {
                if 0 <= pos && pos <= ts.len() {
                    lemma_variant_advances(ts, pos, line, acc.len() as int + 1, Seq::empty());
                }
            }
            if !(0 <= pos && pos <= ts.len()) {
                (Ok(acc.push(items)), pos1, line1)
            } else if pos1 < ts.len() && ts[pos1] is Pipe {
                spec_reduce_variants(ts, pos1 + 1, line1, acc.push(items))
            } else if pos1 + 1 < ts.len() && ts[pos1] is Nl && ts[pos1 + 1] is Pipe {
                spec_reduce_variants(ts, pos1 + 2, line1 + 1, acc.push(items))
            } else {
                (Ok(acc.push(items)), pos1, line1)
            }
        },
    }
}

/// After successful variants the position has advanced, within bounds.
pub proof fn lemma_variants_advances(
    ts: Seq<TkView>,
    pos: int,
    line: int,
    acc: Seq<Seq<AtomView>>,
)
    requires
        0 <= pos <= ts.len(),
    ensures
        spec_reduce_variants(ts, pos, line, acc).0 is Ok ==> pos < spec_reduce_variants(
            ts,
            pos,
            line,
            acc,
        ).1 <= ts.len(),
    decreases ts.len() - pos,
{
    lemma_variant_advances(ts, pos, line, acc.len() as int + 1, Seq::empty());
    let (rv, pos1, line1) = spec_reduce_variant(ts, pos, line, acc.len() as int + 1, Seq::empty());
    if rv is Ok {
        if pos1 < ts.len() && ts[pos1] is Pipe {
            lemma_variants_advances(ts, pos1 + 1, line1, acc.push(rv->Ok_0));
        } else if pos1 + 1 < ts.len() && ts[pos1] is Nl && ts[pos1 + 1] is Pipe {
            lemma_variants_advances(ts, pos1 + 2, line1 + 1, acc.push(rv->Ok_0));
        }
    }
}

/// The note used in place of a rule's name when the failure struck before
/// the name was read.
pub open spec fn spec_noname(prev: Option<Seq<char>>) -> Seq<char> {
    match prev {
        Some(name) => "(name not reached, previous was: "@ + name,
        None => "(name not reached, it is the first)"@,
    }
}

/// Read one whole rule at `pos`: `<`, name, `>`, `::=`, then its variants.
pub open spec fn spec_reduce_rule(ts: Seq<TkView>, pos: int, line: int, prev: Option<Seq<char>>) -> (Result<
    RuleView,
    ParseErrView,
>, int, int) {
    if !(0 <= pos < ts.len() && ts[pos] is Lt) {
        (
            Err(
                perr_wrap(
                    ParseCtx::InRule(spec_noname(prev)),
                    spec_unexpected(ts, pos, line, "'>'"@),
                ),
            ),
            pos,
            line,
        )
    } else if !(pos + 1 < ts.len() && ts[pos + 1] is Id) {
        (
            Err(
                perr_wrap(
                    ParseCtx::InRule(spec_noname(prev)),
                    spec_unexpected(ts, pos + 1, line, "'>'"@),
                ),
            ),
            pos + 1,
            line,
        )
    } else {
        let name = ts[pos + 1]->Id_0;
        if !(pos + 2 < ts.len() && ts[pos + 2] is Gt) {
            (
                Err(
                    perr_wrap(ParseCtx::InRule(name), spec_unexpected(ts, pos + 2, line, "'>'"@)),
                ),
                pos + 2,
                line,
            )
        } else if !(pos + 3 < ts.len() && ts[pos + 3] is Assign) {
            (
                Err(
                    perr_wrap(
                        ParseCtx::InRule(name),
                        spec_unexpected(ts, pos + 3, line, "'::='"@),
                    ),
                ),
                pos + 3,
                line,
            )
        } else {
            let (rv, pos4, line4) = spec_reduce_variants(ts, pos + 4, line, Seq::empty());
            match rv {
                Err(e) => (Err(perr_wrap(ParseCtx::InRule(name), e)), pos4, line4),
                Ok(variants) => (Ok(RuleView { name, variants }), pos4, line4),
            }
        }
    }
}

/// After a successful rule the position has advanced, within bounds.
pub proof fn lemma_rule_advances(ts: Seq<TkView>, pos: int, line: int, prev: Option<Seq<char>>)
    requires
        0 <= pos <= ts.len(),
    ensures
        spec_reduce_rule(ts, pos, line, prev).0 is Ok ==> pos < spec_reduce_rule(
            ts,
            pos,
            line,
            prev,
        ).1 <= ts.len(),
{
    if 0 <= pos < ts.len() && ts[pos] is Lt && pos + 1 < ts.len() && ts[pos + 1] is Id && pos + 2
        < ts.len() && ts[pos + 2] is Gt && pos + 3 < ts.len() && ts[pos + 3] is Assign {
        lemma_variants_advances(ts, pos + 4, line, Seq::empty());
    }
}

/// Read rules (separated by newlines) at `pos` onto `acc` until the tokens
/// run out.
pub open spec fn spec_reduce_rules(ts: Seq<TkView>, pos: int, line: int, acc: Seq<RuleView>) -> (Result<
    Seq<RuleView>,
    ParseErrView,
>, int, int)
    decreases ts.len() - pos,
{
    if !(0 <= pos < ts.len()) {
        (Ok(acc), pos, line)
    } else if ts[pos] is Nl {
        spec_reduce_rules(ts, pos + 1, line + 1, acc)
    } else if ts[pos] is Lt {
        let prev = if acc.len() == 0 {
            None
        } else {
            Some(acc[0].name)
        };
        let (rr, pos1, line1) = spec_reduce_rule(ts, pos, line, prev);
        match rr {
            Err(e) => (Err(e), pos1, line1),
            Ok(rule) => {
                proof {
                    if 0 <= pos && pos <= ts.len() {
                        lemma_rule_advances(ts, pos, line, prev);
                    }
                }
                spec_reduce_rules(ts, pos1, line1, acc.push(rule))
            },
        }
    } else {
        (Err(perr_wrap(ParseCtx::File, spec_unexpected(ts, pos, line, "'<' of new line"@))), pos, line)
    }
}

/// The whole parse of a text: lex it, then read rules from the first token
/// on, the line count starting at one.
pub open spec fn spec_parse(s: Seq<char>) -> Result<Seq<RuleView>, ParseErrView> {
    match crate::lex::spec_tokenize(s) {
        Err((l, txt)) => Err(perr_leaf(ParseLeaf::Lex(l, txt))),
        Ok(ts) => match spec_reduce_rules(ts, 0, 1, Seq::empty()).0 {
            Ok(rs) => Ok(rs),
            Err(e) => Err(e),
        },
    }
}


// ------------------------------------------------------------------
// The parser itself.
// ------------------------------------------------------------------
/// The image of an optional borrowed name.
pub open spec fn opt_str_view(p: Option<&str>) -> Option<Seq<char>> {
    match p {
        Some(s) => Some(s@),
        None => None,
    }
}

/// A token content escaped for a diagnostic.
fn escape_text(s: &str) -> (r: String)
    ensures
        r@ == spec_escape(s@),
{
    let chars = to_chars(s);
    let mut out = String::new();
    let mut i: usize = 0;
    while i < chars.len()
        invariant
            chars@ == s@,
            i <= chars@.len(),
            spec_escape(s@) == out@ + spec_escape_from(s@, i as int),
        decreases chars@.len() - i,
    {
        let ghost out0 = out@;
        let ghost i0 = i as int;
        let c = chars[i];
        if c == '\\' {
            out.push('\\');
            out.push('\\');
        } else if c == '"' {
            out.push('\\');
            out.push('"');
        } else if c == '\n' {
            out.push('\\');
            out.push('n');
        } else if c == '\t' {
            out.push('\\');
            out.push('t');
        } else if c == '\r' {
            out.push('\\');
            out.push('r');
        } else {
            out.push(c);
        }
        proof {
            assert(out@ =~= out0 + escape_char(s@[i0]));
            assert((out0 + escape_char(s@[i0])) + spec_escape_from(s@, i0 + 1) =~= out0 + (
            escape_char(s@[i0]) + spec_escape_from(s@, i0 + 1)));
        }
        i += 1;
    }
    proof {
        assert(out@ + spec_escape_from(s@, chars@.len() as int) =~= out@);
    }
    out
}

/// The text a token is rendered as in a diagnostic: its content, where it
/// has one, quoted and escaped.
fn token_text(t: &Tk) -> (r: String)
    ensures
        r@ == spec_token_text(t@),
{
    match t {
        Tk::Nl => String::from_str("Nl"),
        Tk::Id(s) => {
            let mut r = String::from_str("Id(\"");
            let e = escape_text(s.as_str());
            r.append(e.as_str());
            r.append("\")");
            r
        },
        Tk::Lt => String::from_str("Lt"),
        Tk::Gt => String::from_str("Gt"),
        Tk::Assign => String::from_str("Assign"),
        Tk::Pipe => String::from_str("Pipe"),
        Tk::Terminal(s) => {
            let mut r = String::from_str("Terminal(\"");
            let e = escape_text(s.as_str());
            r.append(e.as_str());
            r.append("\")");
            r
        },
    }
}

/// The running state of a parse: the position in the token list and the
/// count of lines passed.
struct Parser {
    pos: usize,
    lineno: usize,
}

impl Parser {
    /// The diagnostic for an unexpected token (or end of input) here.
    fn unexpected(&self, toks: &Vec<Tk>, expecting: &str) -> (e: ParseError)
        ensures
            perr_view(&e) == spec_unexpected(
                tks_view(toks@),
                self.pos as int,
                self.lineno as int,
                expecting@,
            ),
    {
        let tk: String = if self.pos < toks.len() {
            proof {
                assert(tks_view(toks@)[self.pos as int] == toks@[self.pos as int]@);
            }
            token_text(&toks[self.pos])
        } else {
            String::from_str("EOF")
        };
        ParseError::UnexpectedHint(self.lineno, tk, expecting.to_owned())
    }

    /// Resolve the escape sequences of a terminal's raw content.
    fn un_escape(&self, data: &str) -> (r: String)
        ensures
            r@ == spec_unescape(data@),
    {
        let chars = to_chars(data);
        let mut out = String::new();
        let mut esc = false;
        let mut i: usize = 0;
        while i < chars.len()
            invariant
                chars@ == data@,
                i <= chars@.len(),
                spec_unescape(data@) == out@ + spec_unescape_from(data@, i as int, esc),
            decreases chars@.len() - i,
        {
            let ghost out0 = out@;
            let ghost i0 = i as int;
            let c = chars[i];
            if esc {
                let d = if c == 'n' {
                    '\n'
                } else if c == 't' {
                    '\t'
                } else if c == 'r' {
                    '\r'
                } else {
                    c
                };
                out.push(d);
                esc = false;
                proof {
                    assert(d == unescape_char(c));
                    assert(out@ + spec_unescape_from(data@, i0 + 1, false) =~= out0 + (seq![d]
                        + spec_unescape_from(data@, i0 + 1, false)));
                }
            } else if c == '\\' {
                esc = true;
            } else {
                out.push(c);
                proof {
                    assert(out@ + spec_unescape_from(data@, i0 + 1, false) =~= out0 + (seq![c]
                        + spec_unescape_from(data@, i0 + 1, false)));
                }
            }
            i += 1;
        }
        proof {
            assert(out@ + spec_unescape_from(data@, chars@.len() as int, esc) =~= out@);
        }
        out
    }

    /// Read one atom here: a quoted terminal, or `<`, an identifier and `>`
    /// forming a non-terminal.
    fn reduce_atom(&mut self, toks: &Vec<Tk>) -> (r: Result<Atom, ParseError>)
        requires
            old(self).pos <= toks@.len(),
            toks@.len() < usize::MAX,
        ensures
            ({
                let s = spec_reduce_atom(
                    tks_view(toks@),
                    old(self).pos as int,
                    old(self).lineno as int,
                );
                match r {
                    Ok(a) => s.0 == Ok::<AtomView, ParseErrView>(a@) && final(self).pos as int
                        == s.1 && final(self).lineno == old(self).lineno && final(self).pos
                        <= toks@.len() && old(self).pos < final(self).pos,
                    Err(e) => (s.0 matches Err(ev) && perr_view(&e) == ev),
                }
            }),
    {
        let ghost ts = tks_view(toks@);
        proof {
            if (self.pos as int) < ts.len() {
                assert(ts[self.pos as int] == toks@[self.pos as int]@);
            }
        }
        if self.pos < toks.len() {
            match &toks[self.pos] {
                Tk::Lt => {
                    self.pos = self.pos + 1;
                    proof {
                        if (self.pos as int) < ts.len() {
                            assert(ts[self.pos as int] == toks@[self.pos as int]@);
                        }
                    }
                    if self.pos < toks.len() {
                        match &toks[self.pos] {
                            Tk::Id(name) => {
                                let name = name.clone();
                                self.pos = self.pos + 1;
                                proof {
                                    if (self.pos as int) < ts.len() {
                                        assert(ts[self.pos as int] == toks@[self.pos as int]@);
                                    }
                                }
                                if self.pos < toks.len() {
                                    match &toks[self.pos] {
                                        Tk::Gt => {
                                            self.pos = self.pos + 1;
                                            return Ok(Atom::NonTerminal { name });
                                        },
                                        _ => {},
                                    }
                                }
                                return Err(
                                    ParseError::InAtom(Box::new(self.unexpected(toks, "'>'"))),
                                );
                            },
                            _ => {},
                        }
                    }
                    return Err(
                        ParseError::InAtom(
                            Box::new(self.unexpected(toks, "non-terminal identifier")),
                        ),
                    );
                },
                Tk::Terminal(term) => {
                    let content = self.un_escape(term.as_str());
                    self.pos = self.pos + 1;
                    return Ok(Atom::Terminal { content });
                },
                _ => {},
            }
        }
        Err(ParseError::InAtom(Box::new(self.unexpected(toks, "'<' or \"...\""))))
    }

    /// Read atoms onto `vari` for as long as one can start here.
    fn reduce_variant(&mut self, toks: &Vec<Tk>, idx: usize, vari: &mut RuleVariant) -> (r: Result<
        (),
        ParseError,
    >)
        requires
            old(self).pos <= toks@.len(),
            toks@.len() < usize::MAX,
        ensures
            ({
                let s = spec_reduce_variant(
                    tks_view(toks@),
                    old(self).pos as int,
                    old(self).lineno as int,
                    idx as int,
                    old(vari)@,
                );
                match r {
                    Ok(()) => s.0 == Ok::<Seq<AtomView>, ParseErrView>(final(vari)@) && final(self).pos as int == s.1 && final(self).lineno == old(self).lineno && final(self).pos <= toks@.len() && old(self).pos < final(self).pos && final(vari).items@.len() > old(vari).items@.len(),
                    Err(e) => (s.0 matches Err(ev) && perr_view(&e) == ev),
                }
            }),
        decreases toks@.len() - old(self).pos,
    {
        let ghost ts = tks_view(toks@);
        let atom = match self.reduce_atom(toks) {
            Ok(a) => a,
            Err(e) => {
                return Err(ParseError::InVariant(idx, Box::new(e)));
            },
        };
        let ghost av = atom@;
        vari.items.push(atom);
        proof {
            assert(vari@ =~= old(vari)@.push(av));
        }
        if self.pos < toks.len() {
            proof {
                assert(ts[self.pos as int] == toks@[self.pos as int]@);
            }
            let more = match &toks[self.pos] {
                Tk::Lt => true,
                Tk::Terminal(_) => true,
                _ => false,
            };
            if more {
                return self.reduce_variant(toks, idx, vari);
            }
        }
        Ok(())
    }

    /// Read variants here onto `outp`, separated by `|` (possibly preceded
    /// by one newline).
    fn reduce_variants(&mut self, toks: &Vec<Tk>, outp: &mut Vec<RuleVariant>) -> (r: Result<
        (),
        ParseError,
    >)
        requires
            old(self).pos <= toks@.len(),
            toks@.len() < usize::MAX,
            2 * old(outp)@.len() <= old(self).pos + 1,
            old(self).lineno <= old(self).pos + 1,
        ensures
            ({
                let s = spec_reduce_variants(
                    tks_view(toks@),
                    old(self).pos as int,
                    old(self).lineno as int,
                    variants_view(old(outp)@),
                );
                match r {
                    Ok(()) => {
                        &&& s.0 == Ok::<Seq<Seq<AtomView>>, ParseErrView>(
                            variants_view(final(outp)@),
                        )
                        &&& final(self).pos as int == s.1
                        &&& final(self).lineno as int == s.2
                        &&& final(self).pos <= toks@.len()
                        &&& old(self).pos < final(self).pos
                        &&& final(self).lineno <= final(self).pos + 1
                        &&& final(outp)@.len() > old(outp)@.len()
                        &&& forall|k: int|
                            old(outp)@.len() <= k < final(outp)@.len() ==> (#[trigger] final(outp)@[k])@.len() >= 1
                        &&& forall|k: int|
                            0 <= k < old(outp)@.len() ==> final(outp)@[k] == old(outp)@[k]
                    },
                    Err(e) => (s.0 matches Err(ev) && perr_view(&e) == ev),
                }
            }),
        decreases toks@.len() - old(self).pos,
    {
        let ghost ts = tks_view(toks@);
        let idx = outp.len() + 1;
        let mut variant = RuleVariant { items: Vec::new() };
        proof {
            assert(variant@ =~= Seq::<AtomView>::empty());
            assert(variants_view(old(outp)@).len() == old(outp)@.len());
            assert(idx as int == variants_view(old(outp)@).len() as int + 1);
        }
        match self.reduce_variant(toks, idx, &mut variant) {
            Ok(()) => {},
            Err(e) => {
                return Err(e);
            },
        }
        let ghost vv = variant@;
        outp.push(variant);
        proof {
            assert(variants_view(outp@) =~= variants_view(old(outp)@).push(vv));
            lemma_variant_advances(
                ts,
                old(self).pos as int,
                old(self).lineno as int,
                idx as int,
                Seq::empty(),
            );
        }
        if self.pos < toks.len() {
            proof {
                assert(ts[self.pos as int] == toks@[self.pos as int]@);
            }
            let pipe_here = match &toks[self.pos] {
                Tk::Pipe => true,
                _ => false,
            };
            if pipe_here {
                self.pos = self.pos + 1;
                return self.reduce_variants(toks, outp);
            }
        }
        if self.pos + 1 < toks.len() {
            proof {
                assert(ts[self.pos as int] == toks@[self.pos as int]@);
                assert(ts[self.pos as int + 1] == toks@[self.pos as int + 1]@);
            }
            let nl_pipe = match &toks[self.pos] {
                Tk::Nl => match &toks[self.pos + 1] {
                    Tk::Pipe => true,
                    _ => false,
                },
                _ => false,
            };
            if nl_pipe {
                self.lineno = self.lineno + 1;
                self.pos = self.pos + 2;
                return self.reduce_variants(toks, outp);
            }
        }
        Ok(())
    }

    /// Read one whole rule here: `<`, name, `>`, `::=`, then its variants.
    fn reduce_rule(&mut self, toks: &Vec<Tk>, prev: Option<&str>) -> (r: Result<Rule, ParseError>)
        requires
            old(self).pos <= toks@.len(),
            toks@.len() < usize::MAX,
            old(self).lineno <= old(self).pos + 1,
        ensures
            ({
                let s = spec_reduce_rule(
                    tks_view(toks@),
                    old(self).pos as int,
                    old(self).lineno as int,
                    opt_str_view(prev),
                );
                match r {
                    Ok(rule) => {
                        &&& s.0 == Ok::<RuleView, ParseErrView>(rule@)
                        &&& final(self).pos as int == s.1
                        &&& final(self).lineno as int == s.2
                        &&& final(self).pos <= toks@.len()
                        &&& old(self).pos < final(self).pos
                        &&& final(self).lineno <= final(self).pos + 1
                        &&& rule.variants@.len() >= 1
                        &&& forall|k: int|
                            0 <= k < rule.variants@.len() ==> (#[trigger] rule.variants@[k])@.len()
                                >= 1
                    },
                    Err(e) => (s.0 matches Err(ev) && perr_view(&e) == ev),
                }
            }),
    {
        let ghost ts = tks_view(toks@);
        let noname_msg = match prev {
            Some(name) => {
                let mut m = String::from_str("(name not reached, previous was: ");
                m.append(name);
                m
            },
            None => String::from_str("(name not reached, it is the first)"),
        };
        proof {
            if (self.pos as int) < ts.len() {
                assert(ts[self.pos as int] == toks@[self.pos as int]@);
            }
        }
        let lt_here = self.pos < toks.len() && match &toks[self.pos] {
            Tk::Lt => true,
            _ => false,
        };
        if !lt_here {
            return Err(ParseError::InRule(noname_msg, Box::new(self.unexpected(toks, "'>'"))));
        }
        self.pos = self.pos + 1;
        proof {
            if (self.pos as int) < ts.len() {
                assert(ts[self.pos as int] == toks@[self.pos as int]@);
            }
        }
        if self.pos >= toks.len() {
            return Err(ParseError::InRule(noname_msg, Box::new(self.unexpected(toks, "'>'"))));
        }
        let name = match &toks[self.pos] {
            Tk::Id(name) => name.clone(),
            _ => {
                return Err(
                    ParseError::InRule(noname_msg, Box::new(self.unexpected(toks, "'>'"))),
                );
            },
        };
        self.pos = self.pos + 1;
        proof {
            if (self.pos as int) < ts.len() {
                assert(ts[self.pos as int] == toks@[self.pos as int]@);
            }
        }
        let gt_here = self.pos < toks.len() && match &toks[self.pos] {
            Tk::Gt => true,
            _ => false,
        };
        if !gt_here {
            return Err(ParseError::InRule(name, Box::new(self.unexpected(toks, "'>'"))));
        }
        self.pos = self.pos + 1;
        proof {
            if (self.pos as int) < ts.len() {
                assert(ts[self.pos as int] == toks@[self.pos as int]@);
            }
        }
        let assign_here = self.pos < toks.len() && match &toks[self.pos] {
            Tk::Assign => true,
            _ => false,
        };
        if !assign_here {
            return Err(ParseError::InRule(name, Box::new(self.unexpected(toks, "'::='"))));
        }
        self.pos = self.pos + 1;
        let mut variants: Vec<RuleVariant> = Vec::new();
        proof {
            assert(variants_view(variants@) =~= Seq::<Seq<AtomView>>::empty());
        }
        match self.reduce_variants(toks, &mut variants) {
            Ok(()) => {},
            Err(e) => {
                return Err(ParseError::InRule(name.clone(), Box::new(e)));
            },
        }
        let r = Rule { name, variants };
        proof {
            assert(r@.variants =~= variants_view(r.variants@));
        }
        Ok(r)
    }

    /// Read rules here (separated by newlines) onto `rules` until the tokens
    /// run out.
    fn reduce_rules(&mut self, toks: &Vec<Tk>, rules: &mut Vec<Rule>) -> (r: Result<
        (),
        ParseError,
    >)
        requires
            old(self).pos <= toks@.len(),
            toks@.len() < usize::MAX,
            old(self).lineno <= old(self).pos + 1,
        ensures
            ({
                let s = spec_reduce_rules(
                    tks_view(toks@),
                    old(self).pos as int,
                    old(self).lineno as int,
                    rules_view(old(rules)@),
                );
                match r {
                    Ok(()) => {
                        &&& s.0 == Ok::<Seq<RuleView>, ParseErrView>(rules_view(final(rules)@))
                        &&& forall|k: int|
                            old(rules)@.len() <= k < final(rules)@.len() ==> (#[trigger] final(rules)@[k]).variants@.len() >= 1
                        &&& forall|k: int, v: int|
                            old(rules)@.len() <= k < final(rules)@.len() && 0 <= v < final(rules)@[k].variants@.len() ==> (#[trigger] final(rules)@[k].variants@[v])@.len() >= 1
                        &&& forall|k: int|
                            0 <= k < old(rules)@.len() ==> final(rules)@[k] == old(rules)@[k]
                        &&& final(rules)@.len() >= old(rules)@.len()
                    },
                    Err(e) => (s.0 matches Err(ev) && perr_view(&e) == ev),
                }
            }),
        decreases toks@.len() - old(self).pos,
    {
        let ghost ts = tks_view(toks@);
        if self.pos >= toks.len() {
            return Ok(());
        }
        proof {
            assert(ts[self.pos as int] == toks@[self.pos as int]@);
        }
        match &toks[self.pos] {
            Tk::Nl => {
                self.lineno = self.lineno + 1;
                self.pos = self.pos + 1;
                self.reduce_rules(toks, rules)
            },
            Tk::Lt => {
                let prev: Option<&str> = if rules.len() == 0 {
                    None
                } else {
                    Some(rules[0].name.as_str())
                };
                proof {
                    if rules@.len() > 0 {
                        assert(rules_view(rules@)[0] == rules@[0]@);
                    }
                }
                let res = match self.reduce_rule(toks, prev) {
                    Ok(rule) => rule,
                    Err(e) => {
                        return Err(e);
                    },
                };
                let ghost rv = res@;
                rules.push(res);
                proof {
                    assert(rules_view(rules@) =~= rules_view(old(rules)@).push(rv));
                }
                self.reduce_rules(toks, rules)
            },
            _ => {
                Err(ParseError::InFile(Box::new(self.unexpected(toks, "'<' of new line"))))
            },
        }
    }

    /// Parse a whole token list into rules.
    fn parse(toks: &Vec<Tk>) -> (r: Result<Vec<Rule>, ParseError>)
        requires
            toks@.len() < usize::MAX,
        ensures
            ({
                let s = spec_reduce_rules(tks_view(toks@), 0, 1, Seq::empty());
                match r {
                    Ok(rules) => {
                        &&& s.0 == Ok::<Seq<RuleView>, ParseErrView>(rules_view(rules@))
                        &&& crate::semantics::structurally_formed(rules_view(rules@))
                    },
                    Err(e) => (s.0 matches Err(ev) && perr_view(&e) == ev),
                }
            }),
    {
        let mut out: Vec<Rule> = Vec::new();
        let mut p = Parser { pos: 0, lineno: 1 };
        proof {
            assert(rules_view(out@) =~= Seq::<RuleView>::empty());
        }
        match p.reduce_rules(toks, &mut out) {
            Ok(()) => {},
            Err(e) => {
                return Err(e);
            },
        }
        proof {
            let g = rules_view(out@);
            assert forall|i: int| 0 <= i < g.len() implies (#[trigger] g[i]).variants.len()
                >= 1 by {
                assert(g[i] == out@[i]@);
            }
            assert forall|i: int, vi: int|
                0 <= i < g.len() && 0 <= vi < g[i].variants.len() implies (
            #[trigger] g[i].variants[vi]).len() >= 1 by {
                assert(g[i] == out@[i]@);
                assert(g[i].variants[vi] == out@[i].variants@[vi]@);
            }
        }
        Ok(out)
    }
}

/// Lex and parse a whole text into its rules.
pub fn parse(data: &str) -> (r: Result<Vec<Rule>, ParseError>)
    requires
        data@.len() < usize::MAX,
    ensures
        match r {
            Ok(rules) => spec_parse(data@) == Ok::<_, ParseErrView>(rules_view(rules@))
                && crate::semantics::structurally_formed(rules_view(rules@)),
            Err(e) => (spec_parse(data@) matches Err(ev) && perr_view(&e) == ev),
        },
{
    let toks = match tokenize(data) {
        Ok(t) => t,
        Err(e) => {
            return Err(ParseError::Lex(e));
        },
    };
    Parser::parse(&toks)
}

} // verus!
