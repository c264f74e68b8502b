//! The mathematical model of a substitution: a state machine over the
//! characters of a template, advanced one character at a time.
use vstd::prelude::*;

verus! {

/// Where in a variable reference the scanner currently is.
#[derive(Clone, Copy, Debug, PartialEq, Eq, Structural)]
pub enum State {
    /// Plain text.
    Normal,
    /// The previous character was a backslash.
    Escape,
    /// The previous character was a dollar sign.
    Dollar,
    /// Collecting a name inside `${...}`.
    BraceVar,
    /// Collecting a name after a bare `$`.
    ShortVar,
}

/// The two ways a scan can fail, with positions counted in characters.
pub enum ScanError {
    /// A `${` reference reached the end of the template before its `}`.
    UnclosedBrace { position: int },
    /// A `${...}` reference held a character outside the identifier alphabet,
    /// or no character at all.
    InvalidVarName { name: Seq<char>, position: int },
}

/// Everything the scanner knows after reading a prefix of the template.
/// `unresolved` counts the references passed through because their name was
/// absent; `growth` sums, over the resolved references, the length of the
/// value minus the length of the reference.
pub struct Scan {
    pub state: State,
    pub out: Seq<char>,
    pub name: Seq<char>,
    pub start: int,
    pub unresolved: nat,
    pub growth: int,
    pub err: Option<ScanError>,
}

pub open spec fn spec_is_var_char_start(ch: char) -> bool {
    ('a' <= ch && ch <= 'z') || ('A' <= ch && ch <= 'Z') || ch == '_'
}

pub open spec fn spec_is_var_char(ch: char) -> bool {
    spec_is_var_char_start(ch) || ('0' <= ch && ch <= '9')
}

/// The characters that a backslash turns into themselves.
pub open spec fn is_meta(ch: char) -> bool {
    ch == '$' || ch == '{' || ch == '}' || ch == '\\'
}

/// A non-empty run of identifier characters that starts with a letter or `_`.
pub open spec fn is_identifier(s: Seq<char>) -> bool {
    &&& s.len() > 0
    &&& spec_is_var_char_start(s[0])
    &&& forall|k: int| 0 <= k < s.len() ==> spec_is_var_char(#[trigger] s[k])
}

/// The text of a reference as it stands in a template.
pub open spec fn surface(name: Seq<char>, braced: bool) -> Seq<char> {
    if braced {
        seq!['$', '{'] + name + seq!['}']
    } else {
        seq!['$'] + name
    }
}

pub open spec fn initial() -> Scan {
    Scan {
        state: State::Normal,
        out: Seq::empty(),
        name: Seq::empty(),
        start: 0,
        unresolved: 0,
        growth: 0,
        err: None,
    }
}

/// Closes the reference whose name has been collected: its value if the name
/// is in the table, else its surface text.
pub open spec fn resolve(c: Scan, vars: Map<Seq<char>, Seq<char>>, braced: bool) -> Scan {
    if vars.contains_key(c.name) {
        Scan {
            state: State::Normal,
            out: c.out + vars[c.name],
            name: Seq::empty(),
            growth: c.growth + vars[c.name].len() - surface(c.name, braced).len(),
            ..c
        }
    } else {
        Scan {
            state: State::Normal,
            out: c.out + surface(c.name, braced),
            name: Seq::empty(),
            unresolved: c.unresolved + 1,
            ..c
        }
    }
}

/// One character read in plain text, at position `i`.
pub open spec fn normal_step(c: Scan, ch: char, i: int, escape: bool) -> Scan {
    if escape && ch == '\\' {
        Scan { state: State::Escape, ..c }
    } else if ch == '$' {
        Scan { state: State::Dollar, start: i, ..c }
    } else {
        Scan { out: c.out.push(ch), ..c }
    }
}

/// One character `ch`, at position `i`, read in any state.
pub open spec fn step(
    c: Scan,
    ch: char,
    i: int,
    vars: Map<Seq<char>, Seq<char>>,
    escape: bool,
    short_syntax: bool,
) -> Scan {
    if c.err is Some {
        c
    } else {
        match c.state {
            State::Normal => normal_step(c, ch, i, escape),
            State::Escape => {
                if is_meta(ch) {
                    Scan { state: State::Normal, out: c.out.push(ch), ..c }
                } else {
                    Scan { state: State::Normal, out: c.out.push('\\').push(ch), ..c }
                }
            },
            State::Dollar => {
                if ch == '{' {
                    Scan { state: State::BraceVar, name: Seq::empty(), ..c }
                } else if short_syntax && spec_is_var_char_start(ch) {
                    Scan { state: State::ShortVar, name: seq![ch], ..c }
                } else {
                    Scan { state: State::Normal, out: c.out.push('$').push(ch), ..c }
                }
            },
            State::BraceVar => {
                if ch == '}' && c.name.len() > 0 {
                    resolve(c, vars, true)
                } else if spec_is_var_char(ch) {
                    Scan { name: c.name.push(ch), ..c }
                } else {
                    Scan {
                        err: Some(ScanError::InvalidVarName { name: c.name, position: c.start }),
                        ..c
                    }
                }
            },
            State::ShortVar => {
                if spec_is_var_char(ch) {
                    Scan { name: c.name.push(ch), ..c }
                } else {
                    normal_step(resolve(c, vars, false), ch, i, escape)
                }
            },
        }
    }
}

/// The scan from `c` over `t`, whose first character stands at position `base`.
pub open spec fn run_from(
    c: Scan,
    base: int,
    t: Seq<char>,
    vars: Map<Seq<char>, Seq<char>>,
    escape: bool,
    short_syntax: bool,
) -> Scan
    decreases t.len(),
{
    if t.len() == 0 {
        c
    } else {
        step(
            run_from(c, base, t.drop_last(), vars, escape, short_syntax),
            t.last(),
            base + t.len() - 1,
            vars,
            escape,
            short_syntax,
        )
    }
}

/// What the end of the template does to the scan.
pub open spec fn finish(c: Scan, vars: Map<Seq<char>, Seq<char>>) -> Scan {
    if c.err is Some {
        c
    } else {
        match c.state {
            State::Normal => c,
            State::Escape => Scan { state: State::Normal, out: c.out.push('\\'), ..c },
            State::Dollar => Scan { state: State::Normal, out: c.out.push('$'), ..c },
            State::BraceVar => Scan {
                err: Some(ScanError::UnclosedBrace { position: c.start }),
                ..c
            },
            State::ShortVar => resolve(c, vars, false),
        }
    }
}

/// The whole scan of a template, end included.
pub open spec fn complete_scan(
    t: Seq<char>,
    vars: Map<Seq<char>, Seq<char>>,
    escape: bool,
    short_syntax: bool,
) -> Scan {
    finish(run_from(initial(), 0, t, vars, escape, short_syntax), vars)
}

pub open spec fn outcome(c: Scan) -> Result<Seq<char>, ScanError> {
    match c.err {
        Some(e) => Err(e),
        None => Ok(c.out),
    }
}

/// The result of substituting `vars` into the template `t`.
pub open spec fn substitution(
    t: Seq<char>,
    vars: Map<Seq<char>, Seq<char>>,
    escape: bool,
    short_syntax: bool,
) -> Result<Seq<char>, ScanError> {
    outcome(complete_scan(t, vars, escape, short_syntax))
}

/// Scanning `s` then `u` is scanning `s + u`.
pub proof fn lemma_run_append(
    c: Scan,
    base: int,
    s: Seq<char>,
    u: Seq<char>,
    vars: Map<Seq<char>, Seq<char>>,
    escape: bool,
    short_syntax: bool,
)
    ensures
        run_from(c, base, s + u, vars, escape, short_syntax) == run_from(
            run_from(c, base, s, vars, escape, short_syntax),
            base + s.len(),
            u,
            vars,
            escape,
            short_syntax,
        ),
    decreases u.len(),
{
    if u.len() == 0 {
        assert(s + u == s);
    } else {
        lemma_run_append(c, base, s, u.drop_last(), vars, escape, short_syntax);
        assert((s + u).drop_last() == s + u.drop_last());
        assert((s + u).last() == u.last());
    }
}

/// Once a scan has failed, reading more leaves it as it is.
pub proof fn lemma_error_stays(
    c: Scan,
    base: int,
    t: Seq<char>,
    vars: Map<Seq<char>, Seq<char>>,
    escape: bool,
    short_syntax: bool,
)
    requires
        c.err is Some,
    ensures
        run_from(c, base, t, vars, escape, short_syntax) == c,
    decreases t.len(),
{
    if t.len() > 0 {
        lemma_error_stays(c, base, t.drop_last(), vars, escape, short_syntax);
    }
}

/// A scan only ever appends to its output, and its count of unresolved
/// references never falls.
pub proof fn lemma_run_extends(
    c: Scan,
    base: int,
    t: Seq<char>,
    vars: Map<Seq<char>, Seq<char>>,
    escape: bool,
    short_syntax: bool,
)
    ensures
        ({
            let d = run_from(c, base, t, vars, escape, short_syntax);
            &&& c.out.len() <= d.out.len()
            &&& d.out.take(c.out.len() as int) == c.out
            &&& c.unresolved <= d.unresolved
            &&& c.err is Some ==> d.err == c.err
        }),
    decreases t.len(),
{
    if t.len() > 0 {
        let p = run_from(c, base, t.drop_last(), vars, escape, short_syntax);
        lemma_run_extends(c, base, t.drop_last(), vars, escape, short_syntax);
        let d = step(p, t.last(), base + t.len() - 1, vars, escape, short_syntax);
        assert(p.out.len() <= d.out.len() && d.out.take(p.out.len() as int) == p.out);
        assert(d.out.take(c.out.len() as int) == p.out.take(c.out.len() as int));
    }
}

/// The end of the template only appends to the output.
pub proof fn lemma_finish_extends(c: Scan, vars: Map<Seq<char>, Seq<char>>)
    ensures
        c.out.len() <= finish(c, vars).out.len(),
        finish(c, vars).out.take(c.out.len() as int) == c.out,
        c.unresolved <= finish(c, vars).unresolved,
{
    assert(finish(c, vars).out.take(c.out.len() as int) == c.out);
}

} // verus!
