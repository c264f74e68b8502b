//! The substitution scanner: one pass over the template, one state per
//! position, as laid out in the model.
use vstd::prelude::*;
use crate::model::{
    initial, lemma_error_stays, lemma_run_append, run_from, spec_is_var_char,
    spec_is_var_char_start, substitution, surface, ScanError, State,
};
use crate::table::VarTable;
use crate::text::{chars_of, decimal, decimal_text, empty_with_capacity, push_char, push_chars};

verus! {

/// Why a template could not be scanned. Positions count characters from the
/// start of the template and point at the `$` of the offending reference.
#[derive(Debug, Clone, PartialEq, Eq)]
pub enum SubstError {
    /// A `${` reference was not closed before the end of the template.
    UnclosedBrace { position: usize },
    /// A `${...}` reference was empty or held a character that no name may
    /// hold; `name` is what had been collected before that character.
    InvalidVarName { name: String, position: usize },
}

impl View for SubstError {
    type V = ScanError;

    open spec fn view(&self) -> ScanError {
        match self {
            SubstError::UnclosedBrace { position } => ScanError::UnclosedBrace {
                position: *position as int,
            },
            SubstError::InvalidVarName { name, position } => ScanError::InvalidVarName {
                name: name@,
                position: *position as int,
            },
        }
    }
}

/// The text that describes an error.
pub open spec fn message_of(e: ScanError) -> Seq<char> {
    match e {
        ScanError::UnclosedBrace { position } => "Unclosed brace at position "@ + decimal(
            position as nat,
        ),
        ScanError::InvalidVarName { name, position } => "Invalid variable name '"@ + name
            + "' at position "@ + decimal(position as nat),
    }
}

impl SubstError {
    /// Describes the error in one line.
    pub fn to_string(&self) -> (r: String)
        ensures
            r@ == message_of(self@),
    {
        match self {
            SubstError::UnclosedBrace { position } => {
                let mut s = "Unclosed brace at position ".to_owned();
                s.append(decimal_text(*position).as_str());
                s
            },
            SubstError::InvalidVarName { name, position } => {
                let mut s = "Invalid variable name '".to_owned();
                s.append(name.as_str());
                s.append("' at position ");
                s.append(decimal_text(*position).as_str());
                s
            },
        }
    }
}

pub open spec fn result_view(r: Result<String, SubstError>) -> Result<Seq<char>, ScanError> {
    match r {
        Ok(s) => Ok(s@),
        Err(e) => Err(e@),
    }
}

/// Which optional syntax the scanner recognises.
#[derive(Clone, Copy, Debug, PartialEq, Eq, Structural)]
pub struct SubstOptions {
    /// Backslash escapes of `$`, `{`, `}` and `\`.
    pub escape: bool,
    /// Bare `$NAME` references besides `${NAME}`.
    pub short_syntax: bool,
}

impl Default for SubstOptions {
    /// Escapes on, short references off.
    fn default() -> (r: SubstOptions)
        ensures
            r.escape,
            !r.short_syntax,
    {
        SubstOptions { escape: true, short_syntax: false }
    }
}

/// Whether `ch` can start a variable name: an ASCII letter or `_`.
pub fn is_var_char_start(ch: char) -> (r: bool)
    ensures
        r == spec_is_var_char_start(ch),
{
    ('a' <= ch && ch <= 'z') || ('A' <= ch && ch <= 'Z') || ch == '_'
}

/// Whether `ch` can stand in a variable name: an ASCII letter, digit or `_`.
pub fn is_var_char(ch: char) -> (r: bool)
    ensures
        r == spec_is_var_char(ch),
{
    is_var_char_start(ch) || ('0' <= ch && ch <= '9')
}

/// Appends what a closed reference stands for: the value of `name`, or the
/// reference as written when the table lacks it.
fn close_reference(out: &mut String, name: &Vec<char>, vars: &VarTable, braced: bool)
    requires
        vars.wf(),
    ensures
        final(out)@ == old(out)@ + (if vars@.contains_key(name@) {
            vars@[name@]
        } else {
            surface(name@, braced)
        }),
{
    match vars.get(name) {
        Some(value) => {
            out.append(value.as_str());
        },
        None => {
            let ghost before = out@;
            push_char(out, '$');
            if braced {
                push_char(out, '{');
            }
            push_chars(out, name);
            if braced {
                push_char(out, '}');
                assert(out@ == before + surface(name@, braced));
            } else {
                assert(out@ == before + surface(name@, braced));
            }
        },
    }
}

fn string_of(cs: &Vec<char>) -> (r: String)
    ensures
        r@ == cs@,
{
    let mut s = String::new();
    push_chars(&mut s, cs);
    s
}

/// Substitutes `variables` into `template` with escapes on and short
/// references off.
pub fn substitute(template: &str, variables: &VarTable) -> (r: Result<String, SubstError>)
    requires
        variables.wf(),
    ensures
        result_view(r) == substitution(template@, variables@, true, false),
{
    substitute_with(template, variables, SubstOptions { escape: true, short_syntax: false })
}

/// Substitutes `variables` into `template` in a single left-to-right pass.
/// Each resolved reference becomes its value, each unresolved one stays as
/// written, and each escape sequence becomes its character.
pub fn substitute_with(template: &str, variables: &VarTable, options: SubstOptions) -> (r: Result<
    String,
    SubstError,
>)
    requires
        variables.wf(),
    ensures
        result_view(r) == substitution(
            template@,
            variables@,
            options.escape,
            options.short_syntax,
        ),
{
    let chars = chars_of(template);
    let mut output = empty_with_capacity(template.len());
    let mut state = State::Normal;
    let mut name: Vec<char> = Vec::new();
    let mut start: usize = 0;
    let ghost esc = options.escape;
    let ghost short = options.short_syntax;
    let mut i: usize = 0;
    assert(chars@.take(0) == Seq::<char>::empty());
    while i < chars.len()
        invariant
            variables.wf(),
            chars@ == template@,
            i <= chars@.len(),
            start <= i,
            esc == options.escape,
            short == options.short_syntax,
            ({
                let c = run_from(initial(), 0, chars@.take(i as int), variables@, esc, short);
                &&& c.err is None
                &&& c.state == state
                &&& c.out == output@
                &&& c.name == name@
                &&& c.start == start as int
            }),
        decreases chars@.len() - i,
    {
        let ch = chars[i];
        assert(chars@.take(i + 1).drop_last() == chars@.take(i as int));
        assert(chars@.take(i + 1).last() == ch);
        match state {
            State::Normal => {
                if options.escape && ch == '\\' {
                    state = State::Escape;
                } else if ch == '$' {
                    state = State::Dollar;
                    start = i;
                } else {
                    push_char(&mut output, ch);
                }
            },
            State::Escape => {
                if ch == '$' || ch == '{' || ch == '}' || ch == '\\' {
                    push_char(&mut output, ch);
                } else {
                    push_char(&mut output, '\\');
                    push_char(&mut output, ch);
                }
                state = State::Normal;
            },
            State::Dollar => {
                if ch == '{' {
                    state = State::BraceVar;
                    name = Vec::new();
                } else if options.short_syntax && is_var_char_start(ch) {
                    state = State::ShortVar;
                    name = Vec::new();
                    name.push(ch);
                    assert(name@ == seq![ch]);
                } else {
                    push_char(&mut output, '$');
                    push_char(&mut output, ch);
                    state = State::Normal;
                }
            },
            State::BraceVar => {
                if ch == '}' && name.len() > 0 {
                    close_reference(&mut output, &name, variables, true);
                    name = Vec::new();
                    state = State::Normal;
                } else if is_var_char(ch) {
                    name.push(ch);
                } else {
                    proof {
                        let t = chars@;
                        let c = run_from(initial(), 0, t.take(i + 1), variables@, esc, short);
                        lemma_run_append(initial(), 0, t.take(i + 1), t.skip(i + 1), variables@, esc, short);
                        lemma_error_stays(c, i + 1, t.skip(i + 1), variables@, esc, short);
                        assert(t.take(i + 1) + t.skip(i + 1) == t);
                    }
                    return Err(SubstError::InvalidVarName { name: string_of(&name), position: start });
                }
            },
            State::ShortVar => {
                if is_var_char(ch) {
                    name.push(ch);
                } else {
                    close_reference(&mut output, &name, variables, false);
                    name = Vec::new();
                    state = State::Normal;
                    if options.escape && ch == '\\' {
                        state = State::Escape;
                    } else if ch == '$' {
                        state = State::Dollar;
                        start = i;
                    } else {
                        push_char(&mut output, ch);
                    }
                }
            },
        }
        i = i + 1;
    }
    assert(chars@.take(i as int) == chars@);
    match state {
        State::Normal => {},
        State::Escape => {
            push_char(&mut output, '\\');
        },
        State::Dollar => {
            push_char(&mut output, '$');
        },
        State::BraceVar => {
            return Err(SubstError::UnclosedBrace { position: start });
        },
        State::ShortVar => {
            close_reference(&mut output, &name, variables, false);
        },
    }
    Ok(output)
}

} // verus!
