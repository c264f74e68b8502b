//! Properties of substitution that hold over all templates and tables.
use vstd::prelude::*;
use crate::model::{
    complete_scan, finish, initial, is_meta, lemma_finish_extends, lemma_run_append,
    lemma_run_extends, outcome, run_from, spec_is_var_char, spec_is_var_char_start, step, substitution,
    surface, Scan, ScanError, State,
};

verus! {

/// Text that the scanner copies through unchanged: no `$`, and no `\` where
/// escapes are recognised.
pub open spec fn is_inert(s: Seq<char>, escape: bool) -> bool {
    forall|k: int| 0 <= k < s.len() ==> #[trigger] s[k] != '$' && !(escape && s[k] == '\\')
}

/// A scan that is in plain text and has not failed.
pub open spec fn is_plain(c: Scan) -> bool {
    c.state == State::Normal && c.err is None
}

/// Scanning `s` from scratch ends in plain text with `s` itself as output.
pub open spec fn reproduces(
    s: Seq<char>,
    vars: Map<Seq<char>, Seq<char>>,
    escape: bool,
    short_syntax: bool,
) -> bool {
    let d = run_from(initial(), 0, s, vars, escape, short_syntax);
    is_plain(d) && d.out == s
}

proof fn lemma_inert_copied(
    c: Scan,
    base: int,
    u: Seq<char>,
    vars: Map<Seq<char>, Seq<char>>,
    escape: bool,
    short_syntax: bool,
)
    requires
        is_plain(c),
        is_inert(u, escape),
    ensures
        is_plain(run_from(c, base, u, vars, escape, short_syntax)),
        run_from(c, base, u, vars, escape, short_syntax).out == c.out + u,
    decreases u.len(),
{
    if u.len() > 0 {
        assert(is_inert(u.drop_last(), escape));
        lemma_inert_copied(c, base, u.drop_last(), vars, escape, short_syntax);
        assert(u.last() == u[u.len() - 1]);
        assert(c.out + u == (c.out + u.drop_last()).push(u.last()));
    }
}

/// Appending inert text to a reproducing text keeps it reproducing.
proof fn lemma_reproduces_inert(
    s: Seq<char>,
    u: Seq<char>,
    vars: Map<Seq<char>, Seq<char>>,
    escape: bool,
    short_syntax: bool,
)
    requires
        reproduces(s, vars, escape, short_syntax),
        is_inert(u, escape),
    ensures
        reproduces(s + u, vars, escape, short_syntax),
{
    lemma_run_append(initial(), 0, s, u, vars, escape, short_syntax);
    lemma_inert_copied(
        run_from(initial(), 0, s, vars, escape, short_syntax),
        s.len() as int,
        u,
        vars,
        escape,
        short_syntax,
    );
}

/// Appending a `$` and a character that does not open a reference keeps a
/// reproducing text reproducing.
proof fn lemma_reproduces_dollar_pair(
    s: Seq<char>,
    ch: char,
    vars: Map<Seq<char>, Seq<char>>,
    escape: bool,
    short_syntax: bool,
)
    requires
        reproduces(s, vars, escape, short_syntax),
        ch != '{',
        !(short_syntax && spec_is_var_char_start(ch)),
    ensures
        reproduces(s + seq!['$', ch], vars, escape, short_syntax),
{
    let u = seq!['$', ch];
    lemma_run_append(initial(), 0, s, u, vars, escape, short_syntax);
    let c = run_from(initial(), 0, s, vars, escape, short_syntax);
    let b = s.len() as int;
    assert(u.drop_last() == seq!['$']);
    assert(seq!['$'].drop_last() == Seq::<char>::empty());
    assert(run_from(c, b, Seq::<char>::empty(), vars, escape, short_syntax) == c);
    let m = step(c, '$', b, vars, escape, short_syntax);
    assert(run_from(c, b, seq!['$'], vars, escape, short_syntax) == m);
    assert(m.state == State::Dollar && m.out == c.out);
    assert(run_from(c, b, u, vars, escape, short_syntax) == step(m, ch, b + 1, vars, escape, short_syntax));
    assert(s + u == s.push('$').push(ch));
}

/// Whether the template holds `\$` or `\\`: the two escapes whose
/// character is itself syntax.
pub open spec fn has_syntax_escape(t: Seq<char>) -> bool {
    exists|k: int|
        0 <= k && k + 1 < t.len() && #[trigger] t[k] == '\\' && (t[k + 1] == '$' || t[k + 1]
            == '\\')
}

/// Appending a backslash and a character that it does not turn into syntax
/// keeps a reproducing text reproducing.
proof fn lemma_reproduces_escape_pair(
    s: Seq<char>,
    ch: char,
    vars: Map<Seq<char>, Seq<char>>,
    short_syntax: bool,
)
    requires
        reproduces(s, vars, true, short_syntax),
        !is_meta(ch),
    ensures
        reproduces(s + seq!['\\', ch], vars, true, short_syntax),
{
    lemma_run_append(initial(), 0, s, seq!['\\', ch], vars, true, short_syntax);
    law_escape_pair(
        run_from(initial(), 0, s, vars, true, short_syntax),
        s.len() as int,
        ch,
        vars,
        short_syntax,
    );
}

/// Scanning a reproducing text followed by one `c`, which is `$` or `\`,
/// and then reaching the end, gives the text back.
proof fn lemma_reproduces_trailing(
    s: Seq<char>,
    c: char,
    vars: Map<Seq<char>, Seq<char>>,
    escape: bool,
    short_syntax: bool,
)
    requires
        reproduces(s, vars, escape, short_syntax),
        c == '$' || (escape && c == '\\'),
    ensures
        outcome(finish(run_from(initial(), 0, s + seq![c], vars, escape, short_syntax), vars))
            == Ok::<Seq<char>, ScanError>(s + seq![c]),
{
    lemma_run_append(initial(), 0, s, seq![c], vars, escape, short_syntax);
    let r = run_from(initial(), 0, s, vars, escape, short_syntax);
    assert(seq![c].drop_last() == Seq::<char>::empty());
    assert(run_from(r, s.len() as int, Seq::<char>::empty(), vars, escape, short_syntax) == r);
    assert(s.push(c) == s + seq![c]);
}

/// If every reference of a template resolves, no value holds a `$` (nor a
/// `\` where escapes are on), and, where escapes are on, the template holds
/// neither `\$` nor `\\`, then substituting again into the output, with
/// any table, gives the output back.
pub proof fn law_resolved_output_is_fixed(
    t: Seq<char>,
    vars: Map<Seq<char>, Seq<char>>,
    other: Map<Seq<char>, Seq<char>>,
    escape: bool,
    short_syntax: bool,
)
    requires
        escape ==> !has_syntax_escape(t),
        forall|k: Seq<char>| #[trigger] vars.contains_key(k) ==> is_inert(vars[k], escape),
        complete_scan(t, vars, escape, short_syntax).err is None,
        complete_scan(t, vars, escape, short_syntax).unresolved == 0,
    ensures
        substitution(complete_scan(t, vars, escape, short_syntax).out, other, escape, short_syntax)
            == Ok::<Seq<char>, ScanError>(complete_scan(t, vars, escape, short_syntax).out),
{
    let n = t.len();
    let last = run_from(initial(), 0, t, vars, escape, short_syntax);
    lemma_finish_extends(last, vars);
    lemma_prefix_reproduces(t, n, vars, other, escape, short_syntax);
    assert(t.take(n as int) == t);
    let o = last.out;
    let fin = finish(last, vars);
    match last.state {
        State::Normal => {},
        State::Escape => {
            lemma_reproduces_trailing(o, '\\', other, escape, short_syntax);
            assert(fin.out == o + seq!['\\']);
        },
        State::Dollar => {
            lemma_reproduces_trailing(o, '$', other, escape, short_syntax);
            assert(fin.out == o + seq!['$']);
        },
        State::BraceVar => {},
        State::ShortVar => {
            assert(vars.contains_key(last.name));
            lemma_reproduces_inert(o, vars[last.name], other, escape, short_syntax);
        },
    }
}

/// The induction behind the law above: every prefix of such a template
/// leaves an output that reproduces itself.
proof fn lemma_prefix_reproduces(
    t: Seq<char>,
    i: nat,
    vars: Map<Seq<char>, Seq<char>>,
    other: Map<Seq<char>, Seq<char>>,
    escape: bool,
    short_syntax: bool,
)
    requires
        i <= t.len(),
        escape ==> !has_syntax_escape(t),
        forall|k: Seq<char>| #[trigger] vars.contains_key(k) ==> is_inert(vars[k], escape),
        complete_scan(t, vars, escape, short_syntax).err is None,
        complete_scan(t, vars, escape, short_syntax).unresolved == 0,
    ensures
        ({
            let c = run_from(initial(), 0, t.take(i as int), vars, escape, short_syntax);
            &&& c.err is None
            &&& c.unresolved == 0
            &&& (c.state == State::Escape ==> escape && i > 0 && t[i - 1] == '\\')
            &&& (c.state == State::ShortVar ==> c.name.len() > 0)
            &&& reproduces(c.out, other, escape, short_syntax)
        }),
    decreases i,
{
    let c = run_from(initial(), 0, t.take(i as int), vars, escape, short_syntax);
    let last = run_from(initial(), 0, t, vars, escape, short_syntax);
    lemma_run_append(initial(), 0, t.take(i as int), t.skip(i as int), vars, escape, short_syntax);
    assert(t.take(i as int) + t.skip(i as int) == t);
    lemma_run_extends(c, i as int, t.skip(i as int), vars, escape, short_syntax);
    lemma_finish_extends(last, vars);
    if i == 0 {
        assert(t.take(0) == Seq::<char>::empty());
        assert(c == initial());
        assert(run_from(initial(), 0, Seq::<char>::empty(), other, escape, short_syntax) == initial());
    } else {
        let j = (i - 1) as nat;
        lemma_prefix_reproduces(t, j, vars, other, escape, short_syntax);
        let p = run_from(initial(), 0, t.take(j as int), vars, escape, short_syntax);
        let ch = t[j as int];
        assert(t.take(i as int).drop_last() == t.take(j as int));
        assert(t.take(i as int).last() == ch);
        assert(c == step(p, ch, j as int, vars, escape, short_syntax));
        let single = seq![ch];
        let copies = ch != '$' && !(escape && ch == '\\');
        assert(c.err is None);
        assert(c.unresolved == 0);
        match p.state {
            State::Normal => {
                if copies {
                    assert(c.out == p.out + single);
                    lemma_reproduces_inert(p.out, single, other, escape, short_syntax);
                }
                assert(reproduces(c.out, other, escape, short_syntax));
            },
            State::Escape => {
                assert(t[j - 1] == '\\');
                if ch == '$' || ch == '\\' {
                    assert(has_syntax_escape(t));
                } else if ch == '{' || ch == '}' {
                    assert(c.out == p.out + single);
                    lemma_reproduces_inert(p.out, single, other, escape, short_syntax);
                } else {
                    lemma_reproduces_escape_pair(p.out, ch, other, short_syntax);
                    assert(c.out == p.out + seq!['\\', ch]);
                }
                assert(reproduces(c.out, other, escape, short_syntax));
            },
            State::Dollar => {
                if ch != '{' && !(short_syntax && spec_is_var_char_start(ch)) {
                    lemma_reproduces_dollar_pair(p.out, ch, other, escape, short_syntax);
                    assert(c.out == p.out + seq!['$', ch]);
                }
                assert(reproduces(c.out, other, escape, short_syntax));
            },
            State::BraceVar => {
                if ch == '}' && p.name.len() > 0 {
                    assert(vars.contains_key(p.name));
                    lemma_reproduces_inert(p.out, vars[p.name], other, escape, short_syntax);
                }
                assert(reproduces(c.out, other, escape, short_syntax));
            },
            State::ShortVar => {
                if !spec_is_var_char(ch) {
                    assert(vars.contains_key(p.name));
                    let v = vars[p.name];
                    lemma_reproduces_inert(p.out, v, other, escape, short_syntax);
                    if copies {
                        lemma_reproduces_inert(p.out + v, single, other, escape, short_syntax);
                        assert(c.out == p.out + v + single);
                    }
                }
                assert(reproduces(c.out, other, escape, short_syntax));
            },
        }
    }
}

/// Characters read but not yet written out: the `\` or `$` just seen, or
/// the reference collected so far.
pub open spec fn pending(c: Scan) -> int {
    match c.state {
        State::Normal => 0,
        State::Escape => 1,
        State::Dollar => 1,
        State::BraceVar => 2 + c.name.len() as int,
        State::ShortVar => 1 + c.name.len() as int,
    }
}

proof fn lemma_prefix_length(
    t: Seq<char>,
    i: nat,
    vars: Map<Seq<char>, Seq<char>>,
    escape: bool,
    short_syntax: bool,
)
    requires
        i <= t.len(),
    ensures
        ({
            let c = run_from(initial(), 0, t.take(i as int), vars, escape, short_syntax);
            c.err is None ==> c.out.len() + pending(c) <= i + c.growth
        }),
    decreases i,
{
    if i == 0 {
        assert(t.take(0) == Seq::<char>::empty());
    } else {
        let j = (i - 1) as nat;
        lemma_prefix_length(t, j, vars, escape, short_syntax);
        assert(t.take(i as int).drop_last() == t.take(j as int));
    }
}

/// When substitution succeeds, the output is no longer than the template
/// plus the growth of the scan: the sum, over the resolved references, of
/// the length of the value less the length of the reference.
pub proof fn law_output_length_bound(
    t: Seq<char>,
    vars: Map<Seq<char>, Seq<char>>,
    escape: bool,
    short_syntax: bool,
)
    ensures
        complete_scan(t, vars, escape, short_syntax).err is None ==> complete_scan(
            t,
            vars,
            escape,
            short_syntax,
        ).out.len() <= t.len() + complete_scan(t, vars, escape, short_syntax).growth,
{
    lemma_prefix_length(t, t.len(), vars, escape, short_syntax);
    assert(t.take(t.len() as int) == t);
}

proof fn lemma_collect_name(
    c: Scan,
    base: int,
    n: Seq<char>,
    vars: Map<Seq<char>, Seq<char>>,
    escape: bool,
    short_syntax: bool,
)
    requires
        c.state == State::BraceVar || c.state == State::ShortVar,
        c.err is None,
        forall|k: int| 0 <= k < n.len() ==> spec_is_var_char(#[trigger] n[k]),
    ensures
        run_from(c, base, n, vars, escape, short_syntax) == (Scan { name: c.name + n, ..c }),
    decreases n.len(),
{
    if n.len() == 0 {
        assert(c.name + n == c.name);
    } else {
        lemma_collect_name(c, base, n.drop_last(), vars, escape, short_syntax);
        assert(n.last() == n[n.len() - 1]);
        assert(c.name + n == (c.name + n.drop_last()).push(n.last()));
    }
}

/// Reading, in plain text, the opening of a reference (`${` or `$`) and then
/// the characters of its name.
proof fn lemma_open_reference(
    c: Scan,
    base: int,
    n: Seq<char>,
    braced: bool,
    vars: Map<Seq<char>, Seq<char>>,
    escape: bool,
    short_syntax: bool,
)
    requires
        is_plain(c),
        forall|k: int| 0 <= k < n.len() ==> spec_is_var_char(#[trigger] n[k]),
        braced || (short_syntax && n.len() > 0 && spec_is_var_char_start(n[0])),
    ensures
        ({
            let open = if braced { seq!['$', '{'] + n } else { seq!['$'] + n };
            let d = run_from(c, base, open, vars, escape, short_syntax);
            &&& d.err is None
            &&& d.state == (if braced { State::BraceVar } else { State::ShortVar })
            &&& d.out == c.out
            &&& d.name == n
            &&& d.start == base
            &&& d.unresolved == c.unresolved
        }),
{
    let dollar = step(c, '$', base, vars, escape, short_syntax);
    assert(seq!['$'].drop_last() == Seq::<char>::empty());
    assert(run_from(c, base, Seq::<char>::empty(), vars, escape, short_syntax) == c);
    assert(run_from(c, base, seq!['$'], vars, escape, short_syntax) == dollar);
    if braced {
        let head = seq!['$', '{'];
        assert(head.drop_last() == seq!['$']);
        let br = step(dollar, '{', base + 1, vars, escape, short_syntax);
        assert(run_from(c, base, head, vars, escape, short_syntax) == br);
        lemma_run_append(c, base, head, n, vars, escape, short_syntax);
        lemma_collect_name(br, base + 2, n, vars, escape, short_syntax);
        assert(Seq::<char>::empty() + n == n);
    } else {
        let head = seq!['$', n[0]];
        assert(head.drop_last() == seq!['$']);
        let sv = step(dollar, n[0], base + 1, vars, escape, short_syntax);
        assert(run_from(c, base, head, vars, escape, short_syntax) == sv);
        lemma_run_append(c, base, head, n.skip(1), vars, escape, short_syntax);
        lemma_collect_name(sv, base + 2, n.skip(1), vars, escape, short_syntax);
        assert(seq![n[0]] + n.skip(1) == n);
        assert(head + n.skip(1) == seq!['$'] + n);
    }
}

/// A braced reference whose name the table lacks, met in plain text, is
/// copied to the output as written, at the place where it stood, whatever
/// follows it.
pub proof fn law_unresolved_braced_passthrough(
    a: Seq<char>,
    n: Seq<char>,
    b: Seq<char>,
    vars: Map<Seq<char>, Seq<char>>,
    escape: bool,
    short_syntax: bool,
)
    requires
        is_plain(run_from(initial(), 0, a, vars, escape, short_syntax)),
        n.len() > 0,
        forall|k: int| 0 <= k < n.len() ==> spec_is_var_char(#[trigger] n[k]),
        !vars.contains_key(n),
    ensures
        ({
            let before = run_from(initial(), 0, a, vars, escape, short_syntax).out;
            let after = run_from(initial(), 0, a + surface(n, true), vars, escape, short_syntax);
            &&& is_plain(after)
            &&& after.out == before + surface(n, true)
        }),
        substitution(a + surface(n, true) + b, vars, escape, short_syntax) is Ok ==> substitution(
            a + surface(n, true) + b,
            vars,
            escape,
            short_syntax,
        )->Ok_0.take(
            run_from(initial(), 0, a, vars, escape, short_syntax).out.len() + n.len() + 3int,
        ) == run_from(initial(), 0, a, vars, escape, short_syntax).out + surface(n, true),
{
    let c = run_from(initial(), 0, a, vars, escape, short_syntax);
    let open = seq!['$', '{'] + n;
    let r = surface(n, true);
    lemma_open_reference(c, a.len() as int, n, true, vars, escape, short_syntax);
    assert(r == open.push('}'));
    assert(r.drop_last() == open);
    lemma_run_append(initial(), 0, a, r, vars, escape, short_syntax);
    let after = run_from(initial(), 0, a + r, vars, escape, short_syntax);
    lemma_run_append(initial(), 0, a + r, b, vars, escape, short_syntax);
    lemma_run_extends(after, (a + r).len() as int, b, vars, escape, short_syntax);
    let whole = run_from(initial(), 0, a + r + b, vars, escape, short_syntax);
    lemma_finish_extends(whole, vars);
    let k = after.out.len() as int;
    assert(finish(whole, vars).out.take(k) == whole.out.take(whole.out.len() as int).take(k));
    assert(whole.out.take(whole.out.len() as int) == whole.out);
}

/// A short reference whose name the table lacks, met in plain text and
/// ended by a character that cannot stand in a name or by the end of the
/// template, is copied to the output as written, at the place where it stood.
pub proof fn law_unresolved_short_passthrough(
    a: Seq<char>,
    n: Seq<char>,
    b: Seq<char>,
    vars: Map<Seq<char>, Seq<char>>,
    escape: bool,
)
    requires
        is_plain(run_from(initial(), 0, a, vars, escape, true)),
        crate::model::is_identifier(n),
        !vars.contains_key(n),
        b.len() == 0 || !spec_is_var_char(b[0]),
    ensures
        substitution(a + surface(n, false) + b, vars, escape, true) is Ok ==> substitution(
            a + surface(n, false) + b,
            vars,
            escape,
            true,
        )->Ok_0.take(run_from(initial(), 0, a, vars, escape, true).out.len() + n.len() + 1int)
            == run_from(initial(), 0, a, vars, escape, true).out + surface(n, false),
{
    let c = run_from(initial(), 0, a, vars, escape, true);
    let r = surface(n, false);
    lemma_open_reference(c, a.len() as int, n, false, vars, escape, true);
    lemma_run_append(initial(), 0, a, r, vars, escape, true);
    let mid = run_from(initial(), 0, a + r, vars, escape, true);
    let want = c.out + r;
    let k = want.len() as int;
    if b.len() == 0 {
        assert(a + r + b == a + r);
        assert(finish(mid, vars).out == want);
        assert(want.take(k) == want);
    } else {
        let ch = b[0];
        let closed = step(mid, ch, (a + r).len() as int, vars, escape, true);
        assert(b.take(1).drop_last() == Seq::<char>::empty());
        assert(run_from(mid, (a + r).len() as int, Seq::<char>::empty(), vars, escape, true) == mid);
        assert(b.take(1).last() == ch);
        assert(run_from(mid, (a + r).len() as int, b.take(1), vars, escape, true) == closed);
        assert(closed.out.take(k) == want);
        assert(closed.out.len() >= k);
        lemma_run_append(mid, (a + r).len() as int, b.take(1), b.skip(1), vars, escape, true);
        assert(b.take(1) + b.skip(1) == b);
        lemma_run_append(initial(), 0, a + r, b, vars, escape, true);
        lemma_run_extends(closed, (a + r).len() + 1int, b.skip(1), vars, escape, true);
        let whole = run_from(initial(), 0, a + r + b, vars, escape, true);
        lemma_finish_extends(whole, vars);
        let m = closed.out.len() as int;
        assert(finish(whole, vars).out.take(m) == closed.out);
        assert(finish(whole, vars).out.take(k) == finish(whole, vars).out.take(m).take(k));
    }
}

/// With escapes on, a backslash read in plain text and the character after
/// it give that character alone when it is `$`, `{`, `}` or `\`, and both
/// characters unchanged otherwise.
pub proof fn law_escape_pair(
    c: Scan,
    base: int,
    ch: char,
    vars: Map<Seq<char>, Seq<char>>,
    short_syntax: bool,
)
    requires
        is_plain(c),
    ensures
        is_plain(run_from(c, base, seq!['\\', ch], vars, true, short_syntax)),
        run_from(c, base, seq!['\\', ch], vars, true, short_syntax).out == c.out + (if is_meta(
            ch,
        ) {
            seq![ch]
        } else {
            seq!['\\', ch]
        }),
{
    let u = seq!['\\', ch];
    assert(u.drop_last() == seq!['\\']);
    assert(seq!['\\'].drop_last() == Seq::<char>::empty());
    let e = step(c, '\\', base, vars, true, short_syntax);
    assert(run_from(c, base, Seq::<char>::empty(), vars, true, short_syntax) == c);
    assert(run_from(c, base, seq!['\\'], vars, true, short_syntax) == e);
    assert(c.out + seq![ch] == c.out.push(ch));
    assert(c.out + seq!['\\', ch] == c.out.push('\\').push(ch));
}

} // verus!
