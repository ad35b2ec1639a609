//! Lambda terms in de Bruijn form, the prefix-notation parser that
//! produces them and the printer that renders them back.
//!
//! Syntax: `/f x` is the application `f(x)`, `#name body` the abstraction
//! `λname. body`, `@name val body` substitutes a definition, `:name val
//! body` is the let `(λname. body)(val)`, and a bare name is a variable.

use vstd::prelude::*;

verus! {

/// A lambda term: an application, an abstraction, or a bound variable
/// counting enclosing binders (0 the innermost).
#[derive(Debug, PartialEq, Eq)]
pub enum Term {
    App { fun: Box<Term>, arg: Box<Term> },
    Lam { bod: Box<Term> },
    Var { idx: u32 },
}

/// Number of constructors in a term.
pub open spec fn term_size(t: Term) -> nat
    decreases t,
{
    match t {
        Term::App { fun, arg } => 1 + term_size(*fun) + term_size(*arg),
        Term::Lam { bod } => 1 + term_size(*bod),
        Term::Var { .. } => 1,
    }
}

/// Every variable refers to one of `n` enclosing binders.
pub open spec fn scoped(t: Term, n: nat) -> bool
    decreases t,
{
    match t {
        Term::App { fun, arg } => scoped(*fun, n) && scoped(*arg, n),
        Term::Lam { bod } => scoped(*bod, n + 1),
        Term::Var { idx } => (idx as nat) < n,
    }
}

/// Structural copy of a term.
pub fn clone_term(t: &Term) -> (r: Term)
    ensures
        r == *t,
    decreases *t,
{
    match t {
        Term::App { fun, arg } => Term::App {
            fun: Box::new(clone_term(fun)),
            arg: Box::new(clone_term(arg)),
        },
        Term::Lam { bod } => Term::Lam { bod: Box::new(clone_term(bod)) },
        Term::Var { idx } => Term::Var { idx: *idx },
    }
}

/// Size of a term, saturating at `u64::MAX`.
pub fn term_size_capped(t: &Term) -> (r: u64)
    ensures
        r <= term_size(*t),
        r < u64::MAX ==> r == term_size(*t),
    decreases *t,
{
    match t {
        Term::App { fun, arg } => {
            let a = term_size_capped(fun);
            let b = term_size_capped(arg);
            if a >= u64::MAX - 1 || b >= u64::MAX - 1 - a {
                u64::MAX
            } else {
                1 + a + b
            }
        },
        Term::Lam { bod } => {
            let a = term_size_capped(bod);
            if a == u64::MAX {
                u64::MAX
            } else {
                1 + a
            }
        },
        Term::Var { .. } => 1,
    }
}

/// Decides `scoped(t, depth)`.
pub fn check_scope(t: &Term, depth: u64) -> (r: bool)
    requires
        depth + term_size(*t) <= u64::MAX,
    ensures
        r == scoped(*t, depth as nat),
    decreases *t,
{
    match t {
        Term::App { fun, arg } => {
            let f = check_scope(fun, depth);
            f && check_scope(arg, depth)
        },
        Term::Lam { bod } => check_scope(bod, depth + 1),
        Term::Var { idx } => (*idx as u64) < depth,
    }
}

/// The name that `var_name` builds for a binder index: digits in base 26,
/// least significant first, written `a` to `z`; index 0 gives the empty
/// name.
pub open spec fn var_name_spec(idx: nat) -> Seq<u8>
    decreases idx,
{
    if idx == 0 {
        Seq::empty()
    } else {
        seq![(97 + ((idx - 1) % 26)) as u8] + var_name_spec(((idx - 1) / 26) as nat)
    }
}

/// Builds a variable name from an index (1 = "a", 2 = "b", 27 = "aa", ...).
pub fn var_name(idx: u32) -> (r: Vec<u8>)
    ensures
        r@ == var_name_spec(idx as nat),
{
    let mut name: Vec<u8> = Vec::new();
    let mut i: u32 = idx;
    proof {
        assert(var_name_spec(idx as nat) =~= Seq::<u8>::empty() + var_name_spec(idx as nat));
    }
    while i > 0
        invariant
            var_name_spec(idx as nat) == name@ + var_name_spec(i as nat),
        decreases i,
    {
        let ghost pre = i as nat;
        i = i - 1;
        name.push(97 + (i % 26) as u8);
        i = i / 26;
        proof {
            assert(var_name_spec(pre) =~= seq![(97 + ((pre - 1) % 26)) as u8] + var_name_spec(
                ((pre - 1) / 26) as nat,
            ));
            assert(name@ + var_name_spec(i as nat) =~= name@.drop_last() + var_name_spec(pre));
        }
    }
    proof {
        assert(name@ + var_name_spec(0) =~= name@);
    }
    name
}

/// The rendering of a term at nesting depth `dph`: `/fun arg` for an
/// application, `#name body` for an abstraction whose binder is named
/// after its depth, and the binder's name for a variable.
pub open spec fn print_spec(t: Term, dph: nat) -> Seq<u8>
    decreases t,
{
    match t {
        Term::App { fun, arg } => seq![47u8] + print_spec(*fun, dph) + seq![32u8] + print_spec(
            *arg,
            dph,
        ),
        Term::Lam { bod } => seq![35u8] + var_name_spec(dph + 1) + seq![32u8] + print_spec(
            *bod,
            dph + 1,
        ),
        Term::Var { idx } => var_name_spec((dph - idx) as nat),
    }
}

/// Appends the rendering of `t` at depth `dph` to `code`.
fn write_term(code: &mut Vec<u8>, t: &Term, dph: u32)
    requires
        scoped(*t, dph as nat),
        dph + term_size(*t) <= u32::MAX,
    ensures
        final(code)@ == old(code)@ + print_spec(*t, dph as nat),
    decreases *t,
{
    match t {
        Term::App { fun, arg } => {
            code.push(47);
            write_term(code, fun, dph);
            code.push(32);
            write_term(code, arg, dph);
            proof {
                assert(code@ =~= old(code)@ + print_spec(*t, dph as nat));
            }
        },
        Term::Lam { bod } => {
            code.push(35);
            let mut name = var_name(dph + 1);
            code.append(&mut name);
            code.push(32);
            write_term(code, bod, dph + 1);
            proof {
                assert(code@ =~= old(code)@ + print_spec(*t, dph as nat));
            }
        },
        Term::Var { idx } => {
            let mut name = var_name(dph - *idx);
            code.append(&mut name);
        },
    }
}

/// Where the name starting at `pos` ends: the first space or newline at
/// or after `pos`, or the end of the source.
pub open spec fn name_end(code: Seq<u8>, pos: int) -> int
    decreases code.len() - pos,
{
    if pos < 0 || pos >= code.len() {
        pos
    } else if code[pos] == 32 || code[pos] == 10 {
        pos
    } else {
        name_end(code, pos + 1)
    }
}

/// The binding a name resolves to, scanning the innermost `i` entries of
/// the context outward with `idx` plain binders already passed: the
/// de Bruijn index counted, the definition found (if any), and whether
/// any entry matched. Definitions do not count toward the index.
pub open spec fn resolve(
    ctx: Seq<(Seq<u8>, Option<Term>)>,
    name: Seq<u8>,
    i: int,
    idx: int,
) -> (int, Option<Term>, bool)
    decreases i,
{
    if i <= 0 {
        (idx, None, false)
    } else {
        let e = ctx[i - 1];
        if e.0 == name {
            (idx, e.1, true)
        } else {
            resolve(
                ctx,
                name,
                i - 1,
                if e.1 is Some {
                    idx
                } else {
                    idx + 1
                },
            )
        }
    }
}

/// The context as the parser's specification sees it: names as byte
/// sequences.
pub open spec fn ctx_view(c: Seq<(Vec<u8>, Option<Term>)>) -> Seq<(Seq<u8>, Option<Term>)> {
    c.map_values(|e: (Vec<u8>, Option<Term>)| (e.0@, e.1))
}

/// What the parser reads at `pos` under the open bindings `ctx`: the
/// position after the term and the term, or `None` where the source is
/// malformed. `/f x` is an application, `#n b` an abstraction binding
/// `n`, `@n v b` parses `b` with `n` defined as `v` (copied in where
/// used, counting for no index), `:n v b` the application of `#n b` to
/// `v`, and a bare name is the innermost binding it resolves to.
pub open spec fn parse_spec(code: Seq<u8>, pos: int, ctx: Seq<(Seq<u8>, Option<Term>)>) -> Option<
    (int, Term),
>
    decreases code.len() - pos,
{
    if pos < 0 || pos >= code.len() {
        None
    } else {
        let c = code[pos];
        if c == 32 || c == 10 {
            parse_spec(code, pos + 1, ctx)
        } else if c == 47 {
            match parse_spec(code, pos + 1, ctx) {
                Some(pf) => if pos + 1 < pf.0 && pf.0 <= code.len() {
                    match parse_spec(code, pf.0, ctx) {
                        Some(pa) => Some(
                            (pa.0, Term::App { fun: Box::new(pf.1), arg: Box::new(pa.1) }),
                        ),
                        None => None,
                    }
                } else {
                    None
                },
                None => None,
            }
        } else if c == 35 {
            let p1 = name_end(code, pos + 1);
            let nam = code.subrange(pos + 1, p1);
            if pos < p1 && p1 <= code.len() {
                match parse_spec(code, p1, ctx.push((nam, None))) {
                    Some(pb) => Some((pb.0, Term::Lam { bod: Box::new(pb.1) })),
                    None => None,
                }
            } else {
                None
            }
        } else if c == 64 {
            let p1 = name_end(code, pos + 1);
            let nam = code.subrange(pos + 1, p1);
            if pos < p1 && p1 <= code.len() {
                match parse_spec(code, p1, ctx) {
                    Some(pv) => if p1 < pv.0 && pv.0 <= code.len() {
                        parse_spec(code, pv.0, ctx.push((nam, Some(pv.1))))
                    } else {
                        None
                    },
                    None => None,
                }
            } else {
                None
            }
        } else if c == 58 {
            let p1 = name_end(code, pos + 1);
            let nam = code.subrange(pos + 1, p1);
            if pos < p1 && p1 <= code.len() {
                match parse_spec(code, p1, ctx) {
                    Some(pv) => if p1 < pv.0 && pv.0 <= code.len() {
                        match parse_spec(code, pv.0, ctx.push((nam, None))) {
                            Some(pb) => Some(
                                (
                                    pb.0,
                                    Term::App {
                                        fun: Box::new(Term::Lam { bod: Box::new(pb.1) }),
                                        arg: Box::new(pv.1),
                                    },
                                ),
                            ),
                            None => None,
                        }
                    } else {
                        None
                    },
                    None => None,
                }
            } else {
                None
            }
        } else {
            let p1 = name_end(code, pos);
            let nam = code.subrange(pos, p1);
            let rv = resolve(ctx, nam, ctx.len() as int, 0);
            match rv.1 {
                Some(t) => Some((p1, t)),
                None => if rv.0 > 0xFFFF_FFFF {
                    None
                } else {
                    Some((p1, Term::Var { idx: rv.0 as u32 }))
                },
            }
        }
    }
}

/// Byte-for-byte equality of two names.
fn names_equal(a: &Vec<u8>, b: &Vec<u8>) -> (r: bool)
    ensures
        r == (a@ == b@),
{
    if a.len() != b.len() {
        return false;
    }
    let mut k: usize = 0;
    while k < a.len()
        invariant
            k <= a@.len(),
            a@.len() == b@.len(),
            forall|m: int| 0 <= m < k ==> a@[m] == b@[m],
        decreases a@.len() - k,
    {
        if a[k] != b[k] {
            return false;
        }
        k = k + 1;
    }
    proof {
        assert(a@ =~= b@);
    }
    true
}

/// Reads a name: the bytes from `pos` up to the next space or newline.
fn parse_name(code: &[u8], pos: usize) -> (r: (usize, Vec<u8>))
    requires
        pos <= code@.len(),
    ensures
        pos <= r.0 <= code@.len(),
        r.0 as int == name_end(code@, pos as int),
        r.1@ == code@.subrange(pos as int, r.0 as int),
        pos < code@.len() && code@[pos as int] != 32 && code@[pos as int] != 10 ==> r.0 > pos,
        // the name holds no separator, and the scan stopped at one
        forall|k: int| pos <= k < r.0 ==> code@[k] != 32 && #[trigger] code@[k] != 10,
        r.0 < code@.len() ==> code@[r.0 as int] == 32 || code@[r.0 as int] == 10,
{
    let mut i: usize = pos;
    while i < code.len() && code[i] != 32 && code[i] != 10
        invariant
            pos <= i <= code@.len(),
            name_end(code@, pos as int) == name_end(code@, i as int),
            forall|k: int| pos <= k < i ==> code@[k] != 32 && #[trigger] code@[k] != 10,
        decreases code@.len() - i,
    {
        i = i + 1;
    }
    let mut name: Vec<u8> = Vec::new();
    let mut j: usize = pos;
    proof {
        assert(name@ =~= code@.subrange(pos as int, pos as int));
    }
    while j < i
        invariant
            pos <= j <= i <= code@.len(),
            name@ == code@.subrange(pos as int, j as int),
        decreases i - j,
    {
        name.push(code[j]);
        j = j + 1;
        proof {
            assert(name@ =~= code@.subrange(pos as int, j as int));
        }
    }
    (i, name)
}

/// Scans the context innermost first for a binding of `name`: the
/// de Bruijn index counted over plain binders, and the definition found.
fn resolve_name(ctx: &Vec<(Vec<u8>, Option<Term>)>, name: &Vec<u8>) -> (r: (usize, Option<Term>))
    ensures
        ({
            let rv = resolve(ctx_view(ctx@), name@, ctx@.len() as int, 0);
            &&& r.0 as int == rv.0
            &&& (match r.1 {
                Some(t) => rv.1 matches Some(st) && st == t,
                None => rv.1 is None,
            })
        }),
        r.0 <= ctx@.len(),
{
    let mut i: usize = ctx.len();
    let mut idx: usize = 0;
    proof {
        assert(ctx_view(ctx@).len() == ctx@.len());
    }
    while i > 0
        invariant
            idx + i <= ctx@.len(),
            ctx@.len() <= usize::MAX,
            ctx_view(ctx@).len() == ctx@.len(),
            resolve(ctx_view(ctx@), name@, ctx@.len() as int, 0) == resolve(
                ctx_view(ctx@),
                name@,
                i as int,
                idx as int,
            ),
        decreases i,
    {
        i = i - 1;
        proof {
            assert(ctx_view(ctx@)[i as int] == (ctx@[i as int].0@, ctx@[i as int].1));
        }
        if names_equal(&ctx[i].0, name) {
            match &ctx[i].1 {
                Some(t) => {
                    return (idx, Some(clone_term(t)));
                },
                None => {
                    return (idx, None);
                },
            }
        } else {
            match &ctx[i].1 {
                Some(_) => {},
                None => {
                    idx = idx + 1;
                },
            }
        }
    }
    (idx, None)
}

/// Parses one term starting at `pos` under the context `ctx` of open
/// (name, definition) bindings: exactly what `parse_spec` reads there, the
/// position after the term and the term, or `None` if the source is
/// malformed. The context is restored before returning.
pub fn parse_term(code: &[u8], pos: usize, ctx: &mut Vec<(Vec<u8>, Option<Term>)>) -> (r: Option<
    (usize, Term),
>)
    requires
        pos <= code@.len(),
    ensures
        final(ctx)@ == old(ctx)@,
        r matches Some(p) ==> pos < p.0 <= code@.len(),
        ({
            let ps = parse_spec(code@, pos as int, ctx_view(old(ctx)@));
            match r {
                Some(q) => ps matches Some(sq) && sq.0 == q.0 as int && sq.1 == q.1,
                None => ps is None,
            }
        }),
    decreases code@.len() - pos,
{
    if pos >= code.len() {
        return None;
    }
    let c = code[pos];
    if c == 32 || c == 10 {
        // whitespace
        parse_term(code, pos + 1, ctx)
    } else if c == 47 {
        // application: /fun arg
        match parse_term(code, pos + 1, ctx) {
            None => None,
            Some((p1, fun)) => match parse_term(code, p1, ctx) {
                None => None,
                Some((p2, arg)) => Some(
                    (p2, Term::App { fun: Box::new(fun), arg: Box::new(arg) }),
                ),
            },
        }
    } else if c == 35 {
        // abstraction: #name body
        let (p1, nam) = parse_name(code, pos + 1);
        ctx.push((nam, None));
        proof {
            assert(ctx_view(ctx@) =~= ctx_view(old(ctx)@).push(
                (code@.subrange(pos + 1, p1 as int), None),
            ));
        }
        match parse_term(code, p1, ctx) {
            None => {
                ctx.pop();
                None
            },
            Some((p2, bod)) => {
                ctx.pop();
                Some((p2, Term::Lam { bod: Box::new(bod) }))
            },
        }
    } else if c == 64 {
        // definition: @name value body
        let (p1, nam) = parse_name(code, pos + 1);
        match parse_term(code, p1, ctx) {
            None => None,
            Some((p2, val)) => {
                ctx.push((nam, Some(val)));
                proof {
                    let ps = parse_spec(code@, p1 as int, ctx_view(old(ctx)@));
                    assert(ctx_view(ctx@) =~= ctx_view(old(ctx)@).push(
                        (code@.subrange(pos + 1, p1 as int), Some(ps->Some_0.1)),
                    ));
                }
                match parse_term(code, p2, ctx) {
                    None => {
                        ctx.pop();
                        None
                    },
                    Some((p3, bod)) => {
                        ctx.pop();
                        Some((p3, bod))
                    },
                }
            },
        }
    } else if c == 58 {
        // let: :name value body, the same as /#name body value
        let (p1, nam) = parse_name(code, pos + 1);
        match parse_term(code, p1, ctx) {
            None => None,
            Some((p2, val)) => {
                ctx.push((nam, None));
                proof {
                    assert(ctx_view(ctx@) =~= ctx_view(old(ctx)@).push(
                        (code@.subrange(pos + 1, p1 as int), None),
                    ));
                }
                match parse_term(code, p2, ctx) {
                    None => {
                        ctx.pop();
                        None
                    },
                    Some((p3, bod)) => {
                        ctx.pop();
                        Some(
                            (
                                p3,
                                Term::App {
                                    fun: Box::new(Term::Lam { bod: Box::new(bod) }),
                                    arg: Box::new(val),
                                },
                            ),
                        )
                    },
                }
            },
        }
    } else {
        // a variable, counting plain binders out to the one it names,
        // or a reference to a definition, which is copied in
        let (p1, nam) = parse_name(code, pos);
        let (idx, val) = resolve_name(ctx, &nam);
        match val {
            Some(t) => Some((p1, t)),
            None => {
                if idx > 0xFFFF_FFFF {
                    None
                } else {
                    Some((p1, Term::Var { idx: idx as u32 }))
                }
            },
        }
    }
}

/// Parses source code into a term: exactly what `parse_spec` reads from
/// position 0 with no open bindings; `None` if it is malformed.
pub fn from_string(code: &[u8]) -> (r: Option<Term>)
    ensures
        code@.len() == 0 ==> r is None,
        ({
            let ps = parse_spec(code@, 0, Seq::empty());
            match r {
                Some(t) => ps matches Some(q) && q.1 == t,
                None => ps is None,
            }
        }),
{
    let mut ctx: Vec<(Vec<u8>, Option<Term>)> = Vec::new();
    proof {
        assert(ctx_view(ctx@) =~= Seq::<(Seq<u8>, Option<Term>)>::empty());
    }
    match parse_term(code, 0, &mut ctx) {
        None => None,
        Some((_p, t)) => Some(t),
    }
}

/// Renders a closed term as source code.
pub fn to_string(term: &Term) -> (r: Vec<u8>)
    requires
        scoped(*term, 0),
        term_size(*term) <= u32::MAX,
    ensures
        r@ == print_spec(*term, 0),
{
    let mut code: Vec<u8> = Vec::new();
    write_term(&mut code, term, 0);
    proof {
        assert(Seq::<u8>::empty() + print_spec(*term, 0) =~= print_spec(*term, 0));
    }
    code
}

} // verus!
