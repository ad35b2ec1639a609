//! A small dependently typed lambda calculus layered over the same ideas:
//! terms carry erasure flags, explicit duplications and level marks, with
//! a parser and printer, a substitution-based normalizer, a
//! stratification check on variable usage, and type inference.

use vstd::prelude::*;
use crate::term::name_end;

verus! {

/// A term of the typed calculus: applications and abstractions carry an
/// erasure flag, `All` is the dependent function type, `Dup` an explicit
/// duplication binding, `Inc` and `Lvl` raise a value or a type one
/// level, and `Star` is the type of types.
#[derive(Debug, PartialEq, Eq)]
pub enum Proof {
    App { era: bool, fun: Box<Proof>, arg: Box<Proof> },
    Lam { era: bool, typ: Box<Proof>, bod: Box<Proof> },
    All { era: bool, typ: Box<Proof>, bod: Box<Proof> },
    Var { idx: u32 },
    Dup { val: Box<Proof>, bod: Box<Proof> },
    Inc { val: Box<Proof> },
    Lvl { val: Box<Proof> },
    Star,
}

/// How a binding may be used: affine bindings at most once at the same
/// level, exponential bindings only one level down, polymorphic bindings
/// freely.
#[derive(Debug, PartialEq, Eq)]
pub enum VarType {
    Affine,
    Exponential,
    Polymorphic,
}

/// Number of constructors in a term.
pub open spec fn proof_size(p: Proof) -> nat
    decreases p,
{
    match p {
        Proof::App { fun, arg, .. } => 1 + proof_size(*fun) + proof_size(*arg),
        Proof::Lam { typ, bod, .. } => 1 + proof_size(*typ) + proof_size(*bod),
        Proof::All { typ, bod, .. } => 1 + proof_size(*typ) + proof_size(*bod),
        Proof::Var { .. } => 1,
        Proof::Dup { val, bod, .. } => 1 + proof_size(*val) + proof_size(*bod),
        Proof::Inc { val } => 1 + proof_size(*val),
        Proof::Lvl { val } => 1 + proof_size(*val),
        Proof::Star => 1,
    }
}

/// Structural copy of a term.
pub fn clone_proof(p: &Proof) -> (r: Proof)
    ensures
        r == *p,
    decreases *p,
{
    match p {
        Proof::App { era, fun, arg } => Proof::App {
            era: *era,
            fun: Box::new(clone_proof(fun)),
            arg: Box::new(clone_proof(arg)),
        },
        Proof::Lam { era, typ, bod } => Proof::Lam {
            era: *era,
            typ: Box::new(clone_proof(typ)),
            bod: Box::new(clone_proof(bod)),
        },
        Proof::All { era, typ, bod } => Proof::All {
            era: *era,
            typ: Box::new(clone_proof(typ)),
            bod: Box::new(clone_proof(bod)),
        },
        Proof::Var { idx } => Proof::Var { idx: *idx },
        Proof::Dup { val, bod } => Proof::Dup {
            val: Box::new(clone_proof(val)),
            bod: Box::new(clone_proof(bod)),
        },
        Proof::Inc { val } => Proof::Inc { val: Box::new(clone_proof(val)) },
        Proof::Lvl { val } => Proof::Lvl { val: Box::new(clone_proof(val)) },
        Proof::Star => Proof::Star,
    }
}

/// Structural equality up to names and erasure flags.
pub open spec fn equals_spec(a: Proof, b: Proof) -> bool
    decreases a,
{
    match (a, b) {
        (Proof::App { fun: af, arg: aa, .. }, Proof::App { fun: bf, arg: ba, .. }) => equals_spec(
            *af,
            *bf,
        ) && equals_spec(*aa, *ba),
        (Proof::Lam { typ: at, bod: ab, .. }, Proof::Lam { typ: bt, bod: bb, .. }) => equals_spec(
            *at,
            *bt,
        ) && equals_spec(*ab, *bb),
        (Proof::All { typ: at, bod: ab, .. }, Proof::All { typ: bt, bod: bb, .. }) => equals_spec(
            *at,
            *bt,
        ) && equals_spec(*ab, *bb),
        (Proof::Var { idx: ai }, Proof::Var { idx: bi }) => ai == bi,
        (Proof::Dup { val: av, bod: ab, .. }, Proof::Dup { val: bv, bod: bb, .. }) => equals_spec(
            *av,
            *bv,
        ) && equals_spec(*ab, *bb),
        (Proof::Inc { val: av }, Proof::Inc { val: bv }) => equals_spec(*av, *bv),
        (Proof::Lvl { val: av }, Proof::Lvl { val: bv }) => equals_spec(*av, *bv),
        (Proof::Star, Proof::Star) => true,
        _ => false,
    }
}

/// Decides semantic equality of two terms: structure and variable
/// indices, ignoring names and erasure flags.
pub fn equals(a: &Proof, b: &Proof) -> (r: bool)
    ensures
        r == equals_spec(*a, *b),
    decreases *a,
{
    match (a, b) {
        (Proof::App { fun: af, arg: aa, .. }, Proof::App { fun: bf, arg: ba, .. }) => {
            let f = equals(af, bf);
            f && equals(aa, ba)
        },
        (Proof::Lam { typ: at, bod: ab, .. }, Proof::Lam { typ: bt, bod: bb, .. }) => {
            let t = equals(at, bt);
            t && equals(ab, bb)
        },
        (Proof::All { typ: at, bod: ab, .. }, Proof::All { typ: bt, bod: bb, .. }) => {
            let t = equals(at, bt);
            t && equals(ab, bb)
        },
        (Proof::Var { idx: ai }, Proof::Var { idx: bi }) => *ai == *bi,
        (Proof::Dup { val: av, bod: ab, .. }, Proof::Dup { val: bv, bod: bb, .. }) => {
            let v = equals(av, bv);
            v && equals(ab, bb)
        },
        (Proof::Inc { val: av }, Proof::Inc { val: bv }) => equals(av, bv),
        (Proof::Lvl { val: av }, Proof::Lvl { val: bv }) => equals(av, bv),
        (Proof::Star, Proof::Star) => true,
        _ => false,
    }
}

/// Whether shifting free variables at or above `c` up by `d` keeps every
/// index within its word.
pub open spec fn shift_ok(p: Proof, d: int, c: int) -> bool
    decreases p,
{
    match p {
        Proof::App { fun, arg, .. } => shift_ok(*fun, d, c) && shift_ok(*arg, d, c),
        Proof::Lam { typ, bod, .. } => shift_ok(*typ, d, c) && c < u32::MAX && shift_ok(
            *bod,
            d,
            c + 1,
        ),
        Proof::All { typ, bod, .. } => shift_ok(*typ, d, c) && c < u32::MAX && shift_ok(
            *bod,
            d,
            c + 1,
        ),
        Proof::Var { idx } => idx < c || idx + d <= u32::MAX,
        Proof::Dup { val, bod, .. } => shift_ok(*val, d, c) && c < u32::MAX && shift_ok(
            *bod,
            d,
            c + 1,
        ),
        Proof::Inc { val } => shift_ok(*val, d, c),
        Proof::Lvl { val } => shift_ok(*val, d, c),
        Proof::Star => true,
    }
}

/// The term with every free variable at or above cutoff `c` shifted up by
/// `d` (meaningful where `shift_ok` holds).
pub open spec fn shift_spec(p: Proof, d: int, c: int) -> Proof
    decreases p,
{
    match p {
        Proof::App { era, fun, arg } => Proof::App {
            era,
            fun: Box::new(shift_spec(*fun, d, c)),
            arg: Box::new(shift_spec(*arg, d, c)),
        },
        Proof::Lam { era, typ, bod } => Proof::Lam {
            era,
            typ: Box::new(shift_spec(*typ, d, c)),
            bod: Box::new(shift_spec(*bod, d, c + 1)),
        },
        Proof::All { era, typ, bod } => Proof::All {
            era,
            typ: Box::new(shift_spec(*typ, d, c)),
            bod: Box::new(shift_spec(*bod, d, c + 1)),
        },
        Proof::Var { idx } => Proof::Var {
            idx: if idx < c {
                idx
            } else {
                (idx + d) as u32
            },
        },
        Proof::Dup { val, bod } => Proof::Dup {
            val: Box::new(shift_spec(*val, d, c)),
            bod: Box::new(shift_spec(*bod, d, c + 1)),
        },
        Proof::Inc { val } => Proof::Inc { val: Box::new(shift_spec(*val, d, c)) },
        Proof::Lvl { val } => Proof::Lvl { val: Box::new(shift_spec(*val, d, c)) },
        Proof::Star => Proof::Star,
    }
}

/// Shifts free variables at or above cutoff `c` up by `d`; `None` exactly
/// when an index would leave its word.
pub fn shift(p: &Proof, d: u32, c: u32) -> (r: Option<Proof>)
    ensures
        (r is Some) == shift_ok(*p, d as int, c as int),
        r matches Some(q) ==> q == shift_spec(*p, d as int, c as int),
    decreases *p,
{
    match p {
        Proof::App { era, fun, arg } => {
            let f = match shift(fun, d, c) {
                None => {
                    return None;
                },
                Some(q) => q,
            };
            let a = match shift(arg, d, c) {
                None => {
                    return None;
                },
                Some(q) => q,
            };
            Some(Proof::App { era: *era, fun: Box::new(f), arg: Box::new(a) })
        },
        Proof::Lam { era, typ, bod } => {
            let t = match shift(typ, d, c) {
                None => {
                    return None;
                },
                Some(q) => q,
            };
            if c == u32::MAX {
                return None;
            }
            let b = match shift(bod, d, c + 1) {
                None => {
                    return None;
                },
                Some(q) => q,
            };
            Some(Proof::Lam { era: *era, typ: Box::new(t), bod: Box::new(b) })
        },
        Proof::All { era, typ, bod } => {
            let t = match shift(typ, d, c) {
                None => {
                    return None;
                },
                Some(q) => q,
            };
            if c == u32::MAX {
                return None;
            }
            let b = match shift(bod, d, c + 1) {
                None => {
                    return None;
                },
                Some(q) => q,
            };
            Some(Proof::All { era: *era, typ: Box::new(t), bod: Box::new(b) })
        },
        Proof::Var { idx } => {
            if *idx < c {
                Some(Proof::Var { idx: *idx })
            } else if d <= u32::MAX - *idx {
                Some(Proof::Var { idx: *idx + d })
            } else {
                None
            }
        },
        Proof::Dup { val, bod } => {
            let v = match shift(val, d, c) {
                None => {
                    return None;
                },
                Some(q) => q,
            };
            if c == u32::MAX {
                return None;
            }
            let b = match shift(bod, d, c + 1) {
                None => {
                    return None;
                },
                Some(q) => q,
            };
            Some(Proof::Dup { val: Box::new(v), bod: Box::new(b) })
        },
        Proof::Inc { val } => {
            match shift(val, d, c) {
                None => None,
                Some(q) => Some(Proof::Inc { val: Box::new(q) }),
            }
        },
        Proof::Lvl { val } => {
            match shift(val, d, c) {
                None => None,
                Some(q) => Some(Proof::Lvl { val: Box::new(q) }),
            }
        },
        Proof::Star => Some(Proof::Star),
    }
}

/// Whether substituting `v` for the variable at depth `dph` stays within
/// every word.
pub open spec fn subs_ok(p: Proof, v: Proof, dph: int) -> bool
    decreases p,
{
    match p {
        Proof::App { fun, arg, .. } => subs_ok(*fun, v, dph) && subs_ok(*arg, v, dph),
        Proof::Lam { typ, bod, .. } => subs_ok(*typ, v, dph) && dph < u32::MAX && subs_ok(
            *bod,
            v,
            dph + 1,
        ),
        Proof::All { typ, bod, .. } => subs_ok(*typ, v, dph) && dph < u32::MAX && subs_ok(
            *bod,
            v,
            dph + 1,
        ),
        Proof::Var { idx } => idx != dph || shift_ok(v, dph, 0),
        Proof::Dup { val, bod, .. } => subs_ok(*val, v, dph) && dph < u32::MAX && subs_ok(
            *bod,
            v,
            dph + 1,
        ),
        Proof::Inc { val } => subs_ok(*val, v, dph),
        Proof::Lvl { val } => subs_ok(*val, v, dph),
        Proof::Star => true,
    }
}

/// The term with `v` substituted for the variable bound at depth `dph`
/// and deeper free variables moved down (meaningful where `subs_ok`
/// holds).
pub open spec fn subs_spec(p: Proof, v: Proof, dph: int) -> Proof
    decreases p,
{
    match p {
        Proof::App { era, fun, arg } => Proof::App {
            era,
            fun: Box::new(subs_spec(*fun, v, dph)),
            arg: Box::new(subs_spec(*arg, v, dph)),
        },
        Proof::Lam { era, typ, bod } => Proof::Lam {
            era,
            typ: Box::new(subs_spec(*typ, v, dph)),
            bod: Box::new(subs_spec(*bod, v, dph + 1)),
        },
        Proof::All { era, typ, bod } => Proof::All {
            era,
            typ: Box::new(subs_spec(*typ, v, dph)),
            bod: Box::new(subs_spec(*bod, v, dph + 1)),
        },
        Proof::Var { idx } => {
            if dph == idx {
                shift_spec(v, dph, 0)
            } else if dph < idx {
                Proof::Var { idx: (idx - 1) as u32 }
            } else {
                Proof::Var { idx }
            }
        },
        Proof::Dup { val, bod } => Proof::Dup {
            val: Box::new(subs_spec(*val, v, dph)),
            bod: Box::new(subs_spec(*bod, v, dph + 1)),
        },
        Proof::Inc { val } => Proof::Inc { val: Box::new(subs_spec(*val, v, dph)) },
        Proof::Lvl { val } => Proof::Lvl { val: Box::new(subs_spec(*val, v, dph)) },
        Proof::Star => Proof::Star,
    }
}

/// Substitutes `v` for the variable bound at depth `dph` in `p`.
fn subs_at(p: &Proof, v: &Proof, dph: u32) -> (r: Option<Proof>)
    ensures
        (r is Some) == subs_ok(*p, *v, dph as int),
        r matches Some(q) ==> q == subs_spec(*p, *v, dph as int),
    decreases *p,
{
    match p {
        Proof::App { era, fun, arg } => {
            let f = match subs_at(fun, v, dph) {
                None => {
                    return None;
                },
                Some(q) => q,
            };
            let a = match subs_at(arg, v, dph) {
                None => {
                    return None;
                },
                Some(q) => q,
            };
            Some(Proof::App { era: *era, fun: Box::new(f), arg: Box::new(a) })
        },
        Proof::Lam { era, typ, bod } => {
            let t = match subs_at(typ, v, dph) {
                None => {
                    return None;
                },
                Some(q) => q,
            };
            if dph == u32::MAX {
                return None;
            }
            let b = match subs_at(bod, v, dph + 1) {
                None => {
                    return None;
                },
                Some(q) => q,
            };
            Some(Proof::Lam { era: *era, typ: Box::new(t), bod: Box::new(b) })
        },
        Proof::All { era, typ, bod } => {
            let t = match subs_at(typ, v, dph) {
                None => {
                    return None;
                },
                Some(q) => q,
            };
            if dph == u32::MAX {
                return None;
            }
            let b = match subs_at(bod, v, dph + 1) {
                None => {
                    return None;
                },
                Some(q) => q,
            };
            Some(Proof::All { era: *era, typ: Box::new(t), bod: Box::new(b) })
        },
        Proof::Var { idx } => {
            if dph == *idx {
                shift(v, dph, 0)
            } else if dph < *idx {
                Some(Proof::Var { idx: *idx - 1 })
            } else {
                Some(Proof::Var { idx: *idx })
            }
        },
        Proof::Dup { val, bod } => {
            let w = match subs_at(val, v, dph) {
                None => {
                    return None;
                },
                Some(q) => q,
            };
            if dph == u32::MAX {
                return None;
            }
            let b = match subs_at(bod, v, dph + 1) {
                None => {
                    return None;
                },
                Some(q) => q,
            };
            Some(Proof::Dup { val: Box::new(w), bod: Box::new(b) })
        },
        Proof::Inc { val } => {
            match subs_at(val, v, dph) {
                None => None,
                Some(q) => Some(Proof::Inc { val: Box::new(q) }),
            }
        },
        Proof::Lvl { val } => {
            match subs_at(val, v, dph) {
                None => None,
                Some(q) => Some(Proof::Lvl { val: Box::new(q) }),
            }
        },
        Proof::Star => Some(Proof::Star),
    }
}

/// Substitutes `v` for the outermost bound variable of `p`; `None`
/// exactly when a shifted index would leave its word.
pub fn subs(p: &Proof, v: &Proof) -> (r: Option<Proof>)
    ensures
        (r is Some) == subs_ok(*p, *v, 0),
        r matches Some(q) ==> q == subs_spec(*p, *v, 0),
{
    subs_at(p, v, 0)
}

/// Reads a name: the bytes from `pos` up to the next space or newline.
fn parse_name(code: &[u8], pos: usize) -> (r: (usize, Vec<u8>))
    requires
        pos <= code@.len(),
    ensures
        pos <= r.0 <= code@.len(),
        r.0 as int == name_end(code@, pos as int),
        r.1@ == code@.subrange(pos as int, r.0 as int),
        pos < code@.len() && code@[pos as int] != 32 && code@[pos as int] != 10 ==> r.0 > pos,
        // the name holds no separator, and the scan stopped at one
        forall|k: int| pos <= k < r.0 ==> code@[k] != 32 && #[trigger] code@[k] != 10,
        r.0 < code@.len() ==> code@[r.0 as int] == 32 || code@[r.0 as int] == 10,
{
    let mut i: usize = pos;
    while i < code.len() && code[i] != 32 && code[i] != 10
        invariant
            pos <= i <= code@.len(),
            name_end(code@, pos as int) == name_end(code@, i as int),
            forall|k: int| pos <= k < i ==> code@[k] != 32 && #[trigger] code@[k] != 10,
        decreases code@.len() - i,
    {
        i = i + 1;
    }
    let mut name: Vec<u8> = Vec::new();
    let mut j: usize = pos;
    proof {
        assert(name@ =~= code@.subrange(pos as int, pos as int));
    }
    while j < i
        invariant
            pos <= j <= i <= code@.len(),
            name@ == code@.subrange(pos as int, j as int),
        decreases i - j,
    {
        name.push(code[j]);
        j = j + 1;
        proof {
            assert(name@ =~= code@.subrange(pos as int, j as int));
        }
    }
    (i, name)
}

/// The binding a name resolves to, scanning the innermost `i` entries of
/// the context outward with `idx` plain binders already passed: the
/// de Bruijn index counted, the definition found (if any), and whether
/// any entry matched. Definitions do not count toward the index.
pub open spec fn resolve(
    ctx: Seq<(Seq<u8>, Option<Proof>)>,
    name: Seq<u8>,
    i: int,
    idx: int,
) -> (int, Option<Proof>, bool)
    decreases i,
{
    if i <= 0 {
        (idx, None, false)
    } else {
        let e = ctx[i - 1];
        if e.0 == name {
            (idx, e.1, true)
        } else {
            resolve(
                ctx,
                name,
                i - 1,
                if e.1 is Some {
                    idx
                } else {
                    idx + 1
                },
            )
        }
    }
}

/// The context as the parser's specification sees it: names as byte
/// sequences.
pub open spec fn ctx_view(c: Seq<(Vec<u8>, Option<Proof>)>) -> Seq<(Seq<u8>, Option<Proof>)> {
    c.map_values(|e: (Vec<u8>, Option<Proof>)| (e.0@, e.1))
}

/// What the parser reads at `pos` under the open bindings `ctx`: the
/// position after the term and the term, or `None` where the source is
/// malformed. `.f x` and `:f x` are erased and kept applications, `^n t b`
/// and `#n t b` erased and kept abstractions, `&n t b` and `@n t b`
/// erased and kept function types, `$n v b` parses `b` with `n` defined
/// as `v` (copied in where used, counting for no index), `=n v b` a
/// duplication, `|v` and `!t` level raises, `*` the type of types, and a
/// bare name is the innermost binding it resolves to.
pub open spec fn parse_spec(code: Seq<u8>, pos: int, ctx: Seq<(Seq<u8>, Option<Proof>)>) -> Option<
    (int, Proof),
>
    decreases code.len() - pos,
{
    if pos < 0 || pos >= code.len() {
        None
    } else {
        let c = code[pos];
        if c == 32 || c == 10 {
            parse_spec(code, pos + 1, ctx)
        } else if c == 46 || c == 58 {
            match parse_spec(code, pos + 1, ctx) {
                Some(pf) => if pos + 1 < pf.0 && pf.0 <= code.len() {
                    match parse_spec(code, pf.0, ctx) {
                        Some(pa) => Some(
                            (
                                pa.0,
                                Proof::App {
                                    era: c == 46,
                                    fun: Box::new(pf.1),
                                    arg: Box::new(pa.1),
                                },
                            ),
                        ),
                        None => None,
                    }
                } else {
                    None
                },
                None => None,
            }
        } else if c == 94 || c == 35 || c == 38 || c == 64 {
            let p1 = name_end(code, pos + 1);
            let nam = code.subrange(pos + 1, p1);
            if pos < p1 && p1 <= code.len() {
                match parse_spec(code, p1, ctx) {
                    Some(pt) => if p1 < pt.0 && pt.0 <= code.len() {
                        match parse_spec(code, pt.0, ctx.push((nam, None))) {
                            Some(pb) => Some(
                                (
                                    pb.0,
                                    if c == 94 || c == 35 {
                                        Proof::Lam {
                                            era: c == 94,
                                            typ: Box::new(pt.1),
                                            bod: Box::new(pb.1),
                                        }
                                    } else {
                                        Proof::All {
                                            era: c == 38,
                                            typ: Box::new(pt.1),
                                            bod: Box::new(pb.1),
                                        }
                                    },
                                ),
                            ),
                            None => None,
                        }
                    } else {
                        None
                    },
                    None => None,
                }
            } else {
                None
            }
        } else if c == 36 {
            let p1 = name_end(code, pos + 1);
            let nam = code.subrange(pos + 1, p1);
            if pos < p1 && p1 <= code.len() {
                match parse_spec(code, p1, ctx) {
                    Some(pv) => if p1 < pv.0 && pv.0 <= code.len() {
                        parse_spec(code, pv.0, ctx.push((nam, Some(pv.1))))
                    } else {
                        None
                    },
                    None => None,
                }
            } else {
                None
            }
        } else if c == 61 {
            let p1 = name_end(code, pos + 1);
            let nam = code.subrange(pos + 1, p1);
            if pos < p1 && p1 <= code.len() {
                match parse_spec(code, p1, ctx) {
                    Some(pv) => if p1 < pv.0 && pv.0 <= code.len() {
                        match parse_spec(code, pv.0, ctx.push((nam, None))) {
                            Some(pb) => Some(
                                (
                                    pb.0,
                                    Proof::Dup { val: Box::new(pv.1), bod: Box::new(pb.1) },
                                ),
                            ),
                            None => None,
                        }
                    } else {
                        None
                    },
                    None => None,
                }
            } else {
                None
            }
        } else if c == 124 {
            match parse_spec(code, pos + 1, ctx) {
                Some(pv) => Some((pv.0, Proof::Inc { val: Box::new(pv.1) })),
                None => None,
            }
        } else if c == 33 {
            match parse_spec(code, pos + 1, ctx) {
                Some(pv) => Some((pv.0, Proof::Lvl { val: Box::new(pv.1) })),
                None => None,
            }
        } else if c == 42 {
            Some((pos + 1, Proof::Star))
        } else {
            let p1 = name_end(code, pos);
            let nam = code.subrange(pos, p1);
            let rv = resolve(ctx, nam, ctx.len() as int, 0);
            match rv.1 {
                Some(t) => Some((p1, t)),
                None => if rv.0 > 0xFFFF_FFFF {
                    None
                } else {
                    Some((p1, Proof::Var { idx: rv.0 as u32 }))
                },
            }
        }
    }
}

/// Scans the context innermost first for a binding of `name`: the
/// de Bruijn index counted over plain binders, and the definition found.
fn resolve_name(ctx: &Vec<(Vec<u8>, Option<Proof>)>, name: &Vec<u8>) -> (r: (
    usize,
    Option<Proof>,
))
    ensures
        ({
            let rv = resolve(ctx_view(ctx@), name@, ctx@.len() as int, 0);
            &&& r.0 as int == rv.0
            &&& (match r.1 {
                Some(t) => rv.1 matches Some(st) && st == t,
                None => rv.1 is None,
            })
        }),
        r.0 <= ctx@.len(),
{
    let mut i: usize = ctx.len();
    let mut idx: usize = 0;
    proof {
        assert(ctx_view(ctx@).len() == ctx@.len());
    }
    while i > 0
        invariant
            idx + i <= ctx@.len(),
            ctx@.len() <= usize::MAX,
            ctx_view(ctx@).len() == ctx@.len(),
            resolve(ctx_view(ctx@), name@, ctx@.len() as int, 0) == resolve(
                ctx_view(ctx@),
                name@,
                i as int,
                idx as int,
            ),
        decreases i,
    {
        i = i - 1;
        proof {
            assert(ctx_view(ctx@)[i as int] == (ctx@[i as int].0@, ctx@[i as int].1));
        }
        if names_equal(&ctx[i].0, name) {
            match &ctx[i].1 {
                Some(t) => {
                    return (idx, Some(clone_proof(t)));
                },
                None => {
                    return (idx, None);
                },
            }
        } else {
            match &ctx[i].1 {
                Some(_) => {},
                None => {
                    idx = idx + 1;
                },
            }
        }
    }
    (idx, None)
}

/// Byte-for-byte equality of two names.
fn names_equal(a: &Vec<u8>, b: &Vec<u8>) -> (r: bool)
    ensures
        r == (a@ == b@),
{
    if a.len() != b.len() {
        return false;
    }
    let mut k: usize = 0;
    while k < a.len()
        invariant
            k <= a@.len(),
            a@.len() == b@.len(),
            forall|m: int| 0 <= m < k ==> a@[m] == b@[m],
        decreases a@.len() - k,
    {
        if a[k] != b[k] {
            return false;
        }
        k = k + 1;
    }
    proof {
        assert(a@ =~= b@);
    }
    true
}

/// Parses one term starting at `pos` under the context `ctx` of open
/// (name, definition) bindings: exactly what `parse_spec` reads there, the
/// position after the term and the term, or `None` if the source is
/// malformed. The context is restored before returning.
pub fn parse_term(code: &[u8], pos: usize, ctx: &mut Vec<(Vec<u8>, Option<Proof>)>) -> (r: Option<
    (usize, Proof),
>)
    requires
        pos <= code@.len(),
    ensures
        final(ctx)@ == old(ctx)@,
        r matches Some(p) ==> pos < p.0 <= code@.len(),
        ({
            let ps = parse_spec(code@, pos as int, ctx_view(old(ctx)@));
            match r {
                Some(q) => ps matches Some(sq) && sq.0 == q.0 as int && sq.1 == q.1,
                None => ps is None,
            }
        }),
    decreases code@.len() - pos,
{
    if pos >= code.len() {
        return None;
    }
    let c = code[pos];
    if c == 32 || c == 10 {
        // whitespace
        parse_term(code, pos + 1, ctx)
    } else if c == 46 || c == 58 {
        // application: .fun arg erased, :fun arg kept
        match parse_term(code, pos + 1, ctx) {
            None => None,
            Some((p1, fun)) => match parse_term(code, p1, ctx) {
                None => None,
                Some((p2, arg)) => Some(
                    (p2, Proof::App { era: c == 46, fun: Box::new(fun), arg: Box::new(arg) }),
                ),
            },
        }
    } else if c == 94 || c == 35 {
        // abstraction: ^name type body erased, #name type body kept
        let (p1, nam) = parse_name(code, pos + 1);
        match parse_term(code, p1, ctx) {
            None => None,
            Some((p2, typ)) => {
                ctx.push((nam, None));
                proof {
                    assert(ctx_view(ctx@) =~= ctx_view(old(ctx)@).push(
                        (code@.subrange(pos + 1, p1 as int), None),
                    ));
                }
                match parse_term(code, p2, ctx) {
                    None => {
                        ctx.pop();
                        None
                    },
                    Some((p3, bod)) => {
                        ctx.pop();
                        Some(
                            (
                                p3,
                                Proof::Lam { era: c == 94, typ: Box::new(typ), bod: Box::new(bod) },
                            ),
                        )
                    },
                }
            },
        }
    } else if c == 38 || c == 64 {
        // function type: &name type body erased, @name type body kept
        let (p1, nam) = parse_name(code, pos + 1);
        match parse_term(code, p1, ctx) {
            None => None,
            Some((p2, typ)) => {
                ctx.push((nam, None));
                proof {
                    assert(ctx_view(ctx@) =~= ctx_view(old(ctx)@).push(
                        (code@.subrange(pos + 1, p1 as int), None),
                    ));
                }
                match parse_term(code, p2, ctx) {
                    None => {
                        ctx.pop();
                        None
                    },
                    Some((p3, bod)) => {
                        ctx.pop();
                        Some(
                            (
                                p3,
                                Proof::All { era: c == 38, typ: Box::new(typ), bod: Box::new(bod) },
                            ),
                        )
                    },
                }
            },
        }
    } else if c == 36 {
        // definition: $name value body
        let (p1, nam) = parse_name(code, pos + 1);
        match parse_term(code, p1, ctx) {
            None => None,
            Some((p2, val)) => {
                ctx.push((nam, Some(val)));
                proof {
                    let ps = parse_spec(code@, p1 as int, ctx_view(old(ctx)@));
                    assert(ctx_view(ctx@) =~= ctx_view(old(ctx)@).push(
                        (code@.subrange(pos + 1, p1 as int), Some(ps->Some_0.1)),
                    ));
                }
                match parse_term(code, p2, ctx) {
                    None => {
                        ctx.pop();
                        None
                    },
                    Some((p3, bod)) => {
                        ctx.pop();
                        Some((p3, bod))
                    },
                }
            },
        }
    } else if c == 61 {
        // duplication: =name value body
        let (p1, nam) = parse_name(code, pos + 1);
        match parse_term(code, p1, ctx) {
            None => None,
            Some((p2, val)) => {
                ctx.push((nam, None));
                proof {
                    assert(ctx_view(ctx@) =~= ctx_view(old(ctx)@).push(
                        (code@.subrange(pos + 1, p1 as int), None),
                    ));
                }
                match parse_term(code, p2, ctx) {
                    None => {
                        ctx.pop();
                        None
                    },
                    Some((p3, bod)) => {
                        ctx.pop();
                        Some((p3, Proof::Dup { val: Box::new(val), bod: Box::new(bod) }))
                    },
                }
            },
        }
    } else if c == 124 {
        // level raise of a value: |value
        match parse_term(code, pos + 1, ctx) {
            None => None,
            Some((p1, val)) => Some((p1, Proof::Inc { val: Box::new(val) })),
        }
    } else if c == 33 {
        // level raise of a type: !type
        match parse_term(code, pos + 1, ctx) {
            None => None,
            Some((p1, val)) => Some((p1, Proof::Lvl { val: Box::new(val) })),
        }
    } else if c == 42 {
        // the type of types: *
        Some((pos + 1, Proof::Star))
    } else {
        // a variable, counting open binders out to the one it names,
        // or a reference to a definition, which is copied in
        let (p1, nam) = parse_name(code, pos);
        let (idx, val) = resolve_name(ctx, &nam);
        match val {
            Some(t) => Some((p1, t)),
            None => {
                if idx > 0xFFFF_FFFF {
                    None
                } else {
                    Some((p1, Proof::Var { idx: idx as u32 }))
                }
            },
        }
    }
}

/// Parses source code into a term: exactly what `parse_spec` reads from
/// position 0 with no open bindings; `None` if it is malformed.
pub fn from_string(code: &[u8]) -> (r: Option<Proof>)
    ensures
        code@.len() == 0 ==> r is None,
        ({
            let ps = parse_spec(code@, 0, Seq::empty());
            match r {
                Some(t) => ps matches Some(q) && q.1 == t,
                None => ps is None,
            }
        }),
{
    let mut ctx: Vec<(Vec<u8>, Option<Proof>)> = Vec::new();
    proof {
        assert(ctx_view(ctx@) =~= Seq::<(Seq<u8>, Option<Proof>)>::empty());
    }
    match parse_term(code, 0, &mut ctx) {
        None => None,
        Some((_p, t)) => Some(t),
    }
}

/// The name printed for a binder index: `?` for index 0, else digits in
/// base 26 written `a` to `z`, least significant first.
pub open spec fn var_name_q_spec(idx: nat) -> Seq<u8> {
    if idx == 0 {
        seq![63u8]
    } else {
        crate::term::var_name_spec(idx)
    }
}

/// Builds a variable name from an index (0 = "?", 1 = "a", 27 = "aa", ...).
pub fn var_name(idx: u32) -> (r: Vec<u8>)
    ensures
        r@ == var_name_q_spec(idx as nat),
{
    if idx == 0 {
        let mut name: Vec<u8> = Vec::new();
        name.push(63);
        proof {
            assert(name@ =~= seq![63u8]);
        }
        name
    } else {
        crate::term::var_name(idx)
    }
}

/// Every variable refers to one of `n` enclosing binders.
pub open spec fn proof_scoped(p: Proof, n: nat) -> bool
    decreases p,
{
    match p {
        Proof::App { fun, arg, .. } => proof_scoped(*fun, n) && proof_scoped(*arg, n),
        Proof::Lam { typ, bod, .. } => proof_scoped(*typ, n) && proof_scoped(*bod, n + 1),
        Proof::All { typ, bod, .. } => proof_scoped(*typ, n) && proof_scoped(*bod, n + 1),
        Proof::Var { idx } => (idx as nat) < n,
        Proof::Dup { val, bod } => proof_scoped(*val, n) && proof_scoped(*bod, n + 1),
        Proof::Inc { val } => proof_scoped(*val, n),
        Proof::Lvl { val } => proof_scoped(*val, n),
        Proof::Star => true,
    }
}

/// Decides `proof_scoped(p, depth)`.
pub fn check_proof_scope(p: &Proof, depth: u64) -> (r: bool)
    requires
        depth + proof_size(*p) <= u64::MAX,
    ensures
        r == proof_scoped(*p, depth as nat),
    decreases *p,
{
    match p {
        Proof::App { fun, arg, .. } => {
            let f = check_proof_scope(fun, depth);
            f && check_proof_scope(arg, depth)
        },
        Proof::Lam { typ, bod, .. } => {
            let t = check_proof_scope(typ, depth);
            t && check_proof_scope(bod, depth + 1)
        },
        Proof::All { typ, bod, .. } => {
            let t = check_proof_scope(typ, depth);
            t && check_proof_scope(bod, depth + 1)
        },
        Proof::Var { idx } => (*idx as u64) < depth,
        Proof::Dup { val, bod } => {
            let v = check_proof_scope(val, depth);
            v && check_proof_scope(bod, depth + 1)
        },
        Proof::Inc { val } => check_proof_scope(val, depth),
        Proof::Lvl { val } => check_proof_scope(val, depth),
        Proof::Star => true,
    }
}

/// Size of a term, saturating at `u64::MAX`.
pub fn proof_size_capped(p: &Proof) -> (r: u64)
    ensures
        r <= proof_size(*p),
        r < u64::MAX ==> r == proof_size(*p),
    decreases *p,
{
    match p {
        Proof::App { fun, arg, .. } => {
            let a = proof_size_capped(fun);
            let b = proof_size_capped(arg);
            if a >= u64::MAX - 1 || b >= u64::MAX - 1 - a {
                u64::MAX
            } else {
                1 + a + b
            }
        },
        Proof::Lam { typ, bod, .. } => {
            let a = proof_size_capped(typ);
            let b = proof_size_capped(bod);
            if a >= u64::MAX - 1 || b >= u64::MAX - 1 - a {
                u64::MAX
            } else {
                1 + a + b
            }
        },
        Proof::All { typ, bod, .. } => {
            let a = proof_size_capped(typ);
            let b = proof_size_capped(bod);
            if a >= u64::MAX - 1 || b >= u64::MAX - 1 - a {
                u64::MAX
            } else {
                1 + a + b
            }
        },
        Proof::Var { .. } => 1,
        Proof::Dup { val, bod } => {
            let a = proof_size_capped(val);
            let b = proof_size_capped(bod);
            if a >= u64::MAX - 1 || b >= u64::MAX - 1 - a {
                u64::MAX
            } else {
                1 + a + b
            }
        },
        Proof::Inc { val } => {
            let a = proof_size_capped(val);
            if a == u64::MAX {
                u64::MAX
            } else {
                1 + a
            }
        },
        Proof::Lvl { val } => {
            let a = proof_size_capped(val);
            if a == u64::MAX {
                u64::MAX
            } else {
                1 + a
            }
        },
        Proof::Star => 1,
    }
}

/// The rendering of a term at nesting depth `dph`, in the same prefix
/// notation the parser reads, with binders named after their depth.
pub open spec fn proof_print_spec(p: Proof, dph: nat) -> Seq<u8>
    decreases p,
{
    match p {
        Proof::App { era, fun, arg } => seq![if era { 46u8 } else { 58u8 }] + proof_print_spec(
            *fun,
            dph,
        ) + seq![32u8] + proof_print_spec(*arg, dph),
        Proof::Lam { era, typ, bod } => seq![if era { 94u8 } else { 35u8 }] + var_name_q_spec(
            dph + 1,
        ) + seq![32u8] + proof_print_spec(*typ, dph) + seq![32u8] + proof_print_spec(*bod, dph + 1),
        Proof::All { era, typ, bod } => seq![if era { 38u8 } else { 64u8 }] + var_name_q_spec(
            dph + 1,
        ) + seq![32u8] + proof_print_spec(*typ, dph) + seq![32u8] + proof_print_spec(*bod, dph + 1),
        Proof::Var { idx } => var_name_q_spec((dph - idx) as nat),
        Proof::Dup { val, bod } => seq![61u8] + var_name_q_spec(dph + 1) + seq![32u8]
            + proof_print_spec(*val, dph) + seq![32u8] + proof_print_spec(*bod, dph + 1),
        Proof::Inc { val } => seq![124u8] + proof_print_spec(*val, dph),
        Proof::Lvl { val } => seq![33u8] + proof_print_spec(*val, dph),
        Proof::Star => seq![42u8],
    }
}

/// Appends the rendering of `p` at depth `dph` to `code`.
fn write_proof(code: &mut Vec<u8>, p: &Proof, dph: u32)
    requires
        proof_scoped(*p, dph as nat),
        dph + proof_size(*p) <= u32::MAX,
    ensures
        final(code)@ == old(code)@ + proof_print_spec(*p, dph as nat),
    decreases *p,
{
    match p {
        Proof::App { era, fun, arg } => {
            code.push(if *era {
                46
            } else {
                58
            });
            write_proof(code, fun, dph);
            code.push(32);
            write_proof(code, arg, dph);
            proof {
                assert(code@ =~= old(code)@ + proof_print_spec(*p, dph as nat));
            }
        },
        Proof::Lam { era, typ, bod } => {
            code.push(if *era {
                94
            } else {
                35
            });
            let mut name = var_name(dph + 1);
            code.append(&mut name);
            code.push(32);
            write_proof(code, typ, dph);
            code.push(32);
            write_proof(code, bod, dph + 1);
            proof {
                assert(code@ =~= old(code)@ + proof_print_spec(*p, dph as nat));
            }
        },
        Proof::All { era, typ, bod } => {
            code.push(if *era {
                38
            } else {
                64
            });
            let mut name = var_name(dph + 1);
            code.append(&mut name);
            code.push(32);
            write_proof(code, typ, dph);
            code.push(32);
            write_proof(code, bod, dph + 1);
            proof {
                assert(code@ =~= old(code)@ + proof_print_spec(*p, dph as nat));
            }
        },
        Proof::Var { idx } => {
            let mut name = var_name(dph - *idx);
            code.append(&mut name);
        },
        Proof::Dup { val, bod } => {
            code.push(61);
            let mut name = var_name(dph + 1);
            code.append(&mut name);
            code.push(32);
            write_proof(code, val, dph);
            code.push(32);
            write_proof(code, bod, dph + 1);
            proof {
                assert(code@ =~= old(code)@ + proof_print_spec(*p, dph as nat));
            }
        },
        Proof::Inc { val } => {
            code.push(124);
            write_proof(code, val, dph);
            proof {
                assert(code@ =~= old(code)@ + proof_print_spec(*p, dph as nat));
            }
        },
        Proof::Lvl { val } => {
            code.push(33);
            write_proof(code, val, dph);
            proof {
                assert(code@ =~= old(code)@ + proof_print_spec(*p, dph as nat));
            }
        },
        Proof::Star => {
            code.push(42);
            proof {
                assert(code@ =~= old(code)@ + proof_print_spec(*p, dph as nat));
            }
        },
    }
}

/// Renders a closed term as source code.
pub fn to_string(p: &Proof) -> (r: Vec<u8>)
    requires
        proof_scoped(*p, 0),
        proof_size(*p) <= u32::MAX,
    ensures
        r@ == proof_print_spec(*p, 0),
{
    let mut code: Vec<u8> = Vec::new();
    write_proof(&mut code, p, 0);
    proof {
        assert(Seq::<u8>::empty() + proof_print_spec(*p, 0) =~= proof_print_spec(*p, 0));
    }
    code
}

/// No rewriting rule applies anywhere in the term: no abstraction or
/// duplication in function position, and no boxed value or duplication
/// as a duplicated value.
pub open spec fn redex_free(p: Proof) -> bool
    decreases p,
{
    match p {
        Proof::App { fun, arg, .. } => redex_free(*fun) && redex_free(*arg) && !((*fun) is Lam)
            && !((*fun) is Dup),
        Proof::Lam { typ, bod, .. } => redex_free(*typ) && redex_free(*bod),
        Proof::All { typ, bod, .. } => redex_free(*typ) && redex_free(*bod),
        Proof::Var { .. } => true,
        Proof::Dup { val, bod } => redex_free(*val) && redex_free(*bod) && !((*val) is Inc) && !(
        (*val) is Dup),
        Proof::Inc { val } => redex_free(*val),
        Proof::Lvl { val } => redex_free(*val),
        Proof::Star => true,
    }
}

/// What the normalizer computes from a term with the given fuel, step for
/// step: leftmost reduction of beta redexes, substitution of boxed
/// duplicated values, and floating of duplication bindings out of
/// applications and other duplications, then normalization of the parts.
pub open spec fn reduce_spec(p: Proof, fuel: nat) -> Option<Proof>
    decreases fuel,
{
    if fuel == 0 {
        None
    } else {
        match p {
            Proof::App { era, fun, arg } => match reduce_spec(*fun, (fuel - 1) as nat) {
                None => None,
                Some(f) => match f {
                    Proof::Lam { era: le, typ: lt, bod } => {
                        if subs_ok(*bod, *arg, 0) {
                            reduce_spec(subs_spec(*bod, *arg, 0), (fuel - 1) as nat)
                        } else {
                            None
                        }
                    },
                    Proof::Dup { val, bod } => {
                        match reduce_spec(
                            Proof::App { era, fun: bod, arg },
                            (fuel - 1) as nat,
                        ) {
                            Some(nb) => Some(Proof::Dup { val, bod: Box::new(nb) }),
                            None => None,
                        }
                    },
                    other => match reduce_spec(*arg, (fuel - 1) as nat) {
                        Some(a) => Some(
                            Proof::App { era, fun: Box::new(other), arg: Box::new(a) },
                        ),
                        None => None,
                    },
                },
            },
            Proof::Lam { era, typ, bod } => match reduce_spec(*typ, (fuel - 1) as nat) {
                Some(t) => match reduce_spec(*bod, (fuel - 1) as nat) {
                    Some(b) => Some(Proof::Lam { era, typ: Box::new(t), bod: Box::new(b) }),
                    None => None,
                },
                None => None,
            },
            Proof::All { era, typ, bod } => match reduce_spec(*typ, (fuel - 1) as nat) {
                Some(t) => match reduce_spec(*bod, (fuel - 1) as nat) {
                    Some(b) => Some(Proof::All { era, typ: Box::new(t), bod: Box::new(b) }),
                    None => None,
                },
                None => None,
            },
            Proof::Var { idx } => Some(Proof::Var { idx }),
            Proof::Dup { val, bod } => match reduce_spec(*val, (fuel - 1) as nat) {
                None => None,
                Some(v) => match v {
                    Proof::Inc { val: iv } => {
                        if subs_ok(*bod, *iv, 0) {
                            reduce_spec(subs_spec(*bod, *iv, 0), (fuel - 1) as nat)
                        } else {
                            None
                        }
                    },
                    Proof::Dup { val: vv, bod: vb } => {
                        match reduce_spec(
                            Proof::Dup { val: vb, bod },
                            (fuel - 1) as nat,
                        ) {
                            Some(nb) => Some(Proof::Dup { val: vv, bod: Box::new(nb) }),
                            None => None,
                        }
                    },
                    other => match reduce_spec(*bod, (fuel - 1) as nat) {
                        Some(b) => Some(
                            Proof::Dup { val: Box::new(other), bod: Box::new(b) },
                        ),
                        None => None,
                    },
                },
            },
            Proof::Inc { val } => match reduce_spec(*val, (fuel - 1) as nat) {
                Some(q) => Some(Proof::Inc { val: Box::new(q) }),
                None => None,
            },
            Proof::Lvl { val } => match reduce_spec(*val, (fuel - 1) as nat) {
                Some(q) => Some(Proof::Lvl { val: Box::new(q) }),
                None => None,
            },
            Proof::Star => Some(Proof::Star),
        }
    }
}

/// Normalizes a term by repeated beta reduction and duplication
/// rewriting, spending one unit of fuel per recursive step; `None` when
/// the fuel runs out or an index would leave its word. A diverging term
/// exhausts any fuel. Whatever comes back holds no redex, and a term
/// already in normal form comes back unchanged.
pub fn reduce(p: &Proof, fuel: u64) -> (r: Option<Proof>)
    ensures
        r == reduce_spec(*p, fuel as nat),
        fuel == 0 ==> r is None,
        r matches Some(q) ==> redex_free(q),
        redex_free(*p) ==> (r matches Some(q) ==> q == *p),
        redex_free(*p) && fuel >= proof_size(*p) ==> r is Some,
    decreases fuel,
{
    if fuel == 0 {
        return None;
    }
    match p {
        Proof::App { era, fun, arg } => {
            let f = match reduce(fun, fuel - 1) {
                None => {
                    return None;
                },
                Some(q) => q,
            };
            match f {
                Proof::Lam { era: _era, typ: _typ, bod } => {
                    // beta: substitute the argument into the body
                    let nb = match subs(&bod, arg) {
                        None => {
                            return None;
                        },
                        Some(q) => q,
                    };
                    reduce(&nb, fuel - 1)
                },
                Proof::Dup { val, bod } => {
                    // float the duplication out of the application
                    let inner = Proof::App {
                        era: *era,
                        fun: bod,
                        arg: Box::new(clone_proof(arg)),
                    };
                    let nb = match reduce(&inner, fuel - 1) {
                        None => {
                            return None;
                        },
                        Some(q) => q,
                    };
                    Some(Proof::Dup { val, bod: Box::new(nb) })
                },
                other => {
                    let a = match reduce(arg, fuel - 1) {
                        None => {
                            return None;
                        },
                        Some(q) => q,
                    };
                    Some(Proof::App { era: *era, fun: Box::new(other), arg: Box::new(a) })
                },
            }
        },
        Proof::Lam { era, typ, bod } => {
            let t = match reduce(typ, fuel - 1) {
                None => {
                    return None;
                },
                Some(q) => q,
            };
            let b = match reduce(bod, fuel - 1) {
                None => {
                    return None;
                },
                Some(q) => q,
            };
            Some(Proof::Lam { era: *era, typ: Box::new(t), bod: Box::new(b) })
        },
        Proof::All { era, typ, bod } => {
            let t = match reduce(typ, fuel - 1) {
                None => {
                    return None;
                },
                Some(q) => q,
            };
            let b = match reduce(bod, fuel - 1) {
                None => {
                    return None;
                },
                Some(q) => q,
            };
            Some(Proof::All { era: *era, typ: Box::new(t), bod: Box::new(b) })
        },
        Proof::Var { idx } => Some(Proof::Var { idx: *idx }),
        Proof::Dup { val, bod } => {
            let v = match reduce(val, fuel - 1) {
                None => {
                    return None;
                },
                Some(q) => q,
            };
            match v {
                Proof::Inc { val: iv } => {
                    // the duplicated value is boxed: substitute it
                    let nb = match subs(bod, &iv) {
                        None => {
                            return None;
                        },
                        Some(q) => q,
                    };
                    reduce(&nb, fuel - 1)
                },
                Proof::Dup { val: vv, bod: vb } => {
                    // float the inner duplication out
                    let inner = Proof::Dup { val: vb, bod: Box::new(clone_proof(bod)) };
                    let nb = match reduce(&inner, fuel - 1) {
                        None => {
                            return None;
                        },
                        Some(q) => q,
                    };
                    Some(Proof::Dup { val: vv, bod: Box::new(nb) })
                },
                other => {
                    let b = match reduce(bod, fuel - 1) {
                        None => {
                            return None;
                        },
                        Some(q) => q,
                    };
                    Some(Proof::Dup { val: Box::new(other), bod: Box::new(b) })
                },
            }
        },
        Proof::Inc { val } => {
            match reduce(val, fuel - 1) {
                None => None,
                Some(q) => Some(Proof::Inc { val: Box::new(q) }),
            }
        },
        Proof::Lvl { val } => {
            match reduce(val, fuel - 1) {
                None => None,
                Some(q) => Some(Proof::Lvl { val: Box::new(q) }),
            }
        },
        Proof::Star => Some(Proof::Star),
    }
}

/// One walk of the stratification check: from the level and the stack of
/// open bindings (kind, used yet, level opened at), whether the term
/// respects every binding's discipline, and the stack afterwards, with
/// the use marks the walk made. A variable out of range, an affine
/// binding used twice or below its level, or a duplication binding used
/// anywhere but one level down fails; erased bindings are free.
pub open spec fn strat_spec(p: Proof, lvl: int, ctx: Seq<(VarType, bool, u32)>) -> (
    bool,
    Seq<(VarType, bool, u32)>,
)
    decreases p,
{
    match p {
        Proof::App { fun, arg, .. } => {
            let (f, c1) = strat_spec(*fun, lvl, ctx);
            let (a, c2) = strat_spec(*arg, lvl, c1);
            (f && a, c2)
        },
        Proof::Lam { era, typ, bod } => {
            let (t, c1) = strat_spec(*typ, lvl, ctx);
            let vt = if era {
                VarType::Polymorphic
            } else {
                VarType::Affine
            };
            let (b, c2) = strat_spec(*bod, lvl, c1.push((vt, false, lvl as u32)));
            (t && b, c2.drop_last())
        },
        Proof::All { era, typ, bod } => {
            let (t, c1) = strat_spec(*typ, lvl, ctx);
            let vt = if era {
                VarType::Polymorphic
            } else {
                VarType::Affine
            };
            let (b, c2) = strat_spec(*bod, lvl, c1.push((vt, false, lvl as u32)));
            (t && b, c2.drop_last())
        },
        Proof::Var { idx } => {
            if idx as int >= ctx.len() {
                (false, ctx)
            } else {
                let pos = ctx.len() - 1 - idx as int;
                let (vt, used, vlvl) = ctx[pos];
                match vt {
                    VarType::Affine => {
                        if used || lvl > vlvl as int {
                            (false, ctx)
                        } else {
                            (true, ctx.update(pos, (VarType::Affine, true, vlvl)))
                        }
                    },
                    VarType::Exponential => {
                        if lvl != vlvl as int + 1 {
                            (false, ctx)
                        } else {
                            (true, ctx.update(pos, (VarType::Exponential, true, vlvl)))
                        }
                    },
                    VarType::Polymorphic => (
                        true,
                        ctx.update(pos, (VarType::Polymorphic, true, vlvl)),
                    ),
                }
            }
        },
        Proof::Dup { val, bod } => {
            let (v, c1) = strat_spec(*val, lvl, ctx);
            let (b, c2) = strat_spec(*bod, lvl, c1.push((VarType::Exponential, false, lvl as u32)));
            (v && b, c2.drop_last())
        },
        Proof::Inc { val } => {
            if lvl >= u32::MAX {
                (false, ctx)
            } else {
                strat_spec(*val, lvl + 1, ctx)
            }
        },
        Proof::Lvl { val } => strat_spec(*val, lvl, ctx),
        Proof::Star => (true, ctx),
    }
}

/// The stratification walk opens and closes bindings in pairs: the stack
/// it returns has the length it was given.
proof fn lemma_strat_len(p: Proof, lvl: int, ctx: Seq<(VarType, bool, u32)>)
    ensures
        strat_spec(p, lvl, ctx).1.len() == ctx.len(),
    decreases p,
{
    match p {
        Proof::App { fun, arg, .. } => {
            lemma_strat_len(*fun, lvl, ctx);
            lemma_strat_len(*arg, lvl, strat_spec(*fun, lvl, ctx).1);
        },
        Proof::Lam { era, typ, bod } => {
            lemma_strat_len(*typ, lvl, ctx);
            let c1 = strat_spec(*typ, lvl, ctx).1;
            let vt = if era {
                VarType::Polymorphic
            } else {
                VarType::Affine
            };
            lemma_strat_len(*bod, lvl, c1.push((vt, false, lvl as u32)));
        },
        Proof::All { era, typ, bod } => {
            lemma_strat_len(*typ, lvl, ctx);
            let c1 = strat_spec(*typ, lvl, ctx).1;
            let vt = if era {
                VarType::Polymorphic
            } else {
                VarType::Affine
            };
            lemma_strat_len(*bod, lvl, c1.push((vt, false, lvl as u32)));
        },
        Proof::Dup { val, bod } => {
            lemma_strat_len(*val, lvl, ctx);
            let c1 = strat_spec(*val, lvl, ctx).1;
            lemma_strat_len(*bod, lvl, c1.push((VarType::Exponential, false, lvl as u32)));
        },
        Proof::Inc { val } => {
            if lvl < u32::MAX {
                lemma_strat_len(*val, lvl + 1, ctx);
            }
        },
        Proof::Lvl { val } => {
            lemma_strat_len(*val, lvl, ctx);
        },
        _ => {},
    }
}

/// Walks the term checking each binding's usage discipline, with the
/// context holding each open binding's kind, whether it was used, and
/// the level it was opened at.
fn check_strat(p: &Proof, lvl: u32, ctx: &mut Vec<(VarType, bool, u32)>) -> (r: bool)
    ensures
        r == strat_spec(*p, lvl as int, old(ctx)@).0,
        final(ctx)@ == strat_spec(*p, lvl as int, old(ctx)@).1,
    decreases *p,
{
    match p {
        Proof::App { fun, arg, .. } => {
            let f = check_strat(fun, lvl, ctx);
            let a = check_strat(arg, lvl, ctx);
            proof {
                let (fs, c1) = strat_spec(**fun, lvl as int, old(ctx)@);
                let (as_, c2) = strat_spec(**arg, lvl as int, c1);
                assert(ctx@ == c2);
                assert(strat_spec(*p, lvl as int, old(ctx)@).1 == c2);
            }
            f && a
        },
        Proof::Lam { era, typ, bod } => {
            let t = check_strat(typ, lvl, ctx);
            ctx.push(
                (
                    if *era {
                        VarType::Polymorphic
                    } else {
                        VarType::Affine
                    },
                    false,
                    lvl,
                ),
            );
            let b = check_strat(bod, lvl, ctx);
            ctx.pop();
            proof {
                let (ts, c1) = strat_spec(**typ, lvl as int, old(ctx)@);
                let vt = if *era {
                    VarType::Polymorphic
                } else {
                    VarType::Affine
                };
                let (bs, c2) = strat_spec(**bod, lvl as int, c1.push((vt, false, lvl)));
                lemma_strat_len(**bod, lvl as int, c1.push((vt, false, lvl)));
                assert(ctx@ == c2.drop_last());
                assert(strat_spec(*p, lvl as int, old(ctx)@).1 == c2.drop_last());
            }
            t && b
        },
        Proof::All { era, typ, bod } => {
            let t = check_strat(typ, lvl, ctx);
            ctx.push(
                (
                    if *era {
                        VarType::Polymorphic
                    } else {
                        VarType::Affine
                    },
                    false,
                    lvl,
                ),
            );
            let b = check_strat(bod, lvl, ctx);
            ctx.pop();
            proof {
                let (ts, c1) = strat_spec(**typ, lvl as int, old(ctx)@);
                let vt = if *era {
                    VarType::Polymorphic
                } else {
                    VarType::Affine
                };
                let (bs, c2) = strat_spec(**bod, lvl as int, c1.push((vt, false, lvl)));
                lemma_strat_len(**bod, lvl as int, c1.push((vt, false, lvl)));
                assert(ctx@ == c2.drop_last());
                assert(strat_spec(*p, lvl as int, old(ctx)@).1 == c2.drop_last());
            }
            t && b
        },
        Proof::Var { idx } => {
            if (*idx as usize) >= ctx.len() {
                return false;
            }
            let pos = ctx.len() - 1 - (*idx as usize);
            let used = ctx[pos].1;
            let vlvl = ctx[pos].2;
            match &ctx[pos].0 {
                VarType::Affine => {
                    // an affine binding: used at most once, at its own level
                    if used || lvl > vlvl {
                        return false;
                    }
                    ctx.set(pos, (VarType::Affine, true, vlvl));
                },
                VarType::Exponential => {
                    // an exponential binding: used exactly one level down
                    if (lvl as u64) != (vlvl as u64) + 1 {
                        return false;
                    }
                    ctx.set(pos, (VarType::Exponential, true, vlvl));
                },
                VarType::Polymorphic => {
                    ctx.set(pos, (VarType::Polymorphic, true, vlvl));
                },
            }
            true
        },
        Proof::Dup { val, bod } => {
            let v = check_strat(val, lvl, ctx);
            ctx.push((VarType::Exponential, false, lvl));
            let b = check_strat(bod, lvl, ctx);
            ctx.pop();
            proof {
                let (vs, c1) = strat_spec(**val, lvl as int, old(ctx)@);
                let (bs, c2) = strat_spec(
                    **bod,
                    lvl as int,
                    c1.push((VarType::Exponential, false, lvl)),
                );
                lemma_strat_len(**bod, lvl as int, c1.push((VarType::Exponential, false, lvl)));
                assert(ctx@ == c2.drop_last());
                assert(strat_spec(*p, lvl as int, old(ctx)@).1 == c2.drop_last());
            }
            v && b
        },
        Proof::Inc { val } => {
            if lvl == u32::MAX {
                return false;
            }
            check_strat(val, lvl + 1, ctx)
        },
        Proof::Lvl { val } => check_strat(val, lvl, ctx),
        Proof::Star => true,
    }
}

/// Whether every binding of `p` respects the usage discipline of its
/// kind: affine bindings used at most once at their own level,
/// duplication bindings exactly one level down, erased bindings freely —
/// exactly what `strat_spec` says of a walk from level 0 with no open
/// bindings.
pub fn is_stratified(p: &Proof) -> (r: bool)
    ensures
        r == strat_spec(*p, 0, Seq::empty()).0,
{
    let mut ctx: Vec<(VarType, bool, u32)> = Vec::new();
    proof {
        assert(ctx@ =~= Seq::<(VarType, bool, u32)>::empty());
    }
    check_strat(p, 0, &mut ctx)
}

/// The context that entering a binder's body demands: `t` appended and
/// every entry's free variables shifted up by one; `None` where a shift
/// overflows.
pub open spec fn extend_ctx_spec(ctx: Seq<Proof>, t: Proof) -> Option<Seq<Proof>> {
    if (forall|j: int| 0 <= j < ctx.len() ==> shift_ok(#[trigger] ctx[j], 1, 0)) && shift_ok(
        t,
        1,
        0,
    ) {
        Some(ctx.map_values(|e: Proof| shift_spec(e, 1, 0)).push(shift_spec(t, 1, 0)))
    } else {
        None
    }
}

/// What type inference computes from a term, the types of its open
/// binders, and the given fuel, step for step: an application's function
/// must have a dependent function type whose domain equals the argument's
/// type, and yields that type's body with the normalized argument
/// substituted in; an abstraction's type is the function type over its
/// normalized domain; a function type itself, the type of types, and
/// levels follow the level rules; a duplication requires a boxed value.
/// Entering a binder shifts the whole context, and leaving it drops only
/// the binder, exactly as the walk does. Returns the inferred type and
/// the context as the walk leaves it.
pub open spec fn infer_spec(p: Proof, ctx: Seq<Proof>, fuel: nat) -> Option<(Proof, Seq<Proof>)>
    decreases fuel,
{
    if fuel == 0 {
        None
    } else {
        match p {
            Proof::App { era, fun, arg } => match infer_spec(*fun, ctx, (fuel - 1) as nat) {
                None => None,
                Some(ft) => match infer_spec(*arg, ft.1, (fuel - 1) as nat) {
                    None => None,
                    Some(at) => match reduce_spec(*arg, (fuel - 1) as nat) {
                        None => None,
                        Some(arg_n) => match ft.0 {
                            Proof::All { era: ae, typ, bod } => {
                                if !equals_spec(at.0, *typ) {
                                    None
                                } else if subs_ok(*bod, arg_n, 0) {
                                    Some((subs_spec(*bod, arg_n, 0), at.1))
                                } else {
                                    None
                                }
                            },
                            _ => None,
                        },
                    },
                },
            },
            Proof::Lam { era, typ, bod } => match reduce_spec(*typ, (fuel - 1) as nat) {
                None => None,
                Some(typ_n) => match extend_ctx_spec(ctx, typ_n) {
                    None => None,
                    Some(c2) => match infer_spec(*bod, c2, (fuel - 1) as nat) {
                        None => None,
                        Some(bt) => Some(
                            (
                                Proof::All { era, typ: Box::new(typ_n), bod: Box::new(bt.0) },
                                bt.1.drop_last(),
                            ),
                        ),
                    },
                },
            },
            Proof::All { era, typ, bod } => match reduce_spec(*typ, (fuel - 1) as nat) {
                None => None,
                Some(typ_n) => match extend_ctx_spec(ctx, typ_n) {
                    None => None,
                    Some(c2) => Some((Proof::Star, c2.drop_last())),
                },
            },
            Proof::Var { idx } => {
                if (idx as int) < ctx.len() {
                    Some((ctx[ctx.len() - 1 - idx as int], ctx))
                } else {
                    None
                }
            },
            Proof::Dup { val, bod } => match infer_spec(*val, ctx, (fuel - 1) as nat) {
                None => None,
                Some(vt) => match reduce_spec(*val, (fuel - 1) as nat) {
                    None => None,
                    Some(val_n) => match vt.0 {
                        Proof::Lvl { val: inner } => match extend_ctx_spec(vt.1, *inner) {
                            None => None,
                            Some(c2) => match infer_spec(*bod, c2, (fuel - 1) as nat) {
                                None => None,
                                Some(bt) => {
                                    if subs_ok(bt.0, val_n, 0) {
                                        Some((subs_spec(bt.0, val_n, 0), bt.1.drop_last()))
                                    } else {
                                        None
                                    }
                                },
                            },
                        },
                        _ => None,
                    },
                },
            },
            Proof::Inc { val } => match infer_spec(*val, ctx, (fuel - 1) as nat) {
                None => None,
                Some(t) => Some((Proof::Lvl { val: Box::new(t.0) }, t.1)),
            },
            Proof::Lvl { val } => match infer_spec(*val, ctx, (fuel - 1) as nat) {
                None => None,
                Some(t) => match t.0 {
                    Proof::Star => Some((Proof::Star, t.1)),
                    _ => None,
                },
            },
            Proof::Star => Some((Proof::Star, ctx)),
        }
    }
}

/// Replaces the context by one with `t` appended and every entry's free
/// variables shifted up by one, as entering a binder's body demands;
/// `false` (leaving the context unchanged) when a shift overflows.
fn extend_ctx(ctx: &mut Vec<Proof>, t: Proof) -> (r: bool)
    ensures
        ({
            let es = extend_ctx_spec(old(ctx)@, t);
            match es {
                Some(cs) => r && final(ctx)@ == cs,
                None => !r && final(ctx)@ == old(ctx)@,
            }
        }),
        r ==> final(ctx)@.len() == old(ctx)@.len() + 1,
        !r ==> final(ctx)@.len() == old(ctx)@.len(),
{
    let mut shifted: Vec<Proof> = Vec::new();
    let mut i: usize = 0;
    while i < ctx.len()
        invariant
            i <= ctx@.len(),
            ctx@ == old(ctx)@,
            shifted@.len() == i,
            forall|j: int| 0 <= j < i ==> shift_ok(#[trigger] ctx@[j], 1, 0),
            shifted@ == ctx@.subrange(0, i as int).map_values(|e: Proof| shift_spec(e, 1, 0)),
        decreases ctx@.len() - i,
    {
        match shift(&ctx[i], 1, 0) {
            None => {
                return false;
            },
            Some(q) => {
                shifted.push(q);
            },
        }
        i = i + 1;
        proof {
            assert(ctx@.subrange(0, i as int) =~= ctx@.subrange(0, i - 1).push(ctx@[i - 1]));
            assert(shifted@ =~= ctx@.subrange(0, i as int).map_values(
                |e: Proof| shift_spec(e, 1, 0),
            ));
        }
    }
    proof {
        assert(ctx@.subrange(0, ctx@.len() as int) =~= ctx@);
    }
    match shift(&t, 1, 0) {
        None => {
            return false;
        },
        Some(q) => {
            shifted.push(q);
        },
    }
    proof {
        assert(shifted@ =~= ctx@.map_values(|e: Proof| shift_spec(e, 1, 0)).push(
            shift_spec(t, 1, 0),
        ));
    }
    *ctx = shifted;
    true
}

/// Infers the type of `p` under the context of the types of its open
/// binders, spending one unit of fuel per recursive step; `None` when
/// the term is ill-typed, the fuel runs out, or an index would leave its
/// word.
fn infer_at(p: &Proof, ctx: &mut Vec<Proof>, fuel: u64) -> (r: Option<Proof>)
    ensures
        final(ctx)@.len() == old(ctx)@.len(),
        fuel == 0 ==> r is None,
        ({
            let walk = infer_spec(*p, old(ctx)@, fuel as nat);
            match r {
                Some(t) => walk matches Some(q) && q.0 == t && final(ctx)@ == q.1,
                None => walk is None,
            }
        }),
    decreases fuel,
{
    if fuel == 0 {
        return None;
    }
    match p {
        Proof::App { era: _era, fun, arg } => {
            let fun_t = match infer_at(fun, ctx, fuel - 1) {
                None => {
                    return None;
                },
                Some(q) => q,
            };
            let arg_t = match infer_at(arg, ctx, fuel - 1) {
                None => {
                    return None;
                },
                Some(q) => q,
            };
            let arg_n = match reduce(arg, fuel - 1) {
                None => {
                    return None;
                },
                Some(q) => q,
            };
            match fun_t {
                Proof::All { era: _e, typ, bod } => {
                    // the argument's type must match the domain
                    if !equals(&arg_t, &typ) {
                        return None;
                    }
                    subs(&bod, &arg_n)
                },
                _ => None,
            }
        },
        Proof::Lam { era, typ, bod } => {
            let typ_n = match reduce(typ, fuel - 1) {
                None => {
                    return None;
                },
                Some(q) => q,
            };
            let kept = clone_proof(&typ_n);
            if !extend_ctx(ctx, typ_n) {
                return None;
            }
            let bod_t = infer_at(bod, ctx, fuel - 1);
            ctx.pop();
            match bod_t {
                None => None,
                Some(b) => Some(
                    Proof::All { era: *era, typ: Box::new(kept), bod: Box::new(b) },
                ),
            }
        },
        Proof::All { era: _era, typ, bod: _bod } => {
            let typ_n = match reduce(typ, fuel - 1) {
                None => {
                    return None;
                },
                Some(q) => q,
            };
            if !extend_ctx(ctx, typ_n) {
                return None;
            }
            ctx.pop();
            Some(Proof::Star)
        },
        Proof::Var { idx } => {
            if (*idx as usize) >= ctx.len() {
                return None;
            }
            let pos = ctx.len() - 1 - (*idx as usize);
            Some(clone_proof(&ctx[pos]))
        },
        Proof::Dup { val, bod } => {
            let val_t = match infer_at(val, ctx, fuel - 1) {
                None => {
                    return None;
                },
                Some(q) => q,
            };
            let val_n = match reduce(val, fuel - 1) {
                None => {
                    return None;
                },
                Some(q) => q,
            };
            match val_t {
                Proof::Lvl { val: vt } => {
                    if !extend_ctx(ctx, *vt) {
                        return None;
                    }
                    let bod_t = infer_at(bod, ctx, fuel - 1);
                    ctx.pop();
                    match bod_t {
                        None => None,
                        Some(bt) => subs(&bt, &val_n),
                    }
                },
                _ => None,
            }
        },
        Proof::Inc { val } => {
            match infer_at(val, ctx, fuel - 1) {
                None => None,
                Some(t) => Some(Proof::Lvl { val: Box::new(t) }),
            }
        },
        Proof::Lvl { val } => {
            match infer_at(val, ctx, fuel - 1) {
                None => None,
                Some(t) => match t {
                    Proof::Star => Some(Proof::Star),
                    _ => None,
                },
            }
        },
        Proof::Star => Some(Proof::Star),
    }
}

/// Infers the type of a closed term, with the given fuel for
/// normalization: exactly the type `infer_spec` computes under no open
/// binders; `None` when the term is ill-typed or the fuel runs out.
pub fn infer(p: &Proof, fuel: u64) -> (r: Option<Proof>)
    ensures
        fuel == 0 ==> r is None,
        ({
            let walk = infer_spec(*p, Seq::empty(), fuel as nat);
            match r {
                Some(t) => walk matches Some(q) && q.0 == t,
                None => walk is None,
            }
        }),
{
    let mut ctx: Vec<Proof> = Vec::new();
    proof {
        assert(ctx@ =~= Seq::<Proof>::empty());
    }
    infer_at(p, &mut ctx, fuel)
}

/// The body of an abstraction.
pub fn bod(p: &Proof) -> (r: &Proof)
    requires
        p is Lam,
    ensures
        *p matches Proof::Lam { era: _e, typ: _t, bod: b } && *r == *b,
{
    match p {
        Proof::Lam { era: _era, typ: _typ, bod } => bod,
        _ => {
            proof {
                assert(false);
            }
            p
        },
    }
}

} // verus!
