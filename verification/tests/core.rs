use absal::codec::{from_net, to_net, wires_symmetric};
use absal::net::{self, is_normal, Net};
use absal::term::{clone_term, from_string, to_string, Term};

fn app(f: Term, a: Term) -> Term {
    Term::App {
        fun: Box::new(f),
        arg: Box::new(a),
    }
}

fn lam(b: Term) -> Term {
    Term::Lam { bod: Box::new(b) }
}

fn var(i: u32) -> Term {
    Term::Var { idx: i }
}

/// The Church numeral n: #f #x f (f ... (f x)).
fn church(n: u32) -> Term {
    let mut body = var(0);
    for _ in 0..n {
        body = app(var(1), body);
    }
    lam(lam(body))
}

/// Number of applications in a term, iteratively.
fn count_apps(t: &Term) -> u64 {
    let mut stack: Vec<&Term> = vec![t];
    let mut n: u64 = 0;
    while let Some(cur) = stack.pop() {
        match cur {
            Term::App { fun, arg } => {
                n += 1;
                stack.push(fun);
                stack.push(arg);
            }
            Term::Lam { bod } => stack.push(bod),
            Term::Var { .. } => {}
        }
    }
    n
}

/// Reference reducer: shift free variables at or above c by one up.
fn ref_shift(t: &Term, c: u32) -> Term {
    match t {
        Term::App { fun, arg } => app(ref_shift(fun, c), ref_shift(arg, c)),
        Term::Lam { bod } => lam(ref_shift(bod, c + 1)),
        Term::Var { idx } => {
            if *idx < c {
                var(*idx)
            } else {
                var(*idx + 1)
            }
        }
    }
}

/// Reference reducer: substitute v for the variable bound at depth j.
fn ref_subst(t: &Term, v: &Term, j: u32) -> Term {
    match t {
        Term::App { fun, arg } => app(ref_subst(fun, v, j), ref_subst(arg, v, j)),
        Term::Lam { bod } => {
            let lifted = ref_shift(v, 0);
            lam(ref_subst(bod, &lifted, j + 1))
        }
        Term::Var { idx } => {
            if *idx == j {
                clone_term(v)
            } else if *idx > j {
                var(*idx - 1)
            } else {
                var(*idx)
            }
        }
    }
}

/// Reference reducer: beta normal form with a fuel bound.
fn ref_normalize(t: &Term, fuel: &mut u64) -> Option<Term> {
    if *fuel == 0 {
        return None;
    }
    *fuel -= 1;
    match t {
        Term::Var { idx } => Some(var(*idx)),
        Term::Lam { bod } => Some(lam(ref_normalize(bod, fuel)?)),
        Term::App { fun, arg } => {
            let f = ref_normalize(fun, fuel)?;
            match f {
                Term::Lam { bod } => ref_normalize(&ref_subst(&bod, arg, 0), fuel),
                other => Some(app(other, ref_normalize(arg, fuel)?)),
            }
        }
    }
}

/// Encode, reduce, decode.
fn graph_normalize(t: &Term) -> (net::Stats, Term) {
    let mut g = to_net(t).expect("closed term must encode");
    let stats = net::reduce(&mut g);
    let r = from_net(&g).expect("reduced net must decode");
    (stats, r)
}

#[test]
fn round_trip_identity() {
    let t = lam(var(0));
    let g = to_net(&t).unwrap();
    assert_eq!(from_net(&g).unwrap(), t);
}

#[test]
fn round_trip_const() {
    let t = lam(lam(var(1)));
    let g = to_net(&t).unwrap();
    assert_eq!(from_net(&g).unwrap(), t);
}

#[test]
fn round_trip_church_two() {
    let t = church(2);
    let g = to_net(&t).unwrap();
    assert_eq!(from_net(&g).unwrap(), t);
}

#[test]
fn round_trip_church_zero() {
    let t = church(0);
    let g = to_net(&t).unwrap();
    assert_eq!(from_net(&g).unwrap(), t);
}

#[test]
fn round_trip_nested() {
    // #a #b /a /#c /c b a
    let t = lam(lam(app(app(var(1), lam(app(var(0), var(1)))), var(1))));
    let g = to_net(&t).unwrap();
    assert_eq!(from_net(&g).unwrap(), t);
}

#[test]
fn reduction_matches_reference() {
    let samples = vec![
        app(lam(var(0)), lam(var(0))),
        app(church(2), lam(var(0))),
        app(app(lam(lam(app(var(0), var(1)))), church(2)), church(2)),
        app(app(church(2), church(2)), church(3)),
        lam(app(lam(var(0)), var(0))),
    ];
    for t in samples {
        let mut fuel = 1_000_000u64;
        let expected = ref_normalize(&t, &mut fuel).expect("reference ran out of fuel");
        let (_stats, got) = graph_normalize(&t);
        assert_eq!(got, expected);
    }
}

#[test]
fn reduce_normal_form_is_idempotent() {
    // a net already in normal form: no rule fires, the term is unchanged
    for t in [lam(var(0)), church(2), lam(lam(app(var(1), var(0))))] {
        let mut g = to_net(&t).unwrap();
        assert!(is_normal(&g));
        let stats = net::reduce(&mut g);
        assert_eq!(stats.rules, 0);
        assert_eq!(from_net(&g).unwrap(), t);
    }
}

#[test]
fn sharing_is_transparent() {
    // applying a duplicated function gives the same result as applying
    // the function directly
    let dup_use = app(lam(app(var(0), var(0))), lam(var(0)));
    let (_s1, r1) = graph_normalize(&dup_use);
    let (_s2, r2) = graph_normalize(&lam(var(0)));
    assert_eq!(r1, r2);

    let shared = app(church(2), lam(var(0)));
    let (_s3, r3) = graph_normalize(&shared);
    assert_eq!(r3, lam(var(0)));
}

#[test]
fn church_exponentiation() {
    // (#n #m /m n) 2 2 reduces to the Church numeral 4
    let e = lam(lam(app(var(0), var(1))));
    let t = app(app(e, church(2)), church(2));
    let (stats, got) = graph_normalize(&t);
    assert_eq!(got, church(4));
    assert!(stats.rules > 0);
    assert_eq!(stats.rules, stats.betas + stats.dupls + stats.annis);
    // the count is reproducible for the fixed traversal order
    let (stats2, _) = graph_normalize(&t);
    assert_eq!(stats.rules, stats2.rules);
    assert_eq!(stats.rules, 16);
}

#[test]
fn repeated_doubling_scales() {
    // thirteen doublings of the Church numeral 1 normalize to 2^13; the
    // decoded numeral's depth is the bound here, not the graph work
    let dbl = lam(lam(lam(app(
        app(var(2), var(1)),
        app(app(var(2), var(1)), var(0)),
    ))));
    let mut t = church(1);
    for _ in 0..13 {
        t = app(clone_term(&dbl), t);
    }
    let (_stats, got) = graph_normalize(&t);
    assert_eq!(count_apps(&got), 8192);
    // dropping a term this deep would recurse; leak it instead
    std::mem::forget(got);
}

#[test]
fn stats_rules_split() {
    let t = app(app(church(2), church(2)), church(3));
    let (stats, _got) = graph_normalize(&t);
    assert_eq!(stats.rules, stats.betas + stats.dupls + stats.annis);
    assert!(stats.loops >= stats.rules);
    assert!(stats.dupls > 0);
    assert!(stats.betas > 0);
}

#[test]
fn encoded_nets_are_symmetric() {
    for t in [
        lam(var(0)),
        church(0),
        church(2),
        app(church(2), church(3)),
        lam(lam(app(app(var(1), var(0)), var(1)))),
    ] {
        let g = to_net(&t).unwrap();
        assert!(wires_symmetric(&g));
    }
}

#[test]
fn reduced_nets_are_symmetric_and_normal() {
    for t in [
        app(lam(var(0)), lam(var(0))),
        app(church(2), lam(var(0))),
        app(app(lam(lam(app(var(0), var(1)))), church(2)), church(2)),
    ] {
        let mut g = to_net(&t).unwrap();
        assert!(!is_normal(&g));
        let stats = net::reduce(&mut g);
        assert!(stats.rules > 0);
        assert!(wires_symmetric(&g));
        // the engine's terminal condition: no active pair anywhere
        assert!(is_normal(&g));
    }
}

#[test]
fn rewrites_preserve_symmetry() {
    // drive the rewriting by hand through the public rules and check the
    // wire symmetry invariant after every single rewrite
    let e = lam(lam(app(var(0), var(1))));
    let t = app(app(e, church(2)), church(2));
    let mut g = to_net(&t).unwrap();
    assert!(wires_symmetric(&g));
    let mut steps = 0u32;
    loop {
        let pair = find_active_pair(&g);
        match pair {
            None => break,
            Some((x, y)) => {
                assert!(x >= 1 && y >= 1 && x != y);
                assert!(g.nodes.len() + 8 <= 0xFFFF_FFF0);
                net::rewrite(&mut g, x, y);
                assert!(wires_symmetric(&g), "symmetry broken after rewrite {steps}");
            }
        }
        steps += 1;
        assert!(steps < 10_000, "rewriting did not settle");
    }
    assert!(steps > 0);
}

/// Finds some live active pair, scanning principal ports.
fn find_active_pair(g: &Net) -> Option<(u32, u32)> {
    let n_nodes = g.nodes.len() / 4;
    let mut dead = vec![false; n_nodes];
    for &r in &g.reuse {
        dead[r as usize] = true;
    }
    for i in 1..n_nodes {
        if dead[i] {
            continue;
        }
        let p = (i * 4) as u32;
        let q = g.nodes[p as usize];
        if q % 4 == 0 && q >= 4 && !dead[(q / 4) as usize] && q / 4 != i as u32 {
            if g.nodes[q as usize] == p {
                return Some((i as u32, q / 4));
            }
        }
    }
    None
}

#[test]
fn open_terms_do_not_encode() {
    assert!(to_net(&var(0)).is_none());
    assert!(to_net(&lam(var(1))).is_none());
    assert!(to_net(&lam(app(var(0), var(2)))).is_none());
    assert!(to_net(&lam(var(0))).is_some());
}

#[test]
fn parse_and_print_round_trip() {
    for src in [
        "#a a",
        "#a #b a",
        "#a #b /a /a b",
        "/#a a #b b",
        "#a #b /a /#c /c b a",
    ] {
        let t = from_string(src.as_bytes()).unwrap();
        let printed = to_string(&t);
        let back = from_string(&printed).unwrap();
        assert_eq!(back, t);
    }
}

#[test]
fn parse_definitions_and_lets() {
    // @id #x x /id id  ==  /#x x #x x
    let t1 = from_string(b"@id #x x /id id").unwrap();
    let t2 = from_string(b"/#x x #x x").unwrap();
    assert_eq!(t1, t2);
    // :f #x x /f f  ==  /#f /f f #x x
    let t3 = from_string(b":f #x x /f f").unwrap();
    let t4 = from_string(b"/#f /f f #x x").unwrap();
    assert_eq!(t3, t4);
}

#[test]
fn parse_rejects_empty() {
    assert!(from_string(b"").is_none());
    assert!(from_string(b"   ").is_none());
    assert!(from_string(b"/#a a").is_none());
}

#[test]
fn pipeline_reduces_source() {
    let (stats, out) = absal::reduce(b"/#a a #b b").unwrap();
    assert_eq!(out, b"#a a".to_vec());
    assert_eq!(stats.rules, 1);
    assert_eq!(stats.betas, 1);

    // (#n #m /m n) 2 2 rendered back as source
    let (_stats, out2) = absal::reduce(b"//#n #m /m n #f #x /f /f x #f #x /f /f x").unwrap();
    let four = to_string(&church(4));
    assert_eq!(out2, four);

    assert!(absal::reduce(b"").is_none());
}

#[test]
fn var_names_follow_depth() {
    assert_eq!(absal::term::var_name(0), Vec::<u8>::new());
    assert_eq!(absal::term::var_name(1), b"a".to_vec());
    assert_eq!(absal::term::var_name(26), b"z".to_vec());
    assert_eq!(absal::term::var_name(27), b"aa".to_vec());
    assert_eq!(to_string(&lam(var(0))), b"#a a".to_vec());
    assert_eq!(to_string(&church(2)), b"#a #b /a /a b".to_vec());
}
