use absal::checker::{
    bod, clone_proof, equals, from_string, infer, is_stratified, reduce, shift, subs, to_string,
    var_name, Proof,
};

const FUEL: u64 = 1_000_000;

fn papp(era: bool, f: Proof, a: Proof) -> Proof {
    Proof::App {
        era,
        fun: Box::new(f),
        arg: Box::new(a),
    }
}

fn plam(era: bool, t: Proof, b: Proof) -> Proof {
    Proof::Lam {
        era,
        typ: Box::new(t),
        bod: Box::new(b),
    }
}

fn pall(era: bool, t: Proof, b: Proof) -> Proof {
    Proof::All {
        era,
        typ: Box::new(t),
        bod: Box::new(b),
    }
}

fn pvar(i: u32) -> Proof {
    Proof::Var { idx: i }
}

#[test]
fn typed_parse_basics() {
    // #a * a  is  λa : *. a
    let t = from_string(b"#a * a").unwrap();
    assert_eq!(t, plam(false, Proof::Star, pvar(0)));
    // ^a * .a *  is an erased abstraction around an erased application
    let t2 = from_string(b"^a * .a *").unwrap();
    assert_eq!(t2, plam(true, Proof::Star, papp(true, pvar(0), Proof::Star)));
    let t3 = from_string(b"=d * |d").unwrap();
    assert_eq!(
        t3,
        Proof::Dup {
            val: Box::new(Proof::Star),
            bod: Box::new(Proof::Inc {
                val: Box::new(pvar(0))
            }),
        }
    );
    assert!(from_string(b"").is_none());
}

#[test]
fn typed_definitions_expand() {
    let t1 = from_string(b"$id #a * a :id id").unwrap();
    let t2 = from_string(b":#a * a #a * a").unwrap();
    assert_eq!(t1, t2);
}

#[test]
fn typed_print_round_trip() {
    for src in ["#a * a", "@a * !@b a a", "=d * :d |*", "^a * #b a b"] {
        let t = from_string(src.as_bytes()).unwrap();
        let printed = to_string(&t);
        let back = from_string(&printed).unwrap();
        assert_eq!(back, t);
    }
}

#[test]
fn typed_var_names() {
    assert_eq!(var_name(0), b"?".to_vec());
    assert_eq!(var_name(1), b"a".to_vec());
    assert_eq!(var_name(27), b"aa".to_vec());
}

#[test]
fn shift_moves_free_variables_only() {
    // λ. (0 1): the bound 0 stays, the free 1 moves
    let t = plam(false, Proof::Star, papp(false, pvar(0), pvar(1)));
    let s = shift(&t, 2, 0).unwrap();
    assert_eq!(s, plam(false, Proof::Star, papp(false, pvar(0), pvar(3))));
    // an index at the top of its word cannot be shifted
    assert!(shift(&pvar(u32::MAX), 1, 0).is_none());
    assert!(shift(&pvar(u32::MAX - 1), 1, 0).is_some());
}

#[test]
fn subs_replaces_the_bound_variable() {
    // (λ. body)(v) steps to body with 0 := v
    let body = papp(false, pvar(0), plam(false, Proof::Star, pvar(1)));
    let v = Proof::Star;
    let r = subs(&body, &v).unwrap();
    assert_eq!(
        r,
        papp(false, Proof::Star, plam(false, Proof::Star, Proof::Star))
    );
}

#[test]
fn equals_ignores_erasure() {
    let a = papp(true, pvar(0), Proof::Star);
    let b = papp(false, pvar(0), Proof::Star);
    assert!(equals(&a, &b));
    let c = papp(false, pvar(1), Proof::Star);
    assert!(!equals(&a, &c));
}

#[test]
fn typed_reduce_beta() {
    // (λa : *. a) * reduces to *
    let t = papp(false, plam(false, Proof::Star, pvar(0)), Proof::Star);
    assert_eq!(reduce(&t, FUEL).unwrap(), Proof::Star);
    // out of fuel is reported, not looped
    assert!(reduce(&t, 0).is_none());
}

#[test]
fn typed_reduce_dup() {
    // = d |* (d) reduces the boxed value into the body
    let t = Proof::Dup {
        val: Box::new(Proof::Inc {
            val: Box::new(Proof::Star),
        }),
        bod: Box::new(pvar(0)),
    };
    assert_eq!(reduce(&t, FUEL).unwrap(), Proof::Star);
}

#[test]
fn stratification_accepts_affine_use() {
    let ok = from_string(b"#a * a").unwrap();
    assert!(is_stratified(&ok));
    let unused = from_string(b"#a * *").unwrap();
    assert!(is_stratified(&unused));
}

#[test]
fn stratification_rejects_double_use() {
    // an affine binder used twice
    let bad = plam(false, Proof::Star, papp(false, pvar(0), pvar(0)));
    assert!(!is_stratified(&bad));
    // a duplication binder used at its own level
    let bad2 = Proof::Dup {
        val: Box::new(Proof::Star),
        bod: Box::new(pvar(0)),
    };
    assert!(!is_stratified(&bad2));
    // the same binder used one level down is fine
    let ok = Proof::Dup {
        val: Box::new(Proof::Star),
        bod: Box::new(Proof::Inc {
            val: Box::new(pvar(0)),
        }),
    };
    assert!(is_stratified(&ok));
}

#[test]
fn inference_of_simple_terms() {
    assert_eq!(infer(&Proof::Star, FUEL).unwrap(), Proof::Star);
    // λa : *. a  has type  ∀a : *. *
    let id = plam(false, Proof::Star, pvar(0));
    assert_eq!(infer(&id, FUEL).unwrap(), pall(false, Proof::Star, Proof::Star));
    // applying it to * gives *
    let t = papp(false, id, Proof::Star);
    assert_eq!(infer(&t, FUEL).unwrap(), Proof::Star);
}

#[test]
fn inference_rejects_mismatches() {
    // applying something of type * as a function
    let t = papp(false, Proof::Star, Proof::Star);
    assert!(infer(&t, FUEL).is_none());
    assert!(infer(&Proof::Star, 0).is_none());
}

#[test]
fn bod_of_lambda() {
    let t = plam(false, Proof::Star, pvar(0));
    assert_eq!(*bod(&t), pvar(0));
    let copy = clone_proof(&t);
    assert_eq!(copy, t);
}
