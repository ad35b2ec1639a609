//! A graph-based evaluator for the untyped lambda calculus, built on
//! interaction nets. A term is translated into a flat port graph, the
//! graph is reduced towards normal form by two local rewrite rules
//! (annihilation and duplication), and the result is translated back into
//! a term.

use vstd::prelude::*;

pub mod checker;
pub mod codec;
pub mod net;
pub mod term;

verus! {

/// What the whole pipeline computes from a source text: parse, encode,
/// walk the reduction engine, decode, and render — each step the exact
/// specification of the function that performs it. `None` where any step
/// refuses: a malformed source, an open or oversized term, a walk that
/// fails, or an unprintable result.
pub open spec fn reduce_spec(code: Seq<u8>) -> Option<(net::Stats, Seq<u8>)> {
    match term::parse_spec(code, 0, Seq::empty()) {
        None => None,
        Some(pt) => {
            let t = pt.1;
            if !(term::scoped(t, 0) && term::term_size(t) <= codec::ENCODE_MAX_SIZE) {
                None
            } else {
                let enc = codec::encode_spec(
                    seq![0u32, 1u32, 2u32, 0u32],
                    Seq::empty(),
                    1,
                    Seq::empty(),
                    t,
                );
                let s0 = enc.0.update(0, enc.3 as u32).update(enc.3, 0u32);
                let walk = net::engine_spec(
                    s0,
                    enc.1,
                    Seq::empty(),
                    s0[0],
                    net::Stats { loops: 0, rules: 0, betas: 0, dupls: 0, annis: 0 },
                );
                match codec::decode_spec(
                    walk.0,
                    Seq::new(walk.0.len() / 4, |i: int| 0u32),
                    Seq::empty(),
                    0,
                    0,
                    codec::DECODE_FUEL as nat,
                ) {
                    None => None,
                    Some(dec) => {
                        let out = dec.0;
                        if term::scoped(out, 0) && term::term_size(out) <= 0xFFFF_FFFF {
                            Some((walk.2, term::print_spec(out, 0)))
                        } else {
                            None
                        }
                    },
                }
            }
        },
    }
}

/// Parses source code, encodes it as a net, reduces the net, and renders
/// the decoded result, together with the reduction counters: exactly what
/// `reduce_spec` says of the source text. `None` if the source is
/// malformed, the term is open or oversized, or the reduced net does not
/// decode to a printable closed term.
pub fn reduce(code: &[u8]) -> (r: Option<(net::Stats, Vec<u8>)>)
    ensures
        ({
            let rs = reduce_spec(code@);
            match r {
                Some(p) => rs matches Some(q) && q.0 == p.0 && q.1 == p.1@,
                None => rs is None,
            }
        }),
        r matches Some(p) ==> exists|t: term::Term|
            term::scoped(t, 0) && p.1@ == term::print_spec(t, 0),
        r matches Some(p) ==> p.0.rules == p.0.betas + p.0.dupls + p.0.annis,
{
    let parsed = match term::from_string(code) {
        None => {
            return None;
        },
        Some(t) => t,
    };
    let mut graph = match codec::to_net(&parsed) {
        None => {
            return None;
        },
        Some(n) => n,
    };
    let stats = net::reduce(&mut graph);
    let reduced = match codec::from_net(&graph) {
        None => {
            return None;
        },
        Some(t) => t,
    };
    let sz = term::term_size_capped(&reduced);
    if sz > 0xFFFF_FFFF {
        return None;
    }
    let printed = term::to_string(&reduced);
    proof {
        assert(term::scoped(reduced, 0) && printed@ == term::print_spec(reduced, 0));
    }
    Some((stats, printed))
}

} // verus!
