//! Translation between lambda terms and nets: the encoder wires a term
//! into a fresh net below the root anchor, and the decoder walks a net in
//! normal form back into a term, recovering de Bruijn indices from the
//! nesting depth at which each binder node was first reached.

use vstd::prelude::*;
use crate::net::{
    Net, NET_MAX_WORDS, alloc_spec, distinct_reuse, enter, is_wire_cell, kind,
    lemma_alloc_preserves_sym, link, live, new_node, node, port, slot, spec_kind, sym, wf,
    wf_reuse, wf_words,
};
use crate::term::{Term, check_scope, scoped, term_size, term_size_capped};
use vstd::seq_lib::lemma_seq_contains_after_push;

verus! {

broadcast use lemma_seq_contains_after_push;

/// Terms above this size are rejected by the encoder, so that the node
/// addresses and duplicator labels it mints always fit their words.
pub const ENCODE_MAX_SIZE: u64 = 0x0FFF_FFFF;

/// Wire symmetry of the live graph, except that the one cell `r` may
/// dangle: every other live port has a live partner that points back, and
/// no live port other than `r` itself is wired to `r`. A self-looped
/// (not yet linked) port satisfies this trivially. The encoder keeps its
/// net in this state, `r` being the result port it is about to hand its
/// caller, who links it at once.
#[verifier::opaque]
pub open spec fn sym_except(s: Seq<u32>, reuse: Seq<u32>, r: int) -> bool {
    forall|p: int|
        is_wire_cell(s, p) && live(s, reuse, p / 4) && p != r ==> {
            &&& (#[trigger] s[p]) < s.len()
            &&& s[p] % 4 != 3
            &&& live(s, reuse, s[p] as int / 4)
            &&& s[s[p] as int] == p as u32
            &&& s[p] != r
        }
}

/// A symmetric net is also symmetric-except at any self-looped live port.
#[verifier::rlimit(100)]
proof fn lemma_virgin(s: Seq<u32>, reuse: Seq<u32>, r: int)
    requires
        wf_words(s),
        sym(s, reuse),
        is_wire_cell(s, r),
        live(s, reuse, r / 4),
        s[r] == r as u32,
    ensures
        sym_except(s, reuse, r),
{
    reveal(sym_except);
    reveal(crate::net::sym);
    assert forall|p: int|
        is_wire_cell(s, p) && live(s, reuse, p / 4) && p != r implies {
            &&& (#[trigger] s[p]) < s.len()
            &&& s[p] % 4 != 3
            &&& live(s, reuse, s[p] as int / 4)
            &&& s[s[p] as int] == p as u32
            &&& s[p] != r
        } by {
        assert(s[s[p] as int] == p as u32);
        if s[p] == r {
            assert(s[r as int] == p as u32);
        }
    }
}

/// Linking a dangling port to a fresh self-looped one restores symmetry.
#[verifier::rlimit(100)]
proof fn lemma_heal(s: Seq<u32>, reuse: Seq<u32>, f: int, r: int)
    requires
        wf_words(s),
        sym_except(s, reuse, r),
        is_wire_cell(s, f),
        is_wire_cell(s, r),
        live(s, reuse, f / 4),
        live(s, reuse, r / 4),
        s[f] == f as u32,
        f != r,
    ensures
        sym(s.update(f, r as u32).update(r, f as u32), reuse),
{
    reveal(sym_except);
    reveal(crate::net::sym);
    let s2 = s.update(f, r as u32).update(r, f as u32);
    assert forall|p: int|
        is_wire_cell(s2, p) && live(s2, reuse, p / 4) implies {
            &&& live(s2, reuse, (#[trigger] s2[p]) as int / 4)
            &&& s2[p] % 4 != 3
            &&& s2[p] < s2.len()
            &&& s2[s2[p] as int] == p as u32
        } by {
        if p != f && p != r {
            assert(s2[p] == s[p]);
            let d = s[p] as int;
            assert(s[d] == p as u32 && d != r);
            assert(d != f) by {
                if d == f {
                    assert(s[f] == p as u32);
                }
            }
            assert(s2[d] == s[d]);
        }
    }
}

/// Wiring a fresh self-looped port `f` to a port `t` that was properly
/// paired leaves `t`'s old partner dangling, and nothing else moves.
#[verifier::rlimit(100)]
proof fn lemma_steal(s: Seq<u32>, reuse: Seq<u32>, f: int, t: int)
    requires
        wf_words(s),
        sym(s, reuse),
        is_wire_cell(s, f),
        is_wire_cell(s, t),
        live(s, reuse, f / 4),
        live(s, reuse, t / 4),
        s[f] == f as u32,
        s[t] != t as u32,
        f != t,
    ensures
        sym_except(s.update(f, t as u32).update(t, f as u32), reuse, s[t] as int),
{
    reveal(sym_except);
    reveal(crate::net::sym);
    let w = s[t] as int;
    let s2 = s.update(f, t as u32).update(t, f as u32);
    assert(s[w] == t as u32 && live(s, reuse, w / 4));
    assert(w != f) by {
        if w == f {
            assert(s[f] == t as u32);
        }
    }
    assert forall|p: int|
        is_wire_cell(s2, p) && live(s2, reuse, p / 4) && p != w implies {
            &&& (#[trigger] s2[p]) < s2.len()
            &&& s2[p] % 4 != 3
            &&& live(s2, reuse, s2[p] as int / 4)
            &&& s2[s2[p] as int] == p as u32
            &&& s2[p] != w
        } by {
        if p == f || p == t {
            assert(s2[f] == t as u32 && s2[t] == f as u32);
        } else {
            assert(s2[p] == s[p]);
            let d = s[p] as int;
            assert(s[d] == p as u32);
            assert(d != f) by {
                if d == f {
                    assert(s[f] == p as u32);
                }
            }
            assert(d != t) by {
                if d == t {
                    assert(s[t] == p as u32 && s[w] == t as u32 && s[p] == d as u32);
                }
            }
            assert(s2[d] == s[d]);
            assert(s2[p] != w) by {
                if s[p] == w as u32 {
                    assert(s[w] == p as u32);
                }
            }
        }
    }
}

/// Reclaiming a spent eraser, whose auxiliary ports are wired to each
/// other and whose principal port is the partner of `l`, leaves the live
/// graph symmetric except at the now dangling `l`.
#[verifier::rlimit(100)]
proof fn lemma_release(s: Seq<u32>, reuse: Seq<u32>, l: int, e: int)
    requires
        wf_words(s),
        wf_reuse(s, reuse),
        distinct_reuse(reuse),
        sym(s, reuse),
        is_wire_cell(s, l),
        live(s, reuse, l / 4),
        1 <= e && 4 * e + 3 < s.len(),
        live(s, reuse, e),
        l / 4 != e,
        s[l] as int == 4 * e,
        s[4 * e + 1] == (4 * e + 2) as u32,
        s[4 * e + 2] == (4 * e + 1) as u32,
    ensures
        sym_except(s, reuse.push(e as u32), l),
        distinct_reuse(reuse.push(e as u32)),
        wf_reuse(s, reuse.push(e as u32)),
{
    reveal(sym_except);
    reveal(crate::net::sym);
    let r2 = reuse.push(e as u32);
    assert(s[4 * e] == l as u32);
    assert forall|p: int|
        is_wire_cell(s, p) && live(s, r2, p / 4) && p != l implies {
            &&& (#[trigger] s[p]) < s.len()
            &&& s[p] % 4 != 3
            &&& live(s, r2, s[p] as int / 4)
            &&& s[s[p] as int] == p as u32
            &&& s[p] != l
        } by {
        assert(live(s, reuse, p / 4));
        let d = s[p] as int;
        assert(s[d] == p as u32 && live(s, reuse, d / 4));
        assert(d / 4 != e) by {
            if d == 4 * e {
                assert(p == l);
            }
            if d == 4 * e + 1 || d == 4 * e + 2 {
                assert(false);
            }
            if d == 4 * e + 3 {
                assert(false);
            }
        }
        assert(s[p] != l) by {
            if s[p] == l as u32 {
                assert(s[l] == p as u32);
                assert(p == 4 * e);
            }
        }
    }
}

/// Every live eraser (kind 0) other than the root anchor has its two
/// auxiliary ports wired to each other, as the encoder builds them.
#[verifier::opaque]
pub open spec fn eras_paired(s: Seq<u32>, reuse: Seq<u32>) -> bool {
    forall|n: int|
        #[trigger] live(s, reuse, n) && n >= 1 && spec_kind(s, n) == 0 ==> s[4 * n + 1] == (4 * n
            + 2) as u32 && s[4 * n + 2] == (4 * n + 1) as u32
}

/// What the encoder keeps true of its net besides wire symmetry: the
/// structural invariant, a duplicate-free reuse pool, the root anchor's
/// three self-looped ports, and paired erasers.
pub open spec fn enc_state(net: Net) -> bool {
    &&& wf(net)
    &&& distinct_reuse(net.reuse@)
    &&& net.nodes@[0] == 0u32
    &&& net.nodes@[1] == 1u32
    &&& net.nodes@[2] == 2u32
    &&& eras_paired(net.nodes@, net.reuse@)
}

/// Between two encoder states: every node that was live with a kind other
/// than 0 is still live with that kind. Only spent erasers ever die.
#[verifier::opaque]
pub open spec fn keeps_kinds(a: Net, b: Net) -> bool {
    forall|m: int|
        live(a.nodes@, a.reuse@, m) && spec_kind(a.nodes@, m) != 0 ==> #[trigger] live(
            b.nodes@,
            b.reuse@,
            m,
        ) && spec_kind(b.nodes@, m) == spec_kind(a.nodes@, m)
}

/// Between two encoder states: every self-looped (unlinked) port of a
/// surviving node or of the root anchor still self-loops, except the
/// ports in `ex`.
#[verifier::opaque]
pub open spec fn keeps_loops(a: Net, b: Net, ex: Set<int>) -> bool {
    forall|c: int|
        is_wire_cell(a.nodes@, c) && live(a.nodes@, a.reuse@, c / 4) && a.nodes@[c] == c as u32
            && !ex.contains(c) && (spec_kind(a.nodes@, c / 4) != 0 || c / 4 == 0)
            ==> #[trigger] b.nodes@[c] == c as u32
}

/// `keeps_kinds` composes.
#[verifier::rlimit(100)]
proof fn lemma_keeps_kinds_trans(a: Net, b: Net, c: Net)
    requires
        keeps_kinds(a, b),
        keeps_kinds(b, c),
    ensures
        keeps_kinds(a, c),
{
    reveal(keeps_kinds);
    assert forall|m: int|
        live(a.nodes@, a.reuse@, m) && spec_kind(a.nodes@, m) != 0 implies #[trigger] live(
        c.nodes@,
        c.reuse@,
        m,
    ) && spec_kind(c.nodes@, m) == spec_kind(a.nodes@, m) by {
        assert(live(b.nodes@, b.reuse@, m));
        assert(spec_kind(b.nodes@, m) == spec_kind(a.nodes@, m));
        assert(spec_kind(b.nodes@, m) != 0);
        assert(live(c.nodes@, c.reuse@, m));
        assert(spec_kind(c.nodes@, m) == spec_kind(b.nodes@, m));
    }
}

/// What `keeps_kinds` says of one surviving node.
#[verifier::rlimit(100)]
proof fn lemma_keeps_kinds_at(a: Net, b: Net, m: int)
    requires
        keeps_kinds(a, b),
        live(a.nodes@, a.reuse@, m),
        spec_kind(a.nodes@, m) != 0,
    ensures
        live(b.nodes@, b.reuse@, m),
        spec_kind(b.nodes@, m) == spec_kind(a.nodes@, m),
{
    reveal(keeps_kinds);
    assert(live(a.nodes@, a.reuse@, m) && spec_kind(a.nodes@, m) != 0 ==> live(
        b.nodes@,
        b.reuse@,
        m,
    ) && spec_kind(b.nodes@, m) == spec_kind(a.nodes@, m));
}

/// `keeps_loops` composes, accumulating the exceptions.
#[verifier::rlimit(100)]
proof fn lemma_keeps_loops_trans(a: Net, b: Net, c: Net, ex1: Set<int>, ex2: Set<int>)
    requires
        keeps_loops(a, b, ex1),
        keeps_loops(b, c, ex2),
        keeps_kinds(a, b),
        wf(b),
    ensures
        keeps_loops(a, c, ex1.union(ex2)),
{
    reveal(keeps_loops);
    reveal(keeps_kinds);
    assert forall|p: int|
        is_wire_cell(a.nodes@, p) && live(a.nodes@, a.reuse@, p / 4) && a.nodes@[p] == p as u32
            && !ex1.union(ex2).contains(p) && (spec_kind(a.nodes@, p / 4) != 0 || p / 4 == 0)
            implies #[trigger] c.nodes@[p] == p as u32 by {
        assert(b.nodes@[p] == p as u32);
        if p / 4 == 0 {
            assert(live(b.nodes@, b.reuse@, 0));
            assert(is_wire_cell(b.nodes@, p));
        } else {
            assert(live(b.nodes@, b.reuse@, p / 4));
            assert(spec_kind(b.nodes@, p / 4) != 0);
            assert(is_wire_cell(b.nodes@, p));
        }
    }
}

/// What `keeps_loops` says of one untouched port.
#[verifier::rlimit(100)]
proof fn lemma_keeps_loops_at(a: Net, b: Net, ex: Set<int>, c: int)
    requires
        keeps_loops(a, b, ex),
        is_wire_cell(a.nodes@, c),
        live(a.nodes@, a.reuse@, c / 4),
        a.nodes@[c] == c as u32,
        !ex.contains(c),
        spec_kind(a.nodes@, c / 4) != 0 || c / 4 == 0,
    ensures
        b.nodes@[c] == c as u32,
{
    reveal(keeps_loops);
}

/// What the encoder needs of the scope stack: each entry is a live
/// binder node of kind 1 whose binding port is linked somewhere.
pub open spec fn scope_ok(net: Net, scope: Seq<u32>) -> bool {
    forall|j: int|
        0 <= j < scope.len() ==> {
            let l = (#[trigger] scope[j]) as int;
            &&& 1 <= l && 4 * l + 3 < net.nodes@.len()
            &&& live(net.nodes@, net.reuse@, l)
            &&& spec_kind(net.nodes@, l) == 1
            &&& net.nodes@[4 * l + 1] != (4 * l + 1) as u32
        }
}

/// Allocating a node of a kind other than 0 keeps the encoder's
/// invariants: the net stays symmetric, erasers stay paired, and the
/// scope's binders stay live, of kind 1, and linked.
#[verifier::rlimit(100)]
proof fn lemma_alloc_keeps_enc(pre: Net, post: Net, scope: Seq<u32>, k: int, n: int)
    requires
        enc_state(pre),
        sym(pre.nodes@, pre.reuse@),
        scope_ok(pre, scope),
        wf(post),
        pre.nodes@.len() + 4 <= NET_MAX_WORDS,
        1 <= k <= 0x3FFF_FFFF,
        alloc_spec(pre.nodes@, pre.reuse@, k) == (post.nodes@, post.reuse@, n),
    ensures
        enc_state(post),
        sym(post.nodes@, post.reuse@),
        scope_ok(post, scope),
        live(post.nodes@, post.reuse@, n),
        !live(pre.nodes@, pre.reuse@, n),
        spec_kind(post.nodes@, n) == k,
        forall|m: int|
            live(pre.nodes@, pre.reuse@, m) ==> #[trigger] live(post.nodes@, post.reuse@, m)
                && spec_kind(post.nodes@, m) == spec_kind(pre.nodes@, m),
        forall|c: int|
            is_wire_cell(pre.nodes@, c) && live(pre.nodes@, pre.reuse@, c / 4)
                ==> #[trigger] post.nodes@[c] == pre.nodes@[c],
        forall|m: int|
            #[trigger] live(post.nodes@, post.reuse@, m) && m != n ==> live(
                pre.nodes@,
                pre.reuse@,
                m,
            ),
        keeps_kinds(pre, post),
        keeps_loops(pre, post, Set::empty()),
{
    reveal(eras_paired);
    lemma_alloc_preserves_sym(pre.nodes@, pre.reuse@, k);
    assert(post.nodes@[4 * n + 3] == (4 * k) as u32);
    assert(spec_kind(post.nodes@, n) == k);
    assert forall|c: int|
        is_wire_cell(pre.nodes@, c) && live(pre.nodes@, pre.reuse@, c / 4) implies #[trigger] post
        .nodes@[c] == pre.nodes@[c] by {
        assert(c / 4 != n);
    }
    assert forall|m: int|
        #[trigger] live(post.nodes@, post.reuse@, m) && m >= 1 && spec_kind(post.nodes@, m) == 0
            implies post.nodes@[4 * m + 1] == (4 * m + 2) as u32 && post.nodes@[4 * m + 2] == (4 * m
        + 1) as u32 by {
        assert(m != n);
        assert(live(pre.nodes@, pre.reuse@, m));
        assert(post.nodes@[4 * m + 3] == pre.nodes@[4 * m + 3]);
        assert(spec_kind(pre.nodes@, m) == 0);
    }
    assert forall|m: int|
        live(pre.nodes@, pre.reuse@, m) implies #[trigger] live(post.nodes@, post.reuse@, m)
            && spec_kind(post.nodes@, m) == spec_kind(pre.nodes@, m) by {
        assert(m != n);
        assert(post.nodes@[4 * m + 3] == pre.nodes@[4 * m + 3]);
    }
    assert forall|j: int| 0 <= j < scope.len() implies {
        let l = (#[trigger] scope[j]) as int;
        &&& 1 <= l && 4 * l + 3 < post.nodes@.len()
        &&& live(post.nodes@, post.reuse@, l)
        &&& spec_kind(post.nodes@, l) == 1
        &&& post.nodes@[4 * l + 1] != (4 * l + 1) as u32
    } by {
        let l = scope[j] as int;
        assert(live(pre.nodes@, pre.reuse@, l));
        assert(l != n);
        assert(post.nodes@[4 * l + 3] == pre.nodes@[4 * l + 3]);
        assert(post.nodes@[4 * l + 1] == pre.nodes@[4 * l + 1]);
    }
    assert(keeps_kinds(pre, post)) by {
        reveal(keeps_kinds);
    }
    assert(keeps_loops(pre, post, Set::<int>::empty())) by {
        reveal(keeps_loops);
    }
}

/// A link between two ports of nodes that are not erasers keeps the
/// encoder's invariants other than symmetry, which the dangling-wire
/// lemmas track on their own.
#[verifier::rlimit(100)]
proof fn lemma_link_keeps_enc(pre: Net, post: Net, scope: Seq<u32>, c1: int, c2: int)
    requires
        enc_state(pre),
        scope_ok(pre, scope),
        wf(post),
        is_wire_cell(pre.nodes@, c1),
        is_wire_cell(pre.nodes@, c2),
        c1 != c2,
        4 <= c1,
        4 <= c2,
        spec_kind(pre.nodes@, c1 / 4) != 0,
        spec_kind(pre.nodes@, c2 / 4) != 0,
        post.nodes@ == pre.nodes@.update(c1, c2 as u32).update(c2, c1 as u32),
        post.reuse@ == pre.reuse@,
    ensures
        enc_state(post),
        scope_ok(post, scope),
        forall|m: int|
            0 <= 4 * m + 3 < pre.nodes@.len() ==> #[trigger] spec_kind(post.nodes@, m)
                == spec_kind(pre.nodes@, m),
        forall|m: int|
            live(pre.nodes@, pre.reuse@, m) <==> #[trigger] live(post.nodes@, post.reuse@, m),
        keeps_kinds(pre, post),
        keeps_loops(pre, post, set![c1, c2]),
{
    reveal(eras_paired);
    assert forall|m: int|
        0 <= 4 * m + 3 < pre.nodes@.len() implies #[trigger] spec_kind(post.nodes@, m)
            == spec_kind(pre.nodes@, m) by {
        assert(4 * m + 3 != c1 && 4 * m + 3 != c2);
        assert(post.nodes@[4 * m + 3] == pre.nodes@[4 * m + 3]);
    }
    assert forall|m: int|
        #[trigger] live(post.nodes@, post.reuse@, m) && m >= 1 && spec_kind(post.nodes@, m) == 0
            implies post.nodes@[4 * m + 1] == (4 * m + 2) as u32 && post.nodes@[4 * m + 2] == (4 * m
        + 1) as u32 by {
        assert(0 <= 4 * m && 4 * m + 3 < post.nodes@.len());
        assert(post.nodes@[4 * m + 3] == pre.nodes@[4 * m + 3]);
        assert(m != c1 / 4) by {
            if m == c1 / 4 {
                assert(post.nodes@[4 * (c1 / 4) + 3] == pre.nodes@[4 * (c1 / 4) + 3]);
            }
        }
        assert(m != c2 / 4) by {
            if m == c2 / 4 {
                assert(post.nodes@[4 * (c2 / 4) + 3] == pre.nodes@[4 * (c2 / 4) + 3]);
            }
        }
        assert(post.nodes@[4 * m + 1] == pre.nodes@[4 * m + 1]);
        assert(post.nodes@[4 * m + 2] == pre.nodes@[4 * m + 2]);
        assert(live(pre.nodes@, pre.reuse@, m));
        assert(spec_kind(pre.nodes@, m) == 0);
        assert(pre.nodes@[4 * m + 1] == (4 * m + 2) as u32);
        assert(pre.nodes@[4 * m + 2] == (4 * m + 1) as u32);
    }
    assert forall|j: int| 0 <= j < scope.len() implies {
        let l = (#[trigger] scope[j]) as int;
        &&& 1 <= l && 4 * l + 3 < post.nodes@.len()
        &&& live(post.nodes@, post.reuse@, l)
        &&& spec_kind(post.nodes@, l) == 1
        &&& post.nodes@[4 * l + 1] != (4 * l + 1) as u32
    } by {
        let l = scope[j] as int;
        assert(post.nodes@[4 * l + 3] == pre.nodes@[4 * l + 3]);
        if 4 * l + 1 == c1 {
            assert(post.nodes@[4 * l + 1] == c2 as u32);
        } else if 4 * l + 1 == c2 {
            assert(post.nodes@[4 * l + 1] == c1 as u32);
        }
    }
    lemma_link_keeps_both(pre, post, c1, c2);
}

/// The two preservation facts of a link on their own: surviving nodes keep
/// their kinds, and unlinked ports other than the two linked ones stay
/// unlinked.
#[verifier::rlimit(100)]
proof fn lemma_link_keeps_both(pre: Net, post: Net, c1: int, c2: int)
    requires
        wf(pre),
        is_wire_cell(pre.nodes@, c1),
        is_wire_cell(pre.nodes@, c2),
        c1 != c2,
        post.nodes@ == pre.nodes@.update(c1, c2 as u32).update(c2, c1 as u32),
        post.reuse@ == pre.reuse@,
    ensures
        keeps_kinds(pre, post),
        keeps_loops(pre, post, set![c1, c2]),
{
    assert(keeps_kinds(pre, post)) by {
        reveal(keeps_kinds);
        assert forall|m: int|
            live(pre.nodes@, pre.reuse@, m) && spec_kind(pre.nodes@, m) != 0 implies #[trigger] live(
            post.nodes@,
            post.reuse@,
            m,
        ) && spec_kind(post.nodes@, m) == spec_kind(pre.nodes@, m) by {
            assert(0 <= 4 * m + 3 < pre.nodes@.len());
            assert(post.nodes@[4 * m + 3] == pre.nodes@[4 * m + 3]);
        }
    }
    assert(keeps_loops(pre, post, set![c1, c2])) by {
        reveal(keeps_loops);
        assert forall|p: int|
            is_wire_cell(pre.nodes@, p) && live(pre.nodes@, pre.reuse@, p / 4) && pre.nodes@[p]
                == p as u32 && !set![c1, c2].contains(p) && (spec_kind(pre.nodes@, p / 4) != 0 || p
                / 4 == 0) implies #[trigger] post.nodes@[p] == p as u32 by {
            assert(p != c1 && p != c2);
        }
    }
}

/// A result port handed out by the encoder is never a self-looped port
/// that was already live: fresh nodes were not live, and a binder's
/// binding port is never self-looped.
#[verifier::rlimit(100)]
proof fn lemma_result_not_self(entry: Net, scope: Seq<u32>, r: int, c: int)
    requires
        scope_ok(entry, scope),
        0 <= r < 0x1_0000_0000,
        !live(entry.nodes@, entry.reuse@, r / 4) || (r % 4 == 1 && scope.contains((r / 4) as u32)),
        is_wire_cell(entry.nodes@, c),
        live(entry.nodes@, entry.reuse@, c / 4),
        entry.nodes@[c] == c as u32,
    ensures
        r != c,
{
    if r == c {
        if live(entry.nodes@, entry.reuse@, r / 4) {
            let j = choose|j: int| 0 <= j < scope.len() && scope[j] == (r / 4) as u32;
            assert(scope[j] as int == r / 4);
            assert(entry.nodes@[4 * (r / 4) + 1] != (4 * (r / 4) + 1) as u32);
            assert(c == 4 * (r / 4) + 1);
        }
    }
}

/// After an abstraction's binder and placeholder eraser are allocated and
/// the eraser is wired up, the encoder's invariants hold again, with the
/// binder ready to be pushed into scope.
#[verifier::rlimit(100)]
proof fn lemma_lam_setup(n0: Net, n1: Net, n2: Net, n3: Net, n4: Net, scope: Seq<u32>, fun: int, era: int)
    requires
        enc_state(n0),
        enc_state(n1),
        sym(n1.nodes@, n1.reuse@),
        n1.nodes@.len() + 4 <= NET_MAX_WORDS,
        scope_ok(n0, scope),
        scope_ok(n1, scope),
        wf(n2),
        wf(n3),
        wf(n4),
        1 <= fun && 4 * fun + 3 < n1.nodes@.len(),
        live(n1.nodes@, n1.reuse@, fun),
        !live(n0.nodes@, n0.reuse@, fun),
        spec_kind(n1.nodes@, fun) == 1,
        n1.nodes@[4 * fun] == (4 * fun) as u32,
        n1.nodes@[4 * fun + 1] == (4 * fun + 1) as u32,
        n1.nodes@[4 * fun + 2] == (4 * fun + 2) as u32,
        forall|m: int|
            #[trigger] live(n1.nodes@, n1.reuse@, m) && m != fun ==> live(
                n0.nodes@,
                n0.reuse@,
                m,
            ) && spec_kind(n1.nodes@, m) == spec_kind(n0.nodes@, m),
        alloc_spec(n1.nodes@, n1.reuse@, 0) == (n2.nodes@, n2.reuse@, era),
        fun != era,
        n3.nodes@ == n2.nodes@.update(4 * fun + 1, (4 * era) as u32).update(
            4 * era,
            (4 * fun + 1) as u32,
        ),
        n3.reuse@ == n2.reuse@,
        n4.nodes@ == n3.nodes@.update(4 * era + 1, (4 * era + 2) as u32).update(
            4 * era + 2,
            (4 * era + 1) as u32,
        ),
        n4.reuse@ == n3.reuse@,
    ensures
        enc_state(n4),
        scope_ok(n4, scope.push(fun as u32)),
        keeps_kinds(n1, n4),
        keeps_loops(n1, n4, set![4 * fun + 1]),
        live(n4.nodes@, n4.reuse@, fun) && spec_kind(n4.nodes@, fun) == 1,
        live(n4.nodes@, n4.reuse@, era) && spec_kind(n4.nodes@, era) == 0,
        n4.nodes@[4 * fun] == (4 * fun) as u32,
        n4.nodes@[4 * fun + 2] == (4 * fun + 2) as u32,
        n4.nodes@[4 * fun + 1] == (4 * era) as u32,
{
    lemma_alloc_preserves_sym(n1.nodes@, n1.reuse@, 0);
    assert(spec_kind(n2.nodes@, era) == 0);
    assert(n2.nodes@[4 * fun + 3] == n1.nodes@[4 * fun + 3]);
    assert(keeps_kinds(n1, n4)) by {
        reveal(keeps_kinds);
        assert forall|m: int|
            live(n1.nodes@, n1.reuse@, m) && spec_kind(n1.nodes@, m) != 0 implies #[trigger] live(
            n4.nodes@,
            n4.reuse@,
            m,
        ) && spec_kind(n4.nodes@, m) == spec_kind(n1.nodes@, m) by {
            assert(m != era);
            assert(0 <= 4 * m + 3 < n4.nodes@.len());
            assert(n4.nodes@[4 * m + 3] == n3.nodes@[4 * m + 3]);
            assert(n3.nodes@[4 * m + 3] == n2.nodes@[4 * m + 3]);
            assert(n2.nodes@[4 * m + 3] == n1.nodes@[4 * m + 3]);
        }
    }
    assert(keeps_loops(n1, n4, set![4 * fun + 1])) by {
        reveal(keeps_loops);
        assert forall|c0: int|
            is_wire_cell(n1.nodes@, c0) && live(n1.nodes@, n1.reuse@, c0 / 4) && n1.nodes@[c0]
                == c0 as u32 && !set![4 * fun + 1].contains(c0) && (spec_kind(n1.nodes@, c0 / 4)
                != 0 || c0 / 4 == 0) implies #[trigger] n4.nodes@[c0] == c0 as u32 by {
            assert(c0 / 4 != era);
            assert(n2.nodes@[c0] == n1.nodes@[c0]);
            assert(n3.nodes@[c0] == n2.nodes@[c0]);
            assert(n4.nodes@[c0] == n3.nodes@[c0]);
        }
    }
    assert(live(n4.nodes@, n4.reuse@, fun) && spec_kind(n4.nodes@, fun) == 1) by {
        reveal(keeps_kinds);
    }
    assert(live(n4.nodes@, n4.reuse@, era));
    assert(spec_kind(n4.nodes@, era) == 0) by {
        assert(n4.nodes@[4 * era + 3] == n3.nodes@[4 * era + 3]);
        assert(n3.nodes@[4 * era + 3] == n2.nodes@[4 * era + 3]);
    }
    // the fresh eraser is now paired; no other live eraser's ports moved
    reveal(eras_paired);
    assert forall|m: int|
        #[trigger] live(n4.nodes@, n4.reuse@, m) && m >= 1 && spec_kind(n4.nodes@, m) == 0 implies
        n4.nodes@[4 * m + 1] == (4 * m + 2) as u32 && n4.nodes@[4 * m + 2] == (4 * m
        + 1) as u32 by {
        if m != era {
            assert(0 <= 4 * m && 4 * m + 3 < n4.nodes@.len());
            assert(live(n2.nodes@, n2.reuse@, m));
            assert(live(n1.nodes@, n1.reuse@, m));
            assert(live(n0.nodes@, n0.reuse@, m));
            assert(n4.nodes@[4 * m + 3] == n2.nodes@[4 * m + 3]);
            assert(n2.nodes@[4 * m + 3] == n1.nodes@[4 * m + 3]);
            assert(spec_kind(n1.nodes@, m) == spec_kind(n0.nodes@, m));
            assert(m != fun) by {
                if m == fun {
                    assert(spec_kind(n1.nodes@, fun) == 1);
                }
            }
            assert(spec_kind(n0.nodes@, m) == 0);
            assert(n4.nodes@[4 * m + 1] == n2.nodes@[4 * m + 1]);
            assert(n4.nodes@[4 * m + 2] == n2.nodes@[4 * m + 2]);
            assert(n2.nodes@[4 * m + 1] == n1.nodes@[4 * m + 1]);
            assert(n2.nodes@[4 * m + 2] == n1.nodes@[4 * m + 2]);
            assert(n1.nodes@[4 * m + 1] == n0.nodes@[4 * m + 1]);
            assert(n1.nodes@[4 * m + 2] == n0.nodes@[4 * m + 2]);
        }
    }
    assert(enc_state(n4));
    assert forall|j: int| 0 <= j < scope.len() + 1 implies {
        let l = (#[trigger] scope.push(fun as u32)[j]) as int;
        &&& 1 <= l && 4 * l + 3 < n4.nodes@.len()
        &&& live(n4.nodes@, n4.reuse@, l)
        &&& spec_kind(n4.nodes@, l) == 1
        &&& n4.nodes@[4 * l + 1] != (4 * l + 1) as u32
    } by {
        if j < scope.len() {
            let l = scope[j] as int;
            assert(live(n0.nodes@, n0.reuse@, l));
            assert(live(n1.nodes@, n1.reuse@, l) && spec_kind(n1.nodes@, l) == 1);
            assert(n1.nodes@[4 * l + 1] != (4 * l + 1) as u32);
            assert(l != fun && l != era);
            assert(0 <= 4 * l && 4 * l + 3 < n4.nodes@.len());
            assert(n4.nodes@[4 * l + 3] == n2.nodes@[4 * l + 3]);
            assert(n2.nodes@[4 * l + 3] == n1.nodes@[4 * l + 3]);
            assert(n4.nodes@[4 * l + 1] == n2.nodes@[4 * l + 1]);
            assert(n2.nodes@[4 * l + 1] == n1.nodes@[4 * l + 1]);
        } else {
            assert(n4.nodes@[4 * fun + 1] == (4 * era) as u32);
        }
    }
    assert(scope_ok(n4, scope.push(fun as u32)));
}

/// What the encoder builds, word for word: from a state, a reuse pool,
/// the last minted label and the scope stack, the state, pool, label and
/// result port after wiring `t` in. An application allocates one kind-1
/// node and wires the two branches to its principal and first auxiliary
/// port; an abstraction allocates its binder and a paired placeholder
/// eraser; a variable's first occurrence takes over the binder's wire and
/// reclaims the eraser, and every later occurrence chains in a duplicator
/// with a fresh label.
pub open spec fn encode_spec(s: Seq<u32>, reuse: Seq<u32>, label: int, scope: Seq<u32>, t: Term) -> (
    Seq<u32>,
    Seq<u32>,
    int,
    int,
)
    decreases t,
{
    match t {
        Term::App { fun, arg } => {
            let (s1, r1, app) = alloc_spec(s, reuse, 1);
            let (s2, r2, l2, f) = encode_spec(s1, r1, label, scope, *fun);
            let s3 = s2.update(4 * app, f as u32).update(f, (4 * app) as u32);
            let (s4, r4, l4, a) = encode_spec(s3, r2, l2, scope, *arg);
            let s5 = s4.update(4 * app + 1, a as u32).update(a, (4 * app + 1) as u32);
            (s5, r4, l4, 4 * app + 2)
        },
        Term::Lam { bod } => {
            let (s1, r1, fun) = alloc_spec(s, reuse, 1);
            let (s2, r2, era) = alloc_spec(s1, r1, 0);
            let s3 = s2.update(4 * fun + 1, (4 * era) as u32).update(4 * era, (4 * fun + 1) as u32);
            let s4 = s3.update(4 * era + 1, (4 * era + 2) as u32).update(
                4 * era + 2,
                (4 * era + 1) as u32,
            );
            let (s5, r5, l5, b) = encode_spec(s4, r2, label, scope.push(fun as u32), *bod);
            let s6 = s5.update(4 * fun + 2, b as u32).update(b, (4 * fun + 2) as u32);
            (s6, r5, l5, 4 * fun)
        },
        Term::Var { idx } => {
            let lam = scope[scope.len() - 1 - idx] as int;
            let arg = s[4 * lam + 1] as int;
            if s[4 * (arg / 4) + 3] as int / 4 == 0 {
                (s, reuse.push((arg / 4) as u32), label, 4 * lam + 1)
            } else {
                let (s1, r1, dup) = alloc_spec(s, reuse, label + 1);
                let s2 = s1.update(4 * dup + 1, arg as u32).update(arg, (4 * dup + 1) as u32);
                let s3 = s2.update(4 * dup, (4 * lam + 1) as u32).update(
                    4 * lam + 1,
                    (4 * dup) as u32,
                );
                (s3, r1, label + 1, 4 * dup + 2)
            }
        },
    }
}

/// Wires `term` into the net. The scope stack holds the binder node of
/// each enclosing abstraction, innermost last; `label` is the last
/// duplicator label minted. Returns the term's result port, which the
/// caller must link at once: until then the net is symmetric except at
/// that one port.
#[verifier::rlimit(100)]
fn encode(net: &mut Net, label: &mut u32, scope: &mut Vec<u32>, term: &Term) -> (r: u32)
    requires
        enc_state(*old(net)),
        sym(old(net).nodes@, old(net).reuse@),
        scope_ok(*old(net), old(scope)@),
        scoped(*term, old(scope)@.len() as nat),
        1 <= *old(label),
        *old(label) + term_size(*term) <= 0x3FFF_FFFF,
        old(net).nodes@.len() + 8 * term_size(*term) <= NET_MAX_WORDS,
    ensures
        enc_state(*final(net)),
        scope_ok(*final(net), old(scope)@),
        final(scope)@ == old(scope)@,
        old(net).nodes@.len() <= final(net).nodes@.len() <= old(net).nodes@.len() + 8 * term_size(
            *term,
        ),
        *old(label) <= *final(label) <= *old(label) + term_size(*term),
        r % 4 != 3 && 4 <= r && (r as int) < final(net).nodes@.len(),
        live(final(net).nodes@, final(net).reuse@, r as int / 4),
        spec_kind(final(net).nodes@, r as int / 4) != 0,
        sym_except(final(net).nodes@, final(net).reuse@, r as int),
        // where the result port can be: on a node that was not yet live,
        // or the binding port of a binder in scope
        !live(old(net).nodes@, old(net).reuse@, r as int / 4) || (r % 4 == 1 && old(
            scope,
        )@.contains((r / 4) as u32)),
        // unlinked ports of surviving nodes stay unlinked but the result
        keeps_loops(*old(net), *final(net), set![r as int]),
        // nodes other than spent erasers stay live, with their kind
        keeps_kinds(*old(net), *final(net)),
        // the result, word for word
        ({
            let (s1, r1, l1, p1) = encode_spec(
                old(net).nodes@,
                old(net).reuse@,
                *old(label) as int,
                old(scope)@,
                *term,
            );
            &&& final(net).nodes@ == s1
            &&& final(net).reuse@ == r1
            &&& *final(label) as int == l1
            &&& r as int == p1
        }),
    decreases *term,
{
    match term {
        Term::App { fun, arg } => {
            let ghost n0 = *net;
            let app = new_node(net, 1);
            proof {
                lemma_alloc_keeps_enc(n0, *net, scope@, 1, app as int);
            }
            let ghost n1 = *net;
            let f = encode(net, label, scope, fun);
            let ghost n2 = *net;
            proof {
                // the first auxiliary branch is done; its result is not a
                // port of the application node, whose ports still self-loop
                assert(f as int / 4 != app as int) by {
                    if live(n1.nodes@, n1.reuse@, f as int / 4) {
                        if scope@.contains((f / 4) as u32) {
                            let j = choose|j: int|
                                0 <= j < scope@.len() && scope@[j] == (f / 4) as u32;
                            assert(live(n0.nodes@, n0.reuse@, scope@[j] as int));
                        }
                    }
                }
                lemma_keeps_kinds_at(n1, n2, app as int);
                lemma_keeps_loops_at(n1, n2, set![f as int], 4 * app as int);
                lemma_keeps_loops_at(n1, n2, set![f as int], 4 * app + 1);
                lemma_keeps_loops_at(n1, n2, set![f as int], 4 * app + 2);
            }
            link(net, port(app, 0), f);
            proof {
                lemma_heal(n2.nodes@, n2.reuse@, 4 * app as int, f as int);
                lemma_link_keeps_enc(n2, *net, scope@, 4 * app as int, f as int);
            }
            let ghost n3 = *net;
            let a = encode(net, label, scope, arg);
            let ghost n4 = *net;
            proof {
                assert(a as int / 4 != app as int) by {
                    if live(n3.nodes@, n3.reuse@, a as int / 4) {
                        if scope@.contains((a / 4) as u32) {
                            let j = choose|j: int|
                                0 <= j < scope@.len() && scope@[j] == (a / 4) as u32;
                            assert(live(n0.nodes@, n0.reuse@, scope@[j] as int));
                        }
                    }
                }
                lemma_keeps_kinds_at(n2, n3, app as int);
                lemma_keeps_kinds_at(n3, n4, app as int);
                lemma_keeps_loops_at(n2, n3, set![4 * app as int, f as int], 4 * app + 1);
                lemma_keeps_loops_at(n2, n3, set![4 * app as int, f as int], 4 * app + 2);
                lemma_keeps_loops_at(n3, n4, set![a as int], 4 * app + 1);
                lemma_keeps_loops_at(n3, n4, set![a as int], 4 * app + 2);
            }
            link(net, port(app, 1), a);
            proof {
                lemma_heal(n4.nodes@, n4.reuse@, 4 * app + 1, a as int);
                lemma_link_keeps_enc(n4, *net, scope@, 4 * app + 1, a as int);
                lemma_keeps_kinds_at(n4, *net, app as int);
                lemma_keeps_loops_at(n4, *net, set![4 * app + 1, a as int], 4 * app + 2);
                lemma_virgin(net.nodes@, net.reuse@, 4 * app + 2);
            }
            proof {
                // chain the two preservation facts across the five steps
                lemma_keeps_kinds_trans(n0, n1, n2);
                lemma_keeps_kinds_trans(n0, n2, n3);
                lemma_keeps_kinds_trans(n0, n3, n4);
                lemma_keeps_kinds_trans(n0, n4, *net);
                let ghost e1 = Set::<int>::empty().union(set![f as int]);
                lemma_keeps_loops_trans(n0, n1, n2, Set::empty(), set![f as int]);
                let ghost e2 = e1.union(set![4 * app as int, f as int]);
                lemma_keeps_loops_trans(n0, n2, n3, e1, set![4 * app as int, f as int]);
                let ghost e3 = e2.union(set![a as int]);
                lemma_keeps_loops_trans(n0, n3, n4, e2, set![a as int]);
                let ghost e4 = e3.union(set![4 * app + 1, a as int]);
                lemma_keeps_loops_trans(n0, n4, *net, e3, set![4 * app + 1, a as int]);
                // every port the exceptions name other than the result was
                // either fresh or handed out dangling, never self-looped
                assert(keeps_loops(n0, *net, set![4 * app + 2])) by {
                    reveal(keeps_loops);
                    assert forall|c0: int|
                        is_wire_cell(n0.nodes@, c0) && live(n0.nodes@, n0.reuse@, c0 / 4)
                            && n0.nodes@[c0] == c0 as u32 && !set![4 * app + 2].contains(c0) && (
                        spec_kind(n0.nodes@, c0 / 4) != 0 || c0 / 4
                            == 0) implies #[trigger] net.nodes@[c0] == c0 as u32 by {
                        assert(c0 / 4 != app as int);
                        if c0 == f as int {
                            lemma_keeps_kinds_at(n0, n1, c0 / 4);
                            lemma_keeps_loops_at(n0, n1, Set::empty(), c0);
                            lemma_result_not_self(n1, scope@, f as int, c0);
                        } else if c0 == a as int {
                            lemma_keeps_kinds_at(n0, n1, c0 / 4);
                            lemma_keeps_kinds_at(n1, n2, c0 / 4);
                            lemma_keeps_kinds_at(n2, n3, c0 / 4);
                            lemma_keeps_loops_at(n0, n3, e2, c0);
                            lemma_result_not_self(n3, scope@, a as int, c0);
                        } else {
                            assert(!e4.contains(c0));
                            lemma_keeps_loops_at(n0, *net, e4, c0);
                        }
                    }
                }
            }
            port(app, 2)
        },
        Term::Lam { bod } => {
            let ghost n0 = *net;
            let fun = new_node(net, 1);
            proof {
                lemma_alloc_keeps_enc(n0, *net, scope@, 1, fun as int);
            }
            let ghost n1 = *net;
            let era = new_node(net, 0);
            proof {
                lemma_alloc_preserves_sym(n1.nodes@, n1.reuse@, 0);
            }
            let ghost n2 = *net;
            link(net, port(fun, 1), port(era, 0));
            proof {
                assert(era as int != fun as int);
                lemma_virgin(n2.nodes@, n2.reuse@, 4 * era as int);
                lemma_heal(n2.nodes@, n2.reuse@, 4 * fun + 1, 4 * era as int);
            }
            let ghost n3 = *net;
            link(net, port(era, 1), port(era, 2));
            let ghost n4 = *net;
            proof {
                lemma_virgin(n3.nodes@, n3.reuse@, 4 * era + 2);
                lemma_heal(n3.nodes@, n3.reuse@, 4 * era + 1, 4 * era + 2);
                lemma_lam_setup(n0, n1, n2, n3, n4, scope@, fun as int, era as int);
                assert(scope_ok(*net, scope@.push(fun)));
            }
            scope.push(fun);
            let b = encode(net, label, scope, bod);
            let ghost n5 = *net;
            scope.pop();
            proof {
                assert(scope@ =~= old(scope)@);
                // the body's result is not one of the binder's free ports
                assert(4 * fun + 2 != b as int && 4 * fun as int != b as int) by {
                    if live(n4.nodes@, n4.reuse@, b as int / 4) {
                        assert(b % 4 == 1);
                    }
                }
                lemma_keeps_kinds_at(n4, n5, fun as int);
                lemma_keeps_loops_at(n4, n5, set![b as int], 4 * fun as int);
                lemma_keeps_loops_at(n4, n5, set![b as int], 4 * fun + 2);
            }
            link(net, port(fun, 2), b);
            proof {
                lemma_heal(n5.nodes@, n5.reuse@, 4 * fun + 2, b as int);
                lemma_link_keeps_enc(n5, *net, scope@, 4 * fun + 2, b as int);
                lemma_keeps_kinds_at(n5, *net, fun as int);
                lemma_keeps_loops_at(n5, *net, set![4 * fun + 2, b as int], 4 * fun as int);
                lemma_virgin(net.nodes@, net.reuse@, 4 * fun as int);
            }
            proof {
                lemma_keeps_kinds_trans(n0, n1, n4);
                lemma_keeps_kinds_trans(n0, n4, n5);
                lemma_keeps_kinds_trans(n0, n5, *net);
                let ghost e1 = Set::<int>::empty().union(set![4 * fun + 1]);
                lemma_keeps_loops_trans(n0, n1, n4, Set::empty(), set![4 * fun + 1]);
                let ghost e2 = e1.union(set![b as int]);
                lemma_keeps_loops_trans(n0, n4, n5, e1, set![b as int]);
                let ghost e3 = e2.union(set![4 * fun + 2, b as int]);
                lemma_keeps_loops_trans(n0, n5, *net, e2, set![4 * fun + 2, b as int]);
                assert(keeps_loops(n0, *net, set![4 * fun as int])) by {
                    reveal(keeps_loops);
                    assert forall|c0: int|
                        is_wire_cell(n0.nodes@, c0) && live(n0.nodes@, n0.reuse@, c0 / 4)
                            && n0.nodes@[c0] == c0 as u32 && !set![4 * fun as int].contains(c0) && (
                        spec_kind(n0.nodes@, c0 / 4) != 0 || c0 / 4
                            == 0) implies #[trigger] net.nodes@[c0] == c0 as u32 by {
                        assert(c0 / 4 != fun as int && c0 / 4 != era as int);
                        if c0 == b as int {
                            lemma_keeps_kinds_at(n0, n1, c0 / 4);
                            lemma_keeps_kinds_at(n1, n4, c0 / 4);
                            lemma_keeps_loops_at(n0, n4, e1, c0);
                            lemma_result_not_self(n4, scope@.push(fun), b as int, c0);
                        } else {
                            assert(!e3.contains(c0));
                            lemma_keeps_loops_at(n0, *net, e3, c0);
                        }
                    }
                }
            }
            port(fun, 0)
        },
        Term::Var { idx } => {
            let n = scope.len() - 1 - (*idx as usize);
            let lam = scope[n];
            let arg = enter(net, port(lam, 1));
            proof {
                assert(live(old(net).nodes@, old(net).reuse@, lam as int));
                crate::net::lemma_sym_at(old(net).nodes@, old(net).reuse@, 4 * lam + 1);
                assert(old(net).nodes@[arg as int] == (4 * lam + 1) as u32);
                assert(live(old(net).nodes@, old(net).reuse@, arg as int / 4));
                // the binder's wire never reaches the root anchor
                assert(arg as int / 4 != 0) by {
                    if arg == 0 || arg == 1 || arg == 2 {
                        assert(old(net).nodes@[arg as int] == arg);
                    }
                }
            }
            if kind(net, node(arg)) == 0 {
                // first occurrence: take the binder's wire over from the
                // placeholder eraser and reclaim it
                proof {
                    reveal(eras_paired);
                    let e = arg as int / 4;
                    // the partner is the eraser's principal port: its
                    // auxiliary ports are wired to each other
                    assert(arg as int == 4 * e) by {
                        if arg as int == 4 * e + 1 || arg as int == 4 * e + 2 {
                            assert(old(net).nodes@[4 * e + 1] == (4 * e + 2) as u32);
                        }
                    }
                    lemma_release(old(net).nodes@, old(net).reuse@, 4 * lam + 1, e);
                    assert(old(scope)@.contains(lam)) by {
                        assert(old(scope)@[n as int] == lam);
                    }
                }
                net.reuse.push(node(arg));
                proof {
                    reveal(eras_paired);
                    let e = arg as int / 4;
                    assert(net.reuse@ == old(net).reuse@.push((arg / 4) as u32));
                    assert forall|m: int|
                        #[trigger] live(net.nodes@, net.reuse@, m) && m >= 1 && spec_kind(
                            net.nodes@,
                            m,
                        ) == 0 implies net.nodes@[4 * m + 1] == (4 * m + 2) as u32 && net.nodes@[4
                        * m + 2] == (4 * m + 1) as u32 by {
                        assert(live(old(net).nodes@, old(net).reuse@, m));
                    }
                    assert(enc_state(*net));
                    assert forall|j: int| 0 <= j < scope@.len() implies {
                        let l = (#[trigger] scope@[j]) as int;
                        &&& 1 <= l && 4 * l + 3 < net.nodes@.len()
                        &&& live(net.nodes@, net.reuse@, l)
                        &&& spec_kind(net.nodes@, l) == 1
                        &&& net.nodes@[4 * l + 1] != (4 * l + 1) as u32
                    } by {
                        let l = scope@[j] as int;
                        assert(spec_kind(old(net).nodes@, l) == 1);
                        assert(l != e);
                    }
                    assert(live(net.nodes@, net.reuse@, lam as int));
                    assert(net.nodes@ == old(net).nodes@);
                    assert(keeps_kinds(*old(net), *net)) by {
                        reveal(keeps_kinds);
                        assert forall|m: int|
                            live(old(net).nodes@, old(net).reuse@, m) && spec_kind(
                                old(net).nodes@,
                                m,
                            ) != 0 implies #[trigger] live(net.nodes@, net.reuse@, m) && spec_kind(
                            net.nodes@,
                            m,
                        ) == spec_kind(old(net).nodes@, m) by {
                            assert(m != e);
                        }
                    }
                    assert(keeps_loops(*old(net), *net, set![4 * lam + 1])) by {
                        reveal(keeps_loops);
                    }
                }
                port(lam, 1)
            } else {
                // later occurrence: chain a fresh duplicator in
                *label = *label + 1;
                let ghost n0 = *net;
                let dup = new_node(net, *label);
                proof {
                    lemma_alloc_keeps_enc(n0, *net, scope@, *label as int, dup as int);
                    assert(net.nodes@[arg as int] == (4 * lam + 1) as u32);
                }
                let ghost n1 = *net;
                link(net, port(dup, 1), arg);
                proof {
                    assert(arg as int / 4 != dup as int);
                    assert(live(n1.nodes@, n1.reuse@, arg as int / 4));
                    assert(spec_kind(n1.nodes@, arg as int / 4) != 0);
                    assert(n1.nodes@[arg as int] != arg);
                    lemma_steal(n1.nodes@, n1.reuse@, 4 * dup + 1, arg as int);
                    lemma_link_keeps_enc(n1, *net, scope@, 4 * dup + 1, arg as int);
                    lemma_keeps_kinds_at(n1, *net, dup as int);
                    lemma_keeps_kinds_at(n1, *net, lam as int);
                    lemma_keeps_loops_at(n1, *net, set![4 * dup + 1, arg as int], 4 * dup as int);
                    lemma_keeps_loops_at(n1, *net, set![4 * dup + 1, arg as int], 4 * dup + 2);
                }
                let ghost n2 = *net;
                link(net, port(dup, 0), port(lam, 1));
                proof {
                    assert(n2.nodes@[4 * dup as int] == (4 * dup) as u32);
                    lemma_heal(n2.nodes@, n2.reuse@, 4 * dup as int, 4 * lam + 1);
                    lemma_link_keeps_enc(n2, *net, scope@, 4 * dup as int, 4 * lam + 1);
                    lemma_keeps_kinds_at(n2, *net, dup as int);
                    lemma_keeps_loops_at(n2, *net, set![4 * dup as int, 4 * lam + 1], 4 * dup + 2);
                    lemma_virgin(net.nodes@, net.reuse@, 4 * dup + 2);
                    lemma_keeps_kinds_trans(n0, n1, n2);
                    lemma_keeps_kinds_trans(n0, n2, *net);
                    let ghost e1 = Set::<int>::empty().union(set![4 * dup + 1, arg as int]);
                    lemma_keeps_loops_trans(n0, n1, n2, Set::empty(), set![4 * dup + 1, arg as int]);
                    let ghost e2 = e1.union(set![4 * dup as int, 4 * lam + 1]);
                    lemma_keeps_loops_trans(n0, n2, *net, e1, set![4 * dup as int, 4 * lam + 1]);
                    assert(keeps_loops(n0, *net, set![4 * dup + 2])) by {
                        reveal(keeps_loops);
                        assert forall|c0: int|
                            is_wire_cell(n0.nodes@, c0) && live(n0.nodes@, n0.reuse@, c0 / 4)
                                && n0.nodes@[c0] == c0 as u32 && !set![4 * dup + 2].contains(c0)
                                && (spec_kind(n0.nodes@, c0 / 4) != 0 || c0 / 4
                                == 0) implies #[trigger] net.nodes@[c0] == c0 as u32 by {
                            assert(c0 / 4 != dup as int);
                            assert(c0 != arg as int && c0 != 4 * lam + 1);
                            assert(!e2.contains(c0));
                            lemma_keeps_loops_at(n0, *net, e2, c0);
                        }
                    }
                }
                port(dup, 2)
            }
        },
    }
}

/// Encodes a closed term as a net whose root anchor is wired to the
/// term's result port. Rejects exactly the terms that are not closed or
/// that are too large for the address space. The net it builds is what
/// `encode_spec` says, word for word, with the root anchor wired to the
/// term's result port; it is well-formed, its live graph is
/// wire-symmetric, and its reuse pool is duplicate-free.
pub fn to_net(term: &Term) -> (r: Option<Net>)
    ensures
        (r is Some) == (scoped(*term, 0) && term_size(*term) <= ENCODE_MAX_SIZE),
        r matches Some(n) ==> {
            &&& wf(n)
            &&& sym(n.nodes@, n.reuse@)
            &&& distinct_reuse(n.reuse@)
            &&& n.nodes@[n.nodes@[0] as int] == 0
            &&& n.nodes@.len() <= 4 + 8 * term_size(*term)
        },
        // the encoding, word for word
        r matches Some(n) ==> ({
            let (s1, r1, l1, ptr) = encode_spec(
                seq![0u32, 1u32, 2u32, 0u32],
                Seq::empty(),
                1,
                Seq::empty(),
                *term,
            );
            &&& n.nodes@ == s1.update(0, ptr as u32).update(ptr, 0u32)
            &&& n.reuse@ == r1
        }),
{
    let sz = term_size_capped(term);
    if sz > ENCODE_MAX_SIZE {
        return None;
    }
    if !check_scope(term, 0) {
        return None;
    }
    let mut net = Net { nodes: vec![0u32, 1u32, 2u32, 0u32], reuse: Vec::new() };
    let mut label: u32 = 1;
    let mut scope: Vec<u32> = Vec::new();
    proof {
        reveal(crate::net::sym);
        reveal(eras_paired);
        assert(net.nodes@ =~= seq![0u32, 1u32, 2u32, 0u32]);
        assert(net.reuse@ =~= Seq::<u32>::empty());
        assert(scope@ =~= Seq::<u32>::empty());
        assert(enc_state(net));
        assert forall|p: int|
            is_wire_cell(net.nodes@, p) && live(net.nodes@, net.reuse@, p / 4) implies {
                &&& live(net.nodes@, net.reuse@, (#[trigger] net.nodes@[p]) as int / 4)
                &&& net.nodes@[p] % 4 != 3
                &&& net.nodes@[p] < net.nodes@.len()
                &&& net.nodes@[net.nodes@[p] as int] == p as u32
            } by {
            assert(net.nodes@[p] == p as u32);
        }
        assert(sym(net.nodes@, net.reuse@));
    }
    let ptr = encode(&mut net, &mut label, &mut scope, term);
    let ghost done = net;
    proof {
        assert(live(done.nodes@, done.reuse@, 0));
    }
    link(&mut net, 0, ptr);
    proof {
        lemma_heal(done.nodes@, done.reuse@, 0, ptr as int);
    }
    Some(net)
}

/// Fuel for the decoder's walk: more steps than any real walk takes.
pub const DECODE_FUEL: u64 = 0xFFFF_FFFF_FFFF_FFFF;

/// What the decoder reads at port `next`, nesting depth `depth`, with
/// `depths` the depths recorded for binder nodes so far and `exit` the
/// stack of auxiliary slots the walk entered duplicators through: the
/// decoded term and the two structures afterwards, or `None` where the
/// walk fails or runs out of fuel. Arriving at a kind-1 node through its
/// principal port reads an abstraction, through its first auxiliary port
/// a variable of the binder met `depth - depths[node] - 1` levels up,
/// through its second an application; any other node is a duplicator the
/// walk passes through, remembering on the way up which slot it came in
/// by, and retracing that slot on the way back down.
pub open spec fn decode_spec(
    s: Seq<u32>,
    depths: Seq<u32>,
    exit: Seq<u32>,
    next: u32,
    depth: u32,
    fuel: nat,
) -> Option<(Term, Seq<u32>, Seq<u32>)>
    decreases fuel,
{
    if fuel == 0 {
        None
    } else {
        let prev = s[next as int];
        let pn = prev as int / 4;
        let ps = prev as int % 4;
        if spec_kind(s, pn) == 1 {
            if ps == 0 {
                if depth == u32::MAX {
                    None
                } else {
                    match decode_spec(
                        s,
                        depths.update(pn, depth),
                        exit,
                        (4 * pn + 2) as u32,
                        (depth + 1) as u32,
                        (fuel - 1) as nat,
                    ) {
                        Some((b, d2, e2)) => Some((Term::Lam { bod: Box::new(b) }, d2, e2)),
                        None => None,
                    }
                }
            } else if ps == 1 {
                if depth > depths[pn] {
                    Some((Term::Var { idx: (depth - depths[pn] - 1) as u32 }, depths, exit))
                } else {
                    None
                }
            } else {
                match decode_spec(s, depths, exit, (4 * pn) as u32, depth, (fuel - 1) as nat) {
                    Some((f, d2, e2)) => match decode_spec(
                        s,
                        d2,
                        e2,
                        (4 * pn + 1) as u32,
                        depth,
                        (fuel - 1) as nat,
                    ) {
                        Some((a, d3, e3)) => Some(
                            (Term::App { fun: Box::new(f), arg: Box::new(a) }, d3, e3),
                        ),
                        None => None,
                    },
                    None => None,
                }
            }
        } else if ps > 0 {
            match decode_spec(s, depths, exit.push(ps as u32), (4 * pn) as u32, depth, (fuel
                - 1) as nat) {
                Some((t, d2, e2)) => {
                    if e2.len() > 0 {
                        Some((t, d2, e2.drop_last()))
                    } else {
                        None
                    }
                },
                None => None,
            }
        } else {
            if exit.len() == 0 {
                None
            } else {
                let e = exit.last() as int;
                match decode_spec(s, depths, exit.drop_last(), (4 * pn + e) as u32, depth, (fuel
                    - 1) as nat) {
                    Some((t, d2, e2)) => Some((t, d2, e2.push(e as u32))),
                    None => None,
                }
            }
        }
    }
}

/// The decoder's walk, mirroring `decode_spec` step for step.
fn decode(
    net: &Net,
    depths: &mut Vec<u32>,
    exit: &mut Vec<u32>,
    next: u32,
    depth: u32,
    fuel: u64,
) -> (r: Option<Term>)
    requires
        wf(*net),
        old(depths)@.len() == net.nodes@.len() / 4,
        (next as int) < net.nodes@.len(),
        next % 4 != 3,
        forall|j: int| 0 <= j < old(exit)@.len() ==> (#[trigger] old(exit)@[j]) <= 2,
    ensures
        final(depths)@.len() == old(depths)@.len(),
        forall|j: int| 0 <= j < final(exit)@.len() ==> (#[trigger] final(exit)@[j]) <= 2,
        ({
            let walk = decode_spec(net.nodes@, old(depths)@, old(exit)@, next, depth, fuel as nat);
            match walk {
                Some(p) => r == Some(p.0) && final(depths)@ == p.1 && final(exit)@ == p.2,
                None => r is None,
            }
        }),
    decreases fuel,
{
    if fuel == 0 {
        return None;
    }
    let prev = enter(net, next);
    let pn = node(prev);
    let ps = slot(prev);
    if kind(net, pn) == 1 {
        if ps == 0 {
            // an abstraction: record its depth, decode its body
            if depth == u32::MAX {
                return None;
            }
            depths.set(pn as usize, depth);
            match decode(net, depths, exit, port(pn, 2), depth + 1, fuel - 1) {
                Some(b) => Some(Term::Lam { bod: Box::new(b) }),
                None => None,
            }
        } else if ps == 1 {
            // a variable occurrence of the binder at its recorded depth
            let d = depths[pn as usize];
            if depth > d {
                Some(Term::Var { idx: depth - d - 1 })
            } else {
                None
            }
        } else {
            // an application: decode function, then argument
            let f = match decode(net, depths, exit, port(pn, 0), depth, fuel - 1) {
                Some(f) => f,
                None => {
                    return None;
                },
            };
            match decode(net, depths, exit, port(pn, 1), depth, fuel - 1) {
                Some(a) => Some(Term::App { fun: Box::new(f), arg: Box::new(a) }),
                None => None,
            }
        }
    } else if ps > 0 {
        // through a duplicator, upward: remember the way in
        exit.push(ps);
        match decode(net, depths, exit, port(pn, 0), depth, fuel - 1) {
            Some(t) => {
                if exit.len() > 0 {
                    exit.pop();
                    Some(t)
                } else {
                    None
                }
            },
            None => None,
        }
    } else {
        // through a duplicator, downward: retrace the way in
        match exit.pop() {
            None => None,
            Some(e) => {
                match decode(net, depths, exit, port(pn, e), depth, fuel - 1) {
                    Some(t) => {
                        exit.push(e);
                        Some(t)
                    },
                    None => None,
                }
            },
        }
    }
}

/// Reads the term back out of a net in normal form, starting from the
/// root anchor's wire at depth 0: exactly the term `decode_spec` reads,
/// whenever that term is closed. `None` where the walk fails (an
/// unmatched exit, a variable above its binder's recorded depth, a walk
/// that never returns) or where its term is not closed.
pub fn from_net(net: &Net) -> (r: Option<Term>)
    requires
        wf(*net),
    ensures
        r matches Some(t) ==> scoped(t, 0),
        ({
            let walk = decode_spec(
                net.nodes@,
                Seq::new(net.nodes@.len() / 4, |i: int| 0u32),
                Seq::empty(),
                0,
                0,
                DECODE_FUEL as nat,
            );
            &&& (walk is None ==> r is None)
            &&& (r matches Some(t) ==> walk matches Some(p) && p.0 == t)
            &&& (walk matches Some(p) ==> (scoped(p.0, 0) && term_size(p.0) < u64::MAX ==> r
                == Some(p.0)))
        }),
{
    let n_nodes = net.nodes.len() / 4;
    let mut depths: Vec<u32> = vec![0u32; n_nodes];
    let mut exit: Vec<u32> = Vec::new();
    proof {
        assert(depths@ =~= Seq::new(net.nodes@.len() / 4, |i: int| 0u32));
        assert(exit@ =~= Seq::<u32>::empty());
    }
    match decode(net, &mut depths, &mut exit, 0, 0, DECODE_FUEL) {
        None => None,
        Some(t) => {
            let sz = term_size_capped(&t);
            if sz == u64::MAX {
                return None;
            }
            if check_scope(&t, 0) {
                Some(t)
            } else {
                None
            }
        },
    }
}

/// Decides the wire-symmetry invariant of the live graph, the property
/// the rewrite rules are proved to preserve: every port of a node not in
/// the reuse pool is wired to a port of a live node that points back.
pub fn wires_symmetric(net: &Net) -> (r: bool)
    requires
        wf(*net),
    ensures
        r == sym(net.nodes@, net.reuse@),
{
    proof {
        reveal(crate::net::sym);
    }
    let n_nodes = net.nodes.len() / 4;
    let mut dead: Vec<bool> = vec![false; n_nodes];
    let mut j: usize = 0;
    while j < net.reuse.len()
        invariant
            wf(*net),
            dead@.len() == net.nodes@.len() / 4,
            j <= net.reuse@.len(),
            forall|k: int|
                0 <= k < dead@.len() ==> (#[trigger] dead@[k] == net.reuse@.take(j as int).contains(
                    k as u32,
                )),
        decreases net.reuse@.len() - j,
    {
        let n = net.reuse[j];
        dead.set(n as usize, true);
        j = j + 1;
        proof {
            assert forall|k: int| 0 <= k < dead@.len() implies #[trigger] dead@[k]
                == net.reuse@.take(j as int).contains(k as u32) by {
                assert(net.reuse@.take(j as int) =~= net.reuse@.take(j - 1).push(
                    net.reuse@[j - 1],
                ));
            }
        }
    }
    proof {
        assert(net.reuse@.take(net.reuse@.len() as int) =~= net.reuse@);
    }
    let mut p: usize = 0;
    while p < net.nodes.len()
        invariant
            wf(*net),
            dead@.len() == net.nodes@.len() / 4,
            p <= net.nodes@.len(),
            forall|k: int|
                0 <= k < dead@.len() ==> (#[trigger] dead@[k] == net.reuse@.contains(k as u32)),
            forall|q: int|
                is_wire_cell(net.nodes@, q) && q < p && crate::net::live(
                    net.nodes@,
                    net.reuse@,
                    q / 4,
                ) ==> {
                    &&& crate::net::live(net.nodes@, net.reuse@, (#[trigger] net.nodes@[q]) as int
                        / 4)
                    &&& net.nodes@[net.nodes@[q] as int] == q as u32
                },
        decreases net.nodes@.len() - p,
    {
        proof {
            reveal(crate::net::sym);
        }
        if p % 4 != 3 && !dead[p / 4] {
            let q = net.nodes[p];
            if dead[(q / 4) as usize] {
                return false;
            }
            if net.nodes[q as usize] != p as u32 {
                return false;
            }
        }
        p = p + 1;
    }
    true
}

} // verus!
