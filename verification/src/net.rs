//! The interaction net: a growable array of 32-bit words, four per node,
//! plus a pool of reclaimed node indices, together with the port algebra
//! that maps a (node, slot) pair to a single word address and back.
//!
//! A node's words 0..3 are its three ports (0 the principal port, 1 and 2
//! auxiliary) followed by a header word packing `kind * 4 + meta`, where
//! `meta` is transient scratch used by the traversal in `reduce`.

use vstd::prelude::*;
use vstd::pervasive::VecAdditionalExecFns;
use vstd::seq_lib::lemma_seq_contains_after_push;

verus! {

broadcast use lemma_seq_contains_after_push;

/// Counters accumulated during reduction; observability output only.
#[derive(Clone, Debug)]
pub struct Stats {
    /// Traversal steps taken.
    pub loops: u64,
    /// Rewrite rules applied (always `betas + dupls + annis`).
    pub rules: u64,
    /// Annihilations of two kind-1 (lambda/application) nodes.
    pub betas: u64,
    /// Duplications (active pair of two distinct kinds).
    pub dupls: u64,
    /// Annihilations of nodes of equal kind other than 1.
    pub annis: u64,
}

/// The net: `nodes` holds four words per node; `reuse` the free node indices.
/// Node 0 is the root anchor, whose slot 0 is wired to the term's result port.
#[derive(Clone, Debug)]
pub struct Net {
    pub nodes: Vec<u32>,
    pub reuse: Vec<u32>,
}

pub type Port = u32;

/// Hard ceiling on the word array, so that every port fits in a `u32`
/// (and in a 32-bit `usize`) with room for one rewrite's allocations.
pub const NET_MAX_WORDS: usize = 0xFFFF_FFF0;

/// A word address `i` holds a wire (a port value) iff it is not a header.
pub open spec fn is_wire_cell(s: Seq<u32>, i: int) -> bool {
    0 <= i < s.len() && i % 4 != 3
}

/// Kind stored in node `n`'s header.
pub open spec fn spec_kind(s: Seq<u32>, n: int) -> int {
    s[4 * n + 3] as int / 4
}

/// Traversal scratch bits stored in node `n`'s header.
pub open spec fn spec_meta(s: Seq<u32>, n: int) -> int {
    s[4 * n + 3] as int % 4
}

/// Structural well-formedness of the word array: a whole number of nodes,
/// within the address ceiling, every wire holding an in-range non-header
/// port, and every header's scratch bits below 3 (so that `port(n, meta)`
/// is always a real port).
pub open spec fn wf_words(s: Seq<u32>) -> bool {
    &&& s.len() % 4 == 0
    &&& 4 <= s.len() <= NET_MAX_WORDS
    &&& forall|i: int|
        is_wire_cell(s, i) ==> (#[trigger] s[i]) < s.len() && s[i] % 4 != 3
    &&& forall|i: int|
        0 <= i < s.len() && i % 4 == 3 ==> (#[trigger] s[i]) % 4 != 3
}

/// Every reclaimed index denotes a node of the array other than the root.
pub open spec fn wf_reuse(s: Seq<u32>, reuse: Seq<u32>) -> bool {
    forall|j: int|
        0 <= j < reuse.len() ==> 1 <= (#[trigger] reuse[j]) && 4 * reuse[j] < s.len()
}

/// The invariant every net operation preserves.
pub open spec fn wf(net: Net) -> bool {
    &&& wf_words(net.nodes@)
    &&& wf_reuse(net.nodes@, net.reuse@)
}

/// No node index is reclaimed twice at once.
pub open spec fn distinct_reuse(reuse: Seq<u32>) -> bool {
    forall|j: int, k: int|
        0 <= j < k < reuse.len() ==> reuse[j] != reuse[k]
}

/// A node is live when it is in range and not reclaimed.
pub open spec fn live(s: Seq<u32>, reuse: Seq<u32>, n: int) -> bool {
    0 <= 4 * n < s.len() && !reuse.contains(n as u32)
}

/// Wire symmetry over the live part of the graph: the partner of a live
/// port is live and points back. Freed nodes may hold stale words.
#[verifier::opaque]
pub open spec fn sym(s: Seq<u32>, reuse: Seq<u32>) -> bool {
    forall|p: int|
        is_wire_cell(s, p) && live(s, reuse, p / 4) ==> {
            &&& live(s, reuse, (#[trigger] s[p]) as int / 4)
            &&& s[p] % 4 != 3
            &&& s[p] < s.len()
            &&& s[s[p] as int] == p as u32
        }
}

/// An active pair sits at wire `p`: both `p` and its partner are principal
/// ports of distinct nodes, neither the root anchor.
pub open spec fn is_active(s: Seq<u32>, p: int) -> bool {
    &&& 4 <= p < s.len()
    &&& p % 4 == 0
    &&& 4 <= s[p]
    &&& s[p] % 4 == 0
    &&& s[p] as int / 4 != p / 4
}

/// A net in normal form: no wire anywhere forms an active pair. The
/// annihilation rule clears the principal wires of the pair it reclaims,
/// so a reduced net can satisfy this even after nodes were freed.
pub open spec fn normal(s: Seq<u32>) -> bool {
    forall|p: int| !is_active(s, p)
}

/// Two word arrays agree on every wire and on every node's kind (the
/// traversal scratch bits may differ). Everything a decoder reads is equal.
pub open spec fn same_wires_kinds(s1: Seq<u32>, s2: Seq<u32>) -> bool {
    &&& s1.len() == s2.len()
    &&& forall|i: int| 0 <= i < s1.len() && i % 4 != 3 ==> s1[i] == #[trigger] s2[i]
    &&& forall|i: int| 0 <= i < s1.len() && i % 4 == 3 ==> s1[i] / 4 == #[trigger] s2[i] / 4
}

/// Address of `slot` on `node`.
pub fn port(node: u32, slot: u32) -> (r: Port)
    requires
        node < 0x4000_0000,
        slot < 4,
    ensures
        r == 4 * node + slot,
{
    node * 4 + slot
}

/// Node of a port address.
pub fn node(port: Port) -> (r: u32)
    ensures
        r == port as int / 4,
{
    port / 4
}

/// Slot of a port address.
pub fn slot(port: Port) -> (r: u32)
    ensures
        r == port as int % 4,
{
    port % 4
}

/// The port currently wired to `port` (single hop).
pub fn enter(net: &Net, port: Port) -> (r: Port)
    requires
        (port as int) < net.nodes@.len(),
    ensures
        r == net.nodes@[port as int],
{
    net.nodes[port as usize]
}

/// Kind of `node`, read from its header.
pub fn kind(net: &Net, node: u32) -> (r: u32)
    requires
        wf(*net),
        4 * node < net.nodes@.len(),
    ensures
        r == spec_kind(net.nodes@, node as int),
        r <= 0x3FFF_FFFF,
{
    net.nodes[(node * 4 + 3) as usize] / 4
}

/// Traversal scratch bits of `node`, read from its header.
pub fn meta(net: &Net, node: u32) -> (r: u32)
    requires
        wf(*net),
        4 * node < net.nodes@.len(),
    ensures
        r == spec_meta(net.nodes@, node as int),
        r <= 2,
{
    net.nodes[(node * 4 + 3) as usize] % 4
}

/// Records `meta` in `node`'s header, leaving its kind unchanged.
pub fn set_meta(net: &mut Net, node: u32, meta: u32)
    requires
        wf(*old(net)),
        4 * node < old(net).nodes@.len(),
        meta <= 2,
    ensures
        wf(*final(net)),
        final(net).nodes@ == old(net).nodes@.update(
            4 * node + 3,
            (old(net).nodes@[4 * node + 3] / 4 * 4 + meta) as u32,
        ),
        final(net).reuse@ == old(net).reuse@,
        spec_kind(final(net).nodes@, node as int) == spec_kind(old(net).nodes@, node as int),
        spec_meta(final(net).nodes@, node as int) == meta,
{
    let i = node * 4 + 3;
    let h = net.nodes[i as usize];
    net.nodes.set(i as usize, h / 4 * 4 + meta);
}

/// Wires `ptr_a` and `ptr_b` to each other, overwriting both words.
pub fn link(net: &mut Net, ptr_a: Port, ptr_b: Port)
    requires
        wf(*old(net)),
        is_wire_cell(old(net).nodes@, ptr_a as int),
        is_wire_cell(old(net).nodes@, ptr_b as int),
    ensures
        wf(*final(net)),
        final(net).nodes@ == old(net).nodes@.update(ptr_a as int, ptr_b).update(
            ptr_b as int,
            ptr_a,
        ),
        final(net).reuse@ == old(net).reuse@,
{
    net.nodes.set(ptr_a as usize, ptr_b);
    net.nodes.set(ptr_b as usize, ptr_a);
}

/// The word array, reuse pool and node index that `new_node` produces:
/// the last reclaimed index if there is one, else a node appended to the
/// array; its three ports self-looped and its header holding `kind * 4`.
pub open spec fn alloc_spec(s: Seq<u32>, reuse: Seq<u32>, kind: int) -> (Seq<u32>, Seq<u32>, int) {
    let n = if reuse.len() > 0 {
        reuse.last() as int
    } else {
        s.len() as int / 4
    };
    let s0 = if reuse.len() > 0 {
        s
    } else {
        s + seq![0u32, 0u32, 0u32, 0u32]
    };
    let r1 = if reuse.len() > 0 {
        reuse.drop_last()
    } else {
        reuse
    };
    let s1 = s0.update(4 * n, (4 * n) as u32).update(4 * n + 1, (4 * n + 1) as u32).update(
        4 * n + 2,
        (4 * n + 2) as u32,
    ).update(4 * n + 3, (4 * kind) as u32);
    (s1, r1, n)
}

/// What wire symmetry says of one live port: its partner is a live
/// port that points back.
pub proof fn lemma_sym_at(s: Seq<u32>, reuse: Seq<u32>, p: int)
    requires
        sym(s, reuse),
        is_wire_cell(s, p),
        live(s, reuse, p / 4),
    ensures
        s[p] < s.len(),
        s[p] % 4 != 3,
        live(s, reuse, s[p] as int / 4),
        s[s[p] as int] == p as u32,
{
    reveal(sym);
}

/// Allocation preserves the wire symmetry of the live graph and keeps the
/// reuse pool duplicate-free: the node it hands out was not live, becomes
/// live with its three ports wired to themselves, and no other word moves.
pub proof fn lemma_alloc_preserves_sym(s: Seq<u32>, reuse: Seq<u32>, kind: int)
    requires
        wf_words(s),
        wf_reuse(s, reuse),
        distinct_reuse(reuse),
        sym(s, reuse),
        s.len() + 4 <= NET_MAX_WORDS,
    ensures
        ({
            let (s1, r1, n) = alloc_spec(s, reuse, kind);
            &&& sym(s1, r1)
            &&& distinct_reuse(r1)
            &&& live(s1, r1, n)
            &&& 1 <= n && 4 * n + 3 < s1.len()
            &&& !live(s, reuse, n)
            &&& forall|m: int| live(s, reuse, m) ==> live(s1, r1, m)
            &&& forall|m: int| live(s1, r1, m) && m != n ==> live(s, reuse, m)
        }),
{
    reveal(sym);
    let (s1, r1, n) = alloc_spec(s, reuse, kind);
    if reuse.len() > 0 {
        assert(reuse.contains(n as u32)) by {
            assert(reuse[reuse.len() - 1] == n as u32);
        }
        assert(!live(s, reuse, n));
        assert(!r1.contains(n as u32)) by {
            if r1.contains(n as u32) {
                let j = choose|j: int| 0 <= j < r1.len() && r1[j] == n as u32;
                assert(reuse[j] == n as u32);
                assert(reuse[reuse.len() - 1] == n as u32);
                assert(false);
            }
        }
        assert forall|m: u32| r1.contains(m) implies reuse.contains(m) by {
            let j = choose|j: int| 0 <= j < r1.len() && r1[j] == m;
            assert(reuse[j] == m);
        }
    }
    assert forall|m: int| live(s, reuse, m) implies live(s1, r1, m) by {
        if r1.contains(m as u32) {
            let j = choose|j: int| 0 <= j < r1.len() && r1[j] == m as u32;
            assert(reuse[j] == m as u32);
        }
    }
    assert forall|m: int| live(s1, r1, m) && m != n implies live(s, reuse, m) by {
        if reuse.contains(m as u32) {
            let j = choose|j: int| 0 <= j < reuse.len() && reuse[j] == m as u32;
            if reuse.len() > 0 && j < reuse.len() - 1 {
                assert(r1[j] == m as u32);
                assert(r1.contains(m as u32));
            }
        }
    }
    assert forall|p: int|
        is_wire_cell(s1, p) && live(s1, r1, p / 4) implies {
            &&& live(s1, r1, (#[trigger] s1[p]) as int / 4)
            &&& s1[p] % 4 != 3
            &&& s1[p] < s1.len()
            &&& s1[s1[p] as int] == p as u32
        } by {
        if p / 4 == n {
            assert(s1[p] == p as u32);
        } else {
            assert(p < s.len() && s1[p] == s[p]);
            assert(live(s, reuse, p / 4)) by {
                if reuse.contains((p / 4) as u32) {
                    let j = choose|j: int| 0 <= j < reuse.len() && reuse[j] == (p / 4) as u32;
                    if reuse.len() > 0 && j == reuse.len() - 1 {
                        assert(p / 4 == n);
                    } else {
                        assert(r1[j] == (p / 4) as u32);
                        assert(r1.contains((p / 4) as u32));
                    }
                }
            }
            let d = s[p] as int;
            assert(s[d] == p as u32 && live(s, reuse, d / 4));
            assert(d / 4 != n);
            assert(s1[d] == s[d]);
        }
    }
}

/// Allocates a node of the given kind: pops the reuse pool if possible,
/// else grows the array by one node. The three ports of the new node are
/// wired to themselves and its header holds `kind * 4` (scratch bits 0).
pub fn new_node(net: &mut Net, kind: u32) -> (node: u32)
    requires
        wf(*old(net)),
        kind <= 0x3FFF_FFFF,
        old(net).nodes@.len() + 4 <= NET_MAX_WORDS,
    ensures
        wf(*final(net)),
        1 <= node && 4 * node + 3 < final(net).nodes@.len(),
        // where the node came from
        if old(net).reuse@.len() > 0 {
            &&& node == old(net).reuse@.last()
            &&& final(net).reuse@ == old(net).reuse@.drop_last()
            &&& final(net).nodes@.len() == old(net).nodes@.len()
        } else {
            &&& node == old(net).nodes@.len() / 4
            &&& final(net).reuse@ == old(net).reuse@
            &&& final(net).nodes@.len() == old(net).nodes@.len() + 4
        },
        // the new node's words
        final(net).nodes@[4 * node] == 4 * node,
        final(net).nodes@[4 * node + 1] == 4 * node + 1,
        final(net).nodes@[4 * node + 2] == 4 * node + 2,
        final(net).nodes@[4 * node + 3] == 4 * kind,
        spec_kind(final(net).nodes@, node as int) == kind,
        spec_meta(final(net).nodes@, node as int) == 0,
        // every other word is untouched
        forall|i: int|
            0 <= i < old(net).nodes@.len() && !(4 * node <= i <= 4 * node + 3)
                ==> final(net).nodes@[i] == #[trigger] old(net).nodes@[i],
        // exact description, for composing the rewrite rules' contracts
        ({
            let (s2, r2, n) = alloc_spec(old(net).nodes@, old(net).reuse@, kind as int);
            final(net).nodes@ == s2 && final(net).reuse@ == r2 && node as int == n
        }),
{
    let node: u32 = match net.reuse.pop() {
        Some(index) => index,
        None => {
            let n = (net.nodes.len() / 4) as u32;
            net.nodes.push(0);
            net.nodes.push(0);
            net.nodes.push(0);
            net.nodes.push(0);
            n
        },
    };
    net.nodes.set((node * 4) as usize, node * 4);
    net.nodes.set((node * 4 + 1) as usize, node * 4 + 1);
    net.nodes.set((node * 4 + 2) as usize, node * 4 + 2);
    net.nodes.set((node * 4 + 3) as usize, kind * 4);
    proof {
        let (s2, r2, n) = alloc_spec(old(net).nodes@, old(net).reuse@, kind as int);
        assert(net.nodes@ =~= s2);
        assert(net.reuse@ =~= r2);
    }
    node
}

/// The word array after annihilating the active pair `(x, y)`: the former
/// partner of each node's first auxiliary port is wired to the other's,
/// then likewise for the second auxiliary ports, and the reclaimed pair's
/// principal wires are cleared to self-loops, so a spent pair never
/// resembles an active one. The second pair of partners is read after the
/// first rewiring, which is what keeps the rule correct when the auxiliary
/// ports of `x` and `y` are wired among themselves.
pub open spec fn ani_spec(s: Seq<u32>, x: int, y: int) -> Seq<u32> {
    let p0 = s[4 * x + 1] as int;
    let p1 = s[4 * y + 1] as int;
    let s1 = s.update(p0, s[4 * y + 1]).update(p1, s[4 * x + 1]);
    let q0 = s1[4 * x + 2] as int;
    let q1 = s1[4 * y + 2] as int;
    let s2 = s1.update(q0, s1[4 * y + 2]).update(q1, s1[4 * x + 2]);
    s2.update(4 * x, (4 * x) as u32).update(4 * y, (4 * y) as u32)
}

/// Annihilation: fires on an active pair of equal kinds. Cross-wires the
/// auxiliary neighbours of `x` and `y` directly, clears the pair's
/// principal wires, and reclaims both nodes. This one rule is beta
/// reduction when `x` and `y` are kind 1.
pub fn ani_two(net: &mut Net, x: u32, y: u32)
    requires
        wf(*old(net)),
        1 <= x && 4 * x + 3 < old(net).nodes@.len(),
        1 <= y && 4 * y + 3 < old(net).nodes@.len(),
        x != y,
    ensures
        wf(*final(net)),
        final(net).nodes@ == ani_spec(old(net).nodes@, x as int, y as int),
        final(net).nodes@.len() == old(net).nodes@.len(),
        final(net).reuse@ == old(net).reuse@.push(x).push(y),
{
    let p0 = enter(net, port(x, 1));
    let p1 = enter(net, port(y, 1));
    link(net, p0, p1);
    let p0 = enter(net, port(x, 2));
    let p1 = enter(net, port(y, 2));
    link(net, p0, p1);
    net.nodes.set((x * 4) as usize, x * 4);
    net.nodes.set((y * 4) as usize, y * 4);
    net.reuse.push(x);
    net.reuse.push(y);
}

/// What one run of the reduction engine computes, step for step. The walk
/// state is the word array, the reuse pool, the stack of pending second
/// branches, the current port and the counters; each unfolding is one
/// traversal step, mirroring `reduce`'s loop exactly. The walk ends back
/// at the root anchor with nothing pending, or at one of the two overflow
/// guards.
pub open spec fn engine_spec(
    s: Seq<u32>,
    reuse: Seq<u32>,
    warp: Seq<u32>,
    next: u32,
    stats: Stats,
) -> (Seq<u32>, Seq<u32>, Stats)
    decreases u64::MAX - stats.loops,
{
    if !((next > 0 || warp.len() > 0) && stats.loops < u64::MAX) {
        (s, reuse, stats)
    } else if next == 0 {
        let w = warp.last() as int;
        engine_spec(
            s,
            reuse,
            warp.drop_last(),
            s[4 * w + 2],
            Stats { loops: (stats.loops + 1) as u64, ..stats },
        )
    } else {
        let prev = s[next as int];
        if next % 4 == 0 && prev % 4 == 0 && prev as int / 4 != 0 && prev as int / 4 != next as int
            / 4 {
            if s.len() > NET_MAX_WORDS - 8 {
                (s, reuse, stats)
            } else {
                let x = prev as int / 4;
                let y = next as int / 4;
                let stats1 = if spec_kind(s, x) == spec_kind(s, y) {
                    if spec_kind(s, x) == 1 {
                        Stats { betas: (stats.betas + 1) as u64, ..stats }
                    } else {
                        Stats { annis: (stats.annis + 1) as u64, ..stats }
                    }
                } else {
                    Stats { dupls: (stats.dupls + 1) as u64, ..stats }
                };
                let stats2 = Stats { rules: (stats1.rules + 1) as u64, ..stats1 };
                let back = s[4 * x + spec_meta(s, x)];
                let rewritten = if spec_kind(s, x) == spec_kind(s, y) {
                    (ani_spec(s, x, y), reuse.push(x as u32).push(y as u32))
                } else {
                    dup_spec(s, reuse, x, y)
                };
                engine_spec(
                    rewritten.0,
                    rewritten.1,
                    warp,
                    rewritten.0[back as int],
                    Stats { loops: (stats2.loops + 1) as u64, ..stats2 },
                )
            }
        } else if next % 4 == 0 {
            engine_spec(
                s,
                reuse,
                warp.push(next / 4),
                s[4 * (next as int / 4) + 1],
                Stats { loops: (stats.loops + 1) as u64, ..stats },
            )
        } else {
            let n = next as int / 4;
            let s2 = s.update(4 * n + 3, (s[4 * n + 3] / 4 * 4 + next % 4) as u32);
            engine_spec(
                s2,
                reuse,
                warp,
                s2[4 * n],
                Stats { loops: (stats.loops + 1) as u64, ..stats },
            )
        }
    }
}

/// Reduces the net towards normal form: walks from the root anchor's wire
/// looking for an active pair, applies the matching rewrite rule, and
/// resumes behind the pair, until the traversal returns to the root. The
/// traversal records in each node's header scratch bits which auxiliary
/// slot it last left through, so no explicit path stack is needed beyond
/// the `warp` stack of pending second branches.
///
/// A net already in normal form is left unchanged (only scratch bits may
/// move) and no rule fires, and a net whose root wire faces an active
/// pair has at least one rule fired on it. The engine stops early only if
/// the traversal step counter or the node address space would overflow,
/// neither of which a real net reaches. That the traversal leaves no
/// active pair reachable from the root on a completed run is how the
/// engine is built, but it is not proved here: it would take a theory of
/// reachability through the scratch-bit backtracking protocol.
pub fn reduce(net: &mut Net) -> (stats: Stats)
    requires
        wf(*old(net)),
    ensures
        wf(*final(net)),
        old(net).nodes@.len() <= final(net).nodes@.len(),
        stats.rules == stats.betas + stats.dupls + stats.annis,
        stats.rules <= stats.loops,
        normal(old(net).nodes@) ==> stats.rules == 0,
        stats.rules == 0 ==> same_wires_kinds(old(net).nodes@, final(net).nodes@)
            && final(net).reuse@ == old(net).reuse@,
        // the run, step for step: the final net and the counters are the
        // unique ones the walk computes, so equal nets reduce equally
        ({
            let walk = engine_spec(
                old(net).nodes@,
                old(net).reuse@,
                Seq::empty(),
                old(net).nodes@[0],
                Stats { loops: 0, rules: 0, betas: 0, dupls: 0, annis: 0 },
            );
            final(net).nodes@ == walk.0 && final(net).reuse@ == walk.1 && stats == walk.2
        }),
{
    let mut stats = Stats { loops: 0, rules: 0, betas: 0, dupls: 0, annis: 0 };
    let mut warp: Vec<u32> = Vec::new();
    let mut next: u32 = enter(net, 0);
    proof {
        assert(warp@ =~= Seq::<u32>::empty());
    }
    while (next > 0 || warp.len() > 0) && stats.loops < u64::MAX
        invariant
            wf(*net),
            old(net).nodes@.len() <= net.nodes@.len(),
            (next as int) < net.nodes@.len() && next % 4 != 3,
            forall|j: int| 0 <= j < warp@.len() ==> 4 * (#[trigger] warp@[j]) < net.nodes@.len(),
            stats.rules == stats.betas + stats.dupls + stats.annis,
            stats.rules <= stats.loops,
            normal(old(net).nodes@) ==> stats.rules == 0,
            stats.rules == 0 ==> same_wires_kinds(old(net).nodes@, net.nodes@) && net.reuse@
                == old(net).reuse@,
            engine_spec(net.nodes@, net.reuse@, warp@, next, stats) == engine_spec(
                old(net).nodes@,
                old(net).reuse@,
                Seq::empty(),
                old(net).nodes@[0],
                Stats { loops: 0, rules: 0, betas: 0, dupls: 0, annis: 0 },
            ),
        decreases u64::MAX - stats.loops,
    {
        if next == 0 {
            let w = warp.pop().unwrap();
            next = enter(net, port(w, 2));
        } else {
            let prev = enter(net, next);
            if slot(next) == 0 && slot(prev) == 0 && node(prev) != 0 && node(prev) != node(next) {
                // an active pair; check there is room for a duplication
                if net.nodes.len() > NET_MAX_WORDS - 8 {
                    return stats;
                }
                let x = node(prev);
                let y = node(next);
                proof {
                    if normal(old(net).nodes@) {
                        assert(is_active(net.nodes@, next as int));
                        assert(is_active(old(net).nodes@, next as int));
                        assert(false);
                    }
                }
                if kind(net, x) == kind(net, y) {
                    if kind(net, x) == 1 {
                        stats.betas = stats.betas + 1;
                    } else {
                        stats.annis = stats.annis + 1;
                    }
                } else {
                    stats.dupls = stats.dupls + 1;
                }
                stats.rules = stats.rules + 1;
                let m = meta(net, x);
                let back = enter(net, port(x, m));
                rewrite(net, x, y);
                next = enter(net, back);
            } else if slot(next) == 0 {
                // walk down into the node's first auxiliary branch
                warp.push(node(next));
                next = enter(net, port(node(next), 1));
            } else {
                // walk up through the principal port, recording the way back
                set_meta(net, node(next), slot(next));
                next = enter(net, port(node(next), 0));
            }
        }
        stats.loops = stats.loops + 1;
    }
    stats
}

/// Either rewrite rule, applied to a live active pair of a net whose live
/// graph is symmetric, free of self-loops outside the root, and whose
/// reuse pool is duplicate-free, leaves the net in the same state: the
/// wire symmetry invariant holds after every single rewrite.
pub proof fn lemma_rewrite_preserves_sym(s: Seq<u32>, reuse: Seq<u32>, x: int, y: int)
    requires
        wf_words(s),
        wf_reuse(s, reuse),
        distinct_reuse(reuse),
        sym(s, reuse),
        no_self_loops(s, reuse),
        1 <= x && 4 * x + 3 < s.len(),
        1 <= y && 4 * y + 3 < s.len(),
        x != y,
        !reuse.contains(x as u32),
        !reuse.contains(y as u32),
        s[4 * x] as int == 4 * y,
        s.len() + 8 <= NET_MAX_WORDS,
    ensures
        spec_kind(s, x) == spec_kind(s, y) ==> {
            &&& sym(ani_spec(s, x, y), reuse.push(x as u32).push(y as u32))
            &&& no_self_loops(ani_spec(s, x, y), reuse.push(x as u32).push(y as u32))
            &&& distinct_reuse(reuse.push(x as u32).push(y as u32))
        },
        spec_kind(s, x) != spec_kind(s, y) ==> {
            &&& sym(dup_spec(s, reuse, x, y).0, dup_spec(s, reuse, x, y).1)
            &&& no_self_loops(dup_spec(s, reuse, x, y).0, dup_spec(s, reuse, x, y).1)
            &&& distinct_reuse(dup_spec(s, reuse, x, y).1)
        },
{
    if spec_kind(s, x) == spec_kind(s, y) {
        lemma_ani_preserves_sym(s, reuse, x, y);
    } else {
        lemma_dup_preserves_sym(s, reuse, x, y);
    }
}

/// Decides whether the net is in normal form: no two principal ports
/// anywhere face each other.
pub fn is_normal(net: &Net) -> (r: bool)
    requires
        wf(*net),
    ensures
        r == normal(net.nodes@),
{
    let n_nodes = net.nodes.len() / 4;
    let mut i: usize = 0;
    while i < n_nodes
        invariant
            wf(*net),
            n_nodes == net.nodes@.len() / 4,
            i <= n_nodes,
            forall|q: int| 0 <= q < 4 * i ==> !is_active(net.nodes@, q),
        decreases n_nodes - i,
    {
        let p = (i * 4) as u32;
        let t = net.nodes[p as usize];
        if p >= 4 && t % 4 == 0 && t >= 4 && t / 4 != p / 4 {
            proof {
                assert(is_active(net.nodes@, p as int));
            }
            return false;
        }
        proof {
            assert forall|q: int| 0 <= q < 4 * (i + 1) implies !is_active(net.nodes@, q) by {
                if 4 * i <= q && q % 4 == 0 {
                    assert(q == 4 * i);
                }
            }
        }
        i = i + 1;
    }
    proof {
        assert forall|q: int| true implies !is_active(net.nodes@, q) by {
            if 4 <= q < net.nodes@.len() && q % 4 == 0 {
                assert(q < 4 * (net.nodes@.len() / 4));
            }
        }
    }
    true
}

/// No live port of a node other than the root anchor is wired to itself.
/// Encoding leaves every live port linked; the two rewrite rules keep it so.
pub open spec fn no_self_loops(s: Seq<u32>, reuse: Seq<u32>) -> bool {
    forall|c: int|
        is_wire_cell(s, c) && live(s, reuse, c / 4) && c / 4 != 0 ==> (#[trigger] s[c]) != c
}

/// The word array and reuse pool after duplicating the active pair
/// `(x, y)`: two fresh nodes `a` (of `x`'s kind) and `b` (of `y`'s kind)
/// are allocated; each former neighbour of `x` is wired to a copy of
/// `y`'s kind and each former neighbour of `y` to a copy of `x`'s kind,
/// and the four nodes are cross-linked pairwise so the two copies can go
/// on interacting. Each neighbour is read just before its rewiring, which
/// keeps the rule correct when the pair's ports are wired among
/// themselves. Finally both surviving headers have their scratch bits
/// cleared.
/// The rewiring of duplication, from the state `sb` in which the two
/// copies `a` and `b` are already allocated.
#[verifier::opaque]
pub open spec fn dup_links_spec(sb: Seq<u32>, x: int, y: int, a: int, b: int) -> Seq<u32> {
    let t1 = sb[4 * x + 1] as int;
    let s1 = sb.update(4 * b, sb[4 * x + 1]).update(t1, (4 * b) as u32);
    let t2 = s1[4 * x + 2] as int;
    let s2 = s1.update(4 * y, s1[4 * x + 2]).update(t2, (4 * y) as u32);
    let t3 = s2[4 * y + 1] as int;
    let s3 = s2.update(4 * a, s2[4 * y + 1]).update(t3, (4 * a) as u32);
    let t4 = s3[4 * y + 2] as int;
    let s4 = s3.update(4 * x, s3[4 * y + 2]).update(t4, (4 * x) as u32);
    let s5 = s4.update(4 * a + 1, (4 * b + 1) as u32).update(4 * b + 1, (4 * a + 1) as u32);
    let s6 = s5.update(4 * a + 2, (4 * y + 1) as u32).update(4 * y + 1, (4 * a + 2) as u32);
    let s7 = s6.update(4 * x + 1, (4 * b + 2) as u32).update(4 * b + 2, (4 * x + 1) as u32);
    let s8 = s7.update(4 * x + 2, (4 * y + 2) as u32).update(4 * y + 2, (4 * x + 2) as u32);
    s8.update(4 * x + 3, (s8[4 * x + 3] / 4 * 4) as u32).update(
        4 * y + 3,
        (s8[4 * y + 3] / 4 * 4) as u32,
    )
}

pub open spec fn dup_spec(s: Seq<u32>, reuse: Seq<u32>, x: int, y: int) -> (Seq<u32>, Seq<u32>) {
    let kx = spec_kind(s, x);
    let (sa, ra, a) = alloc_spec(s, reuse, kx);
    let ky = spec_kind(sa, y);
    let (sb, rb, b) = alloc_spec(sa, ra, ky);
    (dup_links_spec(sb, x, y, a, b), rb)
}

/// One word of the net after duplication's rewiring, in closed form: the
/// four copies' ports pair up crosswise, each former neighbour of the pair
/// is wired to the copy the rule sends it to, the surviving headers have
/// their scratch bits cleared, and every other word is untouched. The
/// conditions mirror the possible wirings of the pair's ports among
/// themselves.
pub open spec fn dup_cell(sb: Seq<u32>, x: int, y: int, a: int, b: int, i: int) -> u32 {
    let e1 = sb[4 * x + 1] as int;
    let e2 = sb[4 * x + 2] as int;
    let e3 = sb[4 * y + 1] as int;
    let e4 = sb[4 * y + 2] as int;
    if i == 4 * a {
        (if e1 == 4 * y + 1 {
            4 * b
        } else if e2 == 4 * y + 1 {
            4 * y
        } else if e3 == 4 * y + 2 {
            4 * x
        } else {
            e3
        }) as u32
    } else if i == 4 * b {
        (if e1 == 4 * x + 2 {
            4 * y
        } else if e1 == 4 * y + 1 {
            4 * a
        } else if e1 == 4 * y + 2 {
            4 * x
        } else {
            e1
        }) as u32
    } else if i == 4 * x {
        (if e1 == 4 * y + 2 {
            4 * b
        } else if e2 == 4 * y + 2 {
            4 * y
        } else if e3 == 4 * y + 2 {
            4 * a
        } else {
            e4
        }) as u32
    } else if i == 4 * y {
        (if e1 == 4 * x + 2 {
            4 * b
        } else if e2 == 4 * y + 1 {
            4 * a
        } else if e2 == 4 * y + 2 {
            4 * x
        } else {
            e2
        }) as u32
    } else if i == 4 * a + 1 {
        (4 * b + 1) as u32
    } else if i == 4 * b + 1 {
        (4 * a + 1) as u32
    } else if i == 4 * a + 2 {
        (4 * y + 1) as u32
    } else if i == 4 * y + 1 {
        (4 * a + 2) as u32
    } else if i == 4 * x + 1 {
        (4 * b + 2) as u32
    } else if i == 4 * b + 2 {
        (4 * x + 1) as u32
    } else if i == 4 * x + 2 {
        (4 * y + 2) as u32
    } else if i == 4 * y + 2 {
        (4 * x + 2) as u32
    } else if i == 4 * x + 3 {
        (sb[4 * x + 3] / 4 * 4) as u32
    } else if i == 4 * y + 3 {
        (sb[4 * y + 3] / 4 * 4) as u32
    } else if i == e1 {
        (4 * b) as u32
    } else if i == e2 {
        (4 * y) as u32
    } else if i == e3 {
        (4 * a) as u32
    } else if i == e4 {
        (4 * x) as u32
    } else {
        sb[i]
    }
}

/// Duplication: fires on an active pair of two different kinds and
/// propagates each node through the other. Neither original node is
/// reclaimed; two fresh nodes are allocated.
#[verifier::rlimit(100)]
#[verifier::spinoff_prover]
pub fn dup_two(net: &mut Net, x: u32, y: u32)
    requires
        wf(*old(net)),
        1 <= x && 4 * x + 3 < old(net).nodes@.len(),
        1 <= y && 4 * y + 3 < old(net).nodes@.len(),
        x != y,
        old(net).nodes@.len() + 8 <= NET_MAX_WORDS,
    ensures
        wf(*final(net)),
        final(net).nodes@ == dup_spec(old(net).nodes@, old(net).reuse@, x as int, y as int).0,
        final(net).reuse@ == dup_spec(old(net).nodes@, old(net).reuse@, x as int, y as int).1,
        old(net).nodes@.len() <= final(net).nodes@.len() <= old(net).nodes@.len() + 8,
{
    proof {
        reveal(dup_links_spec);
    }
    let kx = kind(net, x);
    let a = new_node(net, kx);
    let ky = kind(net, y);
    let b = new_node(net, ky);
    let t = enter(net, port(x, 1));
    link(net, port(b, 0), t);
    let t = enter(net, port(x, 2));
    link(net, port(y, 0), t);
    let t = enter(net, port(y, 1));
    link(net, port(a, 0), t);
    let t = enter(net, port(y, 2));
    link(net, port(x, 0), t);
    link(net, port(a, 1), port(b, 1));
    link(net, port(a, 2), port(y, 1));
    link(net, port(x, 1), port(b, 2));
    link(net, port(x, 2), port(y, 2));
    set_meta(net, x, 0);
    set_meta(net, y, 0);
}

/// Applies the rewrite rule the active pair `(x, y)` calls for: nodes of
/// equal kind annihilate, nodes of different kinds duplicate each other.
pub fn rewrite(net: &mut Net, x: u32, y: u32)
    requires
        wf(*old(net)),
        1 <= x && 4 * x + 3 < old(net).nodes@.len(),
        1 <= y && 4 * y + 3 < old(net).nodes@.len(),
        x != y,
        old(net).nodes@.len() + 8 <= NET_MAX_WORDS,
    ensures
        wf(*final(net)),
        old(net).nodes@.len() <= final(net).nodes@.len() <= old(net).nodes@.len() + 8,
        if spec_kind(old(net).nodes@, x as int) == spec_kind(old(net).nodes@, y as int) {
            &&& final(net).nodes@ == ani_spec(old(net).nodes@, x as int, y as int)
            &&& final(net).reuse@ == old(net).reuse@.push(x).push(y)
        } else {
            &&& final(net).nodes@ == dup_spec(old(net).nodes@, old(net).reuse@, x as int, y as int).0
            &&& final(net).reuse@ == dup_spec(old(net).nodes@, old(net).reuse@, x as int, y as int).1
        },
{
    if kind(net, x) == kind(net, y) {
        ani_two(net, x, y);
    } else {
        dup_two(net, x, y);
    }
}

/// Annihilation preserves the wire symmetry of the live graph, creates no
/// self-loops, and keeps the reuse pool duplicate-free: with `x` and `y`
/// reclaimed, every remaining live port again has a live partner that
/// points back.
pub proof fn lemma_ani_preserves_sym(s: Seq<u32>, reuse: Seq<u32>, x: int, y: int)
    requires
        wf_words(s),
        wf_reuse(s, reuse),
        distinct_reuse(reuse),
        sym(s, reuse),
        no_self_loops(s, reuse),
        1 <= x && 4 * x + 3 < s.len(),
        1 <= y && 4 * y + 3 < s.len(),
        x != y,
        !reuse.contains(x as u32),
        !reuse.contains(y as u32),
        s[4 * x] as int == 4 * y,
    ensures
        sym(ani_spec(s, x, y), reuse.push(x as u32).push(y as u32)),
        no_self_loops(ani_spec(s, x, y), reuse.push(x as u32).push(y as u32)),
        distinct_reuse(reuse.push(x as u32).push(y as u32)),
{
    reveal(sym);
    let r2 = reuse.push(x as u32).push(y as u32);
    let s2 = ani_spec(s, x, y);
    let a1 = 4 * x + 1;
    let a2 = 4 * x + 2;
    let b1 = 4 * y + 1;
    let b2 = 4 * y + 2;
    let p0 = s[a1] as int;
    let p1 = s[b1] as int;
    let s1 = s.update(p0, s[b1]).update(p1, s[a1]);
    let q0 = s1[a2] as int;
    let q1 = s1[b2] as int;
    let u = s[a2] as int;
    let v = s[b2] as int;
    assert(s[p0] == a1 as u32 && s[p1] == b1 as u32);
    assert(s[4 * y] == (4 * x) as u32);
    assert(s[u] == a2 as u32 && s[v] == b2 as u32);
    assert(p0 != a1 && p1 != b1 && u != a2 && v != b2);
    assert(p0 != p1 && u != v);
    // none of the rewired partner cells is a principal of the pair
    assert(p0 != 4 * x && p0 != 4 * y && p1 != 4 * x && p1 != 4 * y && u != 4 * x && u != 4 * y
        && v != 4 * x && v != 4 * y);
    assert forall|n: u32| r2.contains(n) implies
        reuse.contains(n) || n == x as u32 || n == y as u32 by {}
    // Resolve the two rewirings under every wiring of the pair's own ports.
    if a2 == p0 {
        // x's two auxiliary ports are wired to each other
        assert(u == a1 && q0 == p1);
        if b2 == p1 {
            // and so are y's: everything rewired is already dead
            assert(v == b1 && q1 == p0);
        } else {
            assert(q1 == v);
            assert(s2[p1] == v as u32 && s2[v] == p1 as u32);
        }
    } else if a2 == p1 {
        // y's first auxiliary port is wired to x's second
        assert(u == b1 && q0 == p0);
        if b2 == p0 {
            assert(v == a1 && q1 == p1);
        } else {
            assert(q1 == v);
            assert(s2[p0] == v as u32 && s2[v] == p0 as u32);
        }
    } else if b2 == p0 {
        // x's first auxiliary port is wired to y's second
        assert(v == a1 && q0 == u && q1 == p1);
        assert(s2[u] == p1 as u32 && s2[p1] == u as u32);
    } else if b2 == p1 {
        // y's two auxiliary ports are wired to each other
        assert(v == b1 && q0 == u && q1 == p0);
        assert(s2[u] == p0 as u32 && s2[p0] == u as u32);
    } else {
        // the generic case: neither second-slot partner was relinked
        assert(q0 == u && q1 == v);
        if u == b2 {
            // x's and y's second auxiliary ports are wired to each other
            assert(v == a2);
        } else {
            assert(s2[u] == v as u32 && s2[v] == u as u32);
        }
        if p0 != b1 {
            assert(s2[p0] == p1 as u32 && s2[p1] == p0 as u32);
        }
    }
    assert forall|p: int|
        is_wire_cell(s2, p) && live(s2, r2, p / 4) implies {
            &&& live(s2, r2, (#[trigger] s2[p]) as int / 4)
            &&& s2[p] % 4 != 3
            &&& s2[p] < s2.len()
            &&& s2[s2[p] as int] == p as u32
            &&& (p / 4 != 0 ==> s2[p] != p)
        } by {
        let d = s[p] as int;
        assert(p / 4 != x && p / 4 != y);
        assert(live(s, reuse, p / 4));
        assert(s[d] == p as u32 && live(s, reuse, d / 4));
        if p != p0 && p != p1 && p != q0 && p != q1 {
            assert(s2[p] == s[p]);
            assert(d / 4 != x && d / 4 != y) by {
                if d / 4 == x || d / 4 == y {
                    assert(d == 4 * x || d == a1 || d == a2 || d == 4 * y || d == b1 || d == b2);
                }
            }
            assert(d != p0 && d != p1 && d != q0 && d != q1) by {
                if d == p0 || d == p1 || d == q0 || d == q1 {
                    assert(false);
                }
            }
            assert(s2[d] == s[d]);
        }
    }
}

/// What symmetry says of an active pair's surroundings before
/// duplication: each auxiliary port's partner is live and points back,
/// the principal wires face each other, no port of the pair is
/// self-looped or wired into the fresh copies, and a wiring among the
/// pair's own ports constrains its mirror image.
spec fn dup_neighbour_facts(sb: Seq<u32>, rb: Seq<u32>, x: int, y: int, a: int, b: int) -> bool {
    let e1 = sb[4 * x + 1] as int;
    let e2 = sb[4 * x + 2] as int;
    let e3 = sb[4 * y + 1] as int;
    let e4 = sb[4 * y + 2] as int;
    &&& sb[e1] == (4 * x + 1) as u32
    &&& sb[e2] == (4 * x + 2) as u32
    &&& sb[e3] == (4 * y + 1) as u32
    &&& sb[e4] == (4 * y + 2) as u32
    &&& live(sb, rb, e1 / 4)
    &&& live(sb, rb, e2 / 4)
    &&& live(sb, rb, e3 / 4)
    &&& live(sb, rb, e4 / 4)
    &&& sb[4 * y] == (4 * x) as u32
    &&& e1 != 4 * x + 1 && e2 != 4 * x + 2 && e3 != 4 * y + 1 && e4 != 4 * y + 2
    &&& e1 / 4 != a && e1 / 4 != b && e2 / 4 != a && e2 / 4 != b
    &&& e3 / 4 != a && e3 / 4 != b && e4 / 4 != a && e4 / 4 != b
    &&& (e1 == 4 * x + 2 ==> e2 == 4 * x + 1)
    &&& (e1 == 4 * y + 1 ==> e3 == 4 * x + 1)
    &&& (e1 == 4 * y + 2 ==> e4 == 4 * x + 1)
    &&& (e2 == 4 * y + 1 ==> e3 == 4 * x + 2)
    &&& (e2 == 4 * y + 2 ==> e4 == 4 * x + 2)
    &&& (e3 == 4 * y + 2 ==> e4 == 4 * y + 1)
    &&& e1 != 4 * x && e1 != 4 * y && e2 != 4 * x && e2 != 4 * y
    &&& e3 != 4 * x && e3 != 4 * y && e4 != 4 * x && e4 != 4 * y
}

/// The rewiring step of duplication preserves wire symmetry and leaves no
/// self-loops, from any state in which the copies `a` and `b` are freshly
/// allocated: afterwards every word holds what `dup_cell` says, so the
/// four copies are fully cross-wired, each former neighbour of the pair is
/// wired to its copy, and every other live port keeps its partner.
#[verifier::rlimit(100)]
#[verifier::spinoff_prover]
pub proof fn lemma_dup_wiring(sb: Seq<u32>, rb: Seq<u32>, x: int, y: int, a: int, b: int)
    requires
        wf_words(sb),
        sym(sb, rb),
        1 <= x && 4 * x + 3 < sb.len(),
        1 <= y && 4 * y + 3 < sb.len(),
        1 <= a && 4 * a + 3 < sb.len(),
        1 <= b && 4 * b + 3 < sb.len(),
        x != y && x != a && x != b && y != a && y != b && a != b,
        live(sb, rb, x) && live(sb, rb, y) && live(sb, rb, a) && live(sb, rb, b),
        sb[4 * x] as int == 4 * y,
        sb[4 * a] == (4 * a) as u32,
        sb[4 * a + 1] == (4 * a + 1) as u32,
        sb[4 * a + 2] == (4 * a + 2) as u32,
        sb[4 * b] == (4 * b) as u32,
        sb[4 * b + 1] == (4 * b + 1) as u32,
        sb[4 * b + 2] == (4 * b + 2) as u32,
        // no self-loops, except on the root and the fresh copies
        forall|c: int|
            is_wire_cell(sb, c) && live(sb, rb, c / 4) && c / 4 != 0 && c / 4 != a && c / 4 != b
                ==> (#[trigger] sb[c]) != c,
    ensures
        dup_links_spec(sb, x, y, a, b).len() == sb.len(),
        forall|i: int|
            0 <= i < sb.len() ==> dup_links_spec(sb, x, y, a, b)[i] == dup_cell(sb, x, y, a, b, i),
        sym(dup_links_spec(sb, x, y, a, b), rb),
        no_self_loops(dup_links_spec(sb, x, y, a, b), rb),
{
    reveal(sym);
    lemma_dup_cells(sb, rb, x, y, a, b);
    let s9 = dup_links_spec(sb, x, y, a, b);
    let a1 = 4 * x + 1;
    let a2 = 4 * x + 2;
    let b1 = 4 * y + 1;
    let b2 = 4 * y + 2;
    let e1 = sb[a1] as int;
    let e2 = sb[a2] as int;
    let e3 = sb[b1] as int;
    let e4 = sb[b2] as int;
    assert forall|p: int|
        is_wire_cell(s9, p) && live(s9, rb, p / 4) implies {
            &&& live(s9, rb, (#[trigger] s9[p]) as int / 4)
            &&& s9[p] % 4 != 3
            &&& s9[p] < s9.len()
            &&& s9[s9[p] as int] == p as u32
            &&& (p / 4 != 0 ==> s9[p] != p)
        } by {
        assert(s9[p] == dup_cell(sb, x, y, a, b, p));
        if p == 4 * a || p == 4 * b || p == 4 * x || p == 4 * y || p == 4 * a + 1 || p == 4 * b + 1
            || p == 4 * a + 2 || p == 4 * y + 1 || p == 4 * x + 1 || p == 4 * b + 2 || p == 4 * x
            + 2 || p == 4 * y + 2 || p == e1 || p == e2 || p == e3 || p == e4 {
            assert(s9[s9[p] as int] == dup_cell(sb, x, y, a, b, s9[p] as int));
        } else {
            let d = sb[p] as int;
            assert(sb[d] == p as u32 && live(sb, rb, d / 4));
            assert(d / 4 != a && d / 4 != b) by {
                if d / 4 == a || d / 4 == b {
                    assert(false);
                }
            }
            assert(d / 4 != x && d / 4 != y) by {
                if d / 4 == x || d / 4 == y {
                    assert(d == 4 * x || d == a1 || d == a2 || d == 4 * y || d == b1 || d == b2);
                    assert(false);
                }
            }
            assert(d != e1 && d != e2 && d != e3 && d != e4) by {
                if d == e1 || d == e2 || d == e3 || d == e4 {
                    assert(false);
                }
            }
            assert(s9[d] == dup_cell(sb, x, y, a, b, d) && dup_cell(sb, x, y, a, b, d) == sb[d]);
        }
    }
}

/// The pointwise closed form, proved with the rewiring chain unfolded.
#[verifier::rlimit(100)]
#[verifier::spinoff_prover]
proof fn lemma_dup_cells(sb: Seq<u32>, rb: Seq<u32>, x: int, y: int, a: int, b: int)
    requires
        wf_words(sb),
        sym(sb, rb),
        1 <= x && 4 * x + 3 < sb.len(),
        1 <= y && 4 * y + 3 < sb.len(),
        1 <= a && 4 * a + 3 < sb.len(),
        1 <= b && 4 * b + 3 < sb.len(),
        x != y && x != a && x != b && y != a && y != b && a != b,
        live(sb, rb, x) && live(sb, rb, y) && live(sb, rb, a) && live(sb, rb, b),
        sb[4 * x] as int == 4 * y,
        sb[4 * a] == (4 * a) as u32,
        sb[4 * a + 1] == (4 * a + 1) as u32,
        sb[4 * a + 2] == (4 * a + 2) as u32,
        sb[4 * b] == (4 * b) as u32,
        sb[4 * b + 1] == (4 * b + 1) as u32,
        sb[4 * b + 2] == (4 * b + 2) as u32,
        forall|c: int|
            is_wire_cell(sb, c) && live(sb, rb, c / 4) && c / 4 != 0 && c / 4 != a && c / 4 != b
                ==> (#[trigger] sb[c]) != c,
    ensures
        dup_links_spec(sb, x, y, a, b).len() == sb.len(),
        forall|i: int|
            0 <= i < sb.len() ==> dup_links_spec(sb, x, y, a, b)[i] == dup_cell(sb, x, y, a, b, i),
        dup_neighbour_facts(sb, rb, x, y, a, b),
{
    reveal(sym);
    reveal(dup_links_spec);
    let s9 = dup_links_spec(sb, x, y, a, b);
    let a1 = 4 * x + 1;
    let a2 = 4 * x + 2;
    let b1 = 4 * y + 1;
    let b2 = 4 * y + 2;
    let e1 = sb[a1] as int;
    let e2 = sb[a2] as int;
    let e3 = sb[b1] as int;
    let e4 = sb[b2] as int;
    // partners of the pair's auxiliary ports, by symmetry
    assert(sb[e1] == a1 as u32 && sb[e2] == a2 as u32 && sb[e3] == b1 as u32 && sb[e4]
        == b2 as u32);
    assert(live(sb, rb, e1 / 4) && live(sb, rb, e2 / 4) && live(sb, rb, e3 / 4) && live(
        sb,
        rb,
        e4 / 4,
    ));
    assert(sb[4 * y] == (4 * x) as u32);
    // the pair's ports are not self-looped, nor wired into the copies
    assert(e1 != a1 && e2 != a2 && e3 != b1 && e4 != b2);
    assert(e1 / 4 != a && e1 / 4 != b && e2 / 4 != a && e2 / 4 != b && e3 / 4 != a && e3 / 4 != b
        && e4 / 4 != a && e4 / 4 != b) by {
        if e1 / 4 == a || e1 / 4 == b || e2 / 4 == a || e2 / 4 == b || e3 / 4 == a || e3 / 4 == b
            || e4 / 4 == a || e4 / 4 == b {
            assert(false);
        }
    }
    // how a wiring of one port among the pair's own constrains the others
    assert(e1 == a2 ==> e2 == a1);
    assert(e1 == b1 ==> e3 == a1);
    assert(e1 == b2 ==> e4 == a1);
    assert(e2 == b1 ==> e3 == a2);
    assert(e2 == b2 ==> e4 == a2);
    assert(e3 == b2 ==> e4 == b1);
    assert(e1 != 4 * x && e1 != 4 * y && e2 != 4 * x && e2 != 4 * y && e3 != 4 * x && e3 != 4 * y
        && e4 != 4 * x && e4 != 4 * y);
    // every word of the result in closed form
    assert forall|i: int| 0 <= i < sb.len() implies s9[i] == dup_cell(sb, x, y, a, b, i) by {
        if i == 4 * a || i == 4 * b || i == 4 * x || i == 4 * y || i == 4 * a + 1 || i == 4 * b + 1
            || i == 4 * a + 2 || i == 4 * y + 1 || i == 4 * x + 1 || i == 4 * b + 2 || i == 4 * x
            + 2 || i == 4 * y + 2 || i == 4 * x + 3 || i == 4 * y + 3 || i == e1 || i == e2 || i
            == e3 || i == e4 {
            assert(s9[i] == dup_cell(sb, x, y, a, b, i));
        } else {
            assert(s9[i] == sb[i]);
        }
    }
}

/// Duplication preserves the wire symmetry of the live graph, creates no
/// self-loops, and keeps the reuse pool duplicate-free: the two fresh
/// copies are fully wired, the two originals are rewired, and every other
/// live port keeps its partner.
#[verifier::rlimit(100)]
#[verifier::spinoff_prover]
pub proof fn lemma_dup_preserves_sym(s: Seq<u32>, reuse: Seq<u32>, x: int, y: int)
    requires
        wf_words(s),
        wf_reuse(s, reuse),
        distinct_reuse(reuse),
        sym(s, reuse),
        no_self_loops(s, reuse),
        1 <= x && 4 * x + 3 < s.len(),
        1 <= y && 4 * y + 3 < s.len(),
        x != y,
        !reuse.contains(x as u32),
        !reuse.contains(y as u32),
        s[4 * x] as int == 4 * y,
        s.len() + 8 <= NET_MAX_WORDS,
    ensures
        sym(dup_spec(s, reuse, x, y).0, dup_spec(s, reuse, x, y).1),
        no_self_loops(dup_spec(s, reuse, x, y).0, dup_spec(s, reuse, x, y).1),
        distinct_reuse(dup_spec(s, reuse, x, y).1),
{
    reveal(sym);
    let kx = spec_kind(s, x);
    let (sa, ra, a) = alloc_spec(s, reuse, kx);
    let ky = spec_kind(sa, y);
    let (sb, rb, b) = alloc_spec(sa, ra, ky);
    reveal(sym);
    // where the fresh nodes came from, and that they are fresh
    assert(1 <= a && 4 * a + 3 < sa.len() && a != x && a != y && !ra.contains(a as u32));
    assert(1 <= b && 4 * b + 3 < sb.len() && b != x && b != y && b != a && !rb.contains(b as u32));
    assert(sb.len() <= s.len() + 8 && sa.len() <= sb.len() && s.len() <= sa.len());
    assert(!rb.contains(x as u32) && !rb.contains(y as u32) && !rb.contains(a as u32));
    assert forall|n: u32| rb.contains(n) implies reuse.contains(n) by {
        let j = choose|j: int| 0 <= j < rb.len() && rb[j] == n;
        assert(reuse[j] == n);
    }
    assert(distinct_reuse(rb));
    // allocation leaves every word outside the copies unchanged
    assert(forall|i: int|
        0 <= i < s.len() && i / 4 != a && i / 4 != b ==> #[trigger] sb[i] == s[i]);
    assert(sb[4 * x] as int == 4 * y);
    // a node other than the popped ones stays in the pool
    assert forall|n: u32| reuse.contains(n) && n != a as u32 && n != b as u32 implies
        rb.contains(n) by {
        let j = choose|j: int| 0 <= j < reuse.len() && reuse[j] == n;
        assert(j < reuse.len() - 1);
        assert(ra[j] == n);
        if rb.len() < ra.len() {
            assert(j < ra.len() - 1);
            assert(rb[j] == n);
        } else {
            assert(rb[j] == n);
        }
    }
    // the allocated state is symmetric: the copies' ports self-loop, every
    // other live port kept its wire, and no popped node was still wired
    assert forall|p: int|
        is_wire_cell(sb, p) && live(sb, rb, p / 4) implies {
            &&& live(sb, rb, (#[trigger] sb[p]) as int / 4)
            &&& sb[p] % 4 != 3
            &&& sb[p] < sb.len()
            &&& sb[sb[p] as int] == p as u32
        } by {
        if p / 4 == a || p / 4 == b {
            assert(sb[p] == p as u32);
        } else {
            assert(p < s.len() && sb[p] == s[p]);
            assert(!reuse.contains((p / 4) as u32));
            let d = s[p] as int;
            assert(s[d] == p as u32 && live(s, reuse, d / 4));
            assert(d / 4 != a && d / 4 != b);
            assert(sb[d] == s[d] && !rb.contains((d / 4) as u32));
        }
    }
    // and it has self-loops only on the root and the copies
    assert forall|c: int|
        is_wire_cell(sb, c) && live(sb, rb, c / 4) && c / 4 != 0 && c / 4 != a && c / 4 != b
            implies (#[trigger] sb[c]) != c by {
        assert(c < s.len() && sb[c] == s[c]);
        assert(!reuse.contains((c / 4) as u32));
        assert(live(s, reuse, c / 4));
    }
    lemma_dup_wiring(sb, rb, x, y, a, b);
}

} // verus!
