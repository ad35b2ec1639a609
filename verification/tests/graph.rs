use absal::net::{
    ani_two, enter, kind, link, meta, new_node, node, port, reduce, set_meta, slot, Net,
};

fn empty_net() -> Net {
    Net {
        nodes: vec![0, 1, 2, 0],
        reuse: Vec::new(),
    }
}

#[test]
fn port_algebra() {
    assert_eq!(port(0, 0), 0);
    assert_eq!(port(3, 2), 14);
    assert_eq!(node(14), 3);
    assert_eq!(slot(14), 2);
    for n in [0u32, 1, 7, 1000] {
        for s in 0u32..4 {
            assert_eq!(node(port(n, s)), n);
            assert_eq!(slot(port(n, s)), s);
        }
    }
}

#[test]
fn allocation_grows_and_reuses() {
    let mut g = empty_net();
    let a = new_node(&mut g, 1);
    assert_eq!(a, 1);
    assert_eq!(g.nodes.len(), 8);
    // fresh ports are self-looped, the header packs the kind
    assert_eq!(enter(&g, port(a, 0)), port(a, 0));
    assert_eq!(enter(&g, port(a, 1)), port(a, 1));
    assert_eq!(enter(&g, port(a, 2)), port(a, 2));
    assert_eq!(kind(&g, a), 1);
    assert_eq!(meta(&g, a), 0);
    // a reclaimed index is reused before the array grows
    g.reuse.push(a);
    let b = new_node(&mut g, 7);
    assert_eq!(b, a);
    assert_eq!(g.nodes.len(), 8);
    assert_eq!(kind(&g, b), 7);
}

#[test]
fn linking_is_symmetric() {
    let mut g = empty_net();
    let a = new_node(&mut g, 1);
    let b = new_node(&mut g, 2);
    link(&mut g, port(a, 0), port(b, 0));
    assert_eq!(enter(&g, port(a, 0)), port(b, 0));
    assert_eq!(enter(&g, port(b, 0)), port(a, 0));
    link(&mut g, port(a, 1), port(b, 2));
    assert_eq!(enter(&g, port(a, 1)), port(b, 2));
    assert_eq!(enter(&g, port(b, 2)), port(a, 1));
}

#[test]
fn scratch_bits_leave_kind_alone() {
    let mut g = empty_net();
    let a = new_node(&mut g, 9);
    set_meta(&mut g, a, 2);
    assert_eq!(meta(&g, a), 2);
    assert_eq!(kind(&g, a), 9);
    set_meta(&mut g, a, 1);
    assert_eq!(meta(&g, a), 1);
    assert_eq!(kind(&g, a), 9);
}

#[test]
fn annihilation_rewires_neighbours() {
    // build x and y with principal ports facing each other, and four
    // outside nodes n1..n4 on their auxiliary ports
    let mut g = empty_net();
    let x = new_node(&mut g, 1);
    let y = new_node(&mut g, 1);
    let n1 = new_node(&mut g, 2);
    let n2 = new_node(&mut g, 3);
    let n3 = new_node(&mut g, 4);
    let n4 = new_node(&mut g, 5);
    link(&mut g, port(x, 0), port(y, 0));
    link(&mut g, port(x, 1), port(n1, 0));
    link(&mut g, port(x, 2), port(n2, 0));
    link(&mut g, port(y, 1), port(n3, 0));
    link(&mut g, port(y, 2), port(n4, 0));
    ani_two(&mut g, x, y);
    // the former neighbours are now wired to each other, crosswise
    assert_eq!(enter(&g, port(n1, 0)), port(n3, 0));
    assert_eq!(enter(&g, port(n3, 0)), port(n1, 0));
    assert_eq!(enter(&g, port(n2, 0)), port(n4, 0));
    assert_eq!(enter(&g, port(n4, 0)), port(n2, 0));
    // and both nodes went back to the pool
    assert_eq!(g.reuse, vec![x, y]);
}

#[test]
fn reduce_on_fresh_net_is_quiet() {
    let mut g = empty_net();
    let stats = reduce(&mut g);
    assert_eq!(stats.rules, 0);
    assert_eq!(stats.betas, 0);
    assert_eq!(stats.dupls, 0);
    assert_eq!(stats.annis, 0);
}
