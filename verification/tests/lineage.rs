use versioned_dag::{Lineage, Version};

#[test]
fn reflexivity() {
    let mut lin = Lineage::new();
    let a = Version::new(&mut lin);
    assert!(a.is_derivative_of(&lin, &a));
    let b = a.derive();
    assert!(b.is_derivative_of(&lin, &b));
    let c = a.fork(&mut lin);
    assert!(c.is_derivative_of(&lin, &c));
    let m = b.merge(&mut lin, &c);
    assert!(m.is_derivative_of(&lin, &m));
}

#[test]
fn derive_is_forward_only() {
    let mut lin = Lineage::new();
    let a = Version::new(&mut lin);
    let b = a.derive();
    assert!(b.is_derivative_of(&lin, &a));
    assert!(!a.is_derivative_of(&lin, &b));
    let c = b.derive();
    assert!(c.is_derivative_of(&lin, &a));
    assert!(c.is_derivative_of(&lin, &b));
}

#[test]
fn fork_asymmetry() {
    let mut lin = Lineage::new();
    let a = Version::new(&mut lin);
    let b = a.fork(&mut lin);
    assert!(b.is_derivative_of(&lin, &a));
    assert!(!a.is_derivative_of(&lin, &b));
    // further independent derives on the base never catch up with the fork
    let a2 = a.derive();
    let a3 = a2.derive();
    assert!(!a2.is_derivative_of(&lin, &b));
    assert!(!a3.is_derivative_of(&lin, &b));
    // sibling forks are unrelated in both directions
    let c = a.fork(&mut lin);
    assert!(!b.is_derivative_of(&lin, &c));
    assert!(!c.is_derivative_of(&lin, &b));
}

#[test]
fn merge_reachability() {
    let mut lin = Lineage::new();
    let x = Version::new(&mut lin);
    let y = Version::new(&mut lin);
    let m = x.merge(&mut lin, &y);
    assert!(m.is_derivative_of(&lin, &x));
    assert!(m.is_derivative_of(&lin, &y));
    assert!(!x.is_derivative_of(&lin, &m));
    assert!(!y.is_derivative_of(&lin, &m));
    assert!(!x.is_derivative_of(&lin, &y));
    // merging already-related versions is legal: a redundant link
    let m2 = m.merge(&mut lin, &x);
    assert!(m2.is_derivative_of(&lin, &m));
    assert!(m2.is_derivative_of(&lin, &x));
    assert!(m2.is_derivative_of(&lin, &y));
}

#[test]
fn unrelated_roots_are_not_derivative() {
    let mut lin = Lineage::new();
    let a = Version::new(&mut lin);
    let b = Version::new(&mut lin);
    assert!(!a.is_derivative_of(&lin, &b));
    assert!(!b.is_derivative_of(&lin, &a));
}

#[test]
fn optimize_transparency() {
    // build a small fork/merge history, record every answer, freeze every
    // version's ancestor table, and ask everything again
    let mut lin = Lineage::new();
    let a = Version::new(&mut lin);
    let b = a.fork(&mut lin);
    let c = a.fork(&mut lin);
    let m = b.merge(&mut lin, &c);
    let d = m.derive();
    let e = Version::new(&mut lin);
    let vs: Vec<Version> = vec![a, b, c, m, d, e];

    let mut before: Vec<bool> = Vec::new();
    for v in &vs {
        for u in &vs {
            before.push(v.is_derivative_of(&lin, u));
        }
    }

    let mut opt: Vec<Version> = Vec::new();
    for v in &vs {
        opt.push(v.optimize(&mut lin));
    }

    let mut after: Vec<bool> = Vec::new();
    for v in &opt {
        for u in &opt {
            after.push(v.is_derivative_of(&lin, u));
        }
    }
    assert_eq!(before, after);

    // expected answers on this exact history
    assert!(m.is_derivative_of(&lin, &a));
    assert!(d.is_derivative_of(&lin, &b));
    assert!(d.is_derivative_of(&lin, &c));
    assert!(!b.is_derivative_of(&lin, &c));
    assert!(!m.is_derivative_of(&lin, &e));
}

#[test]
fn deep_chain_reaches_root() {
    let mut lin = Lineage::new();
    let root = Version::new(&mut lin);
    let mut tip = root;
    for _ in 0..50 {
        tip = tip.fork(&mut lin);
    }
    assert!(tip.is_derivative_of(&lin, &root));
    assert!(!root.is_derivative_of(&lin, &tip));
    // freezing a mid-point table must not change the answers either
    let frozen = tip.optimize(&mut lin);
    assert!(frozen.is_derivative_of(&lin, &root));
    assert!(!root.is_derivative_of(&lin, &frozen));
}
