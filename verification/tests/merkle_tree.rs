use rsmt2d_rs::merkle_tree::{self, MerkleTree};
use rsmt2d_rs::Error;

#[test]
fn root_is_deterministic_and_order_sensitive() {
    let mut a = merkle_tree::new();
    a.push(&[1, 2, 3]).unwrap();
    a.push(&[4, 5]).unwrap();
    let mut b = merkle_tree::new();
    b.push(&[1, 2, 3]).unwrap();
    b.push(&[4, 5]).unwrap();
    assert_eq!(a.root().unwrap(), b.root().unwrap());

    let mut c = merkle_tree::new();
    c.push(&[4, 5]).unwrap();
    c.push(&[1, 2, 3]).unwrap();
    assert_ne!(a.root().unwrap(), c.root().unwrap());
}

#[test]
fn root_distinguishes_leaf_boundaries() {
    let mut a = merkle_tree::new();
    a.push(&[1, 2]).unwrap();
    a.push(&[3]).unwrap();
    let mut b = merkle_tree::new();
    b.push(&[1]).unwrap();
    b.push(&[2, 3]).unwrap();
    assert_ne!(a.root().unwrap(), b.root().unwrap());
}

#[test]
fn root_of_an_empty_tree_fails() {
    let t = merkle_tree::new();
    assert_eq!(t.root().unwrap_err(), Error::EmptyInput);
}
