use ambient_engine::content_hash::ContentHash;
use ambient_engine::digest::Digest;
use ambient_engine::syntax::{Literal, Statement};

#[test]
fn test_primitive_type_equality() {
    let hash = Digest::of(b"id");
    assert_eq!(Literal::Int32(1).hash(), Literal::Int32(1).hash());
    assert_eq!(Literal::Boolean(true).hash(), Literal::Boolean(true).hash());
    assert_eq!(Literal::Hash(hash).hash(), Literal::Hash(hash).hash());
}

#[test]
fn test_primitive_value_inequality() {
    let hash1 = Digest::of(b"id-1");
    let hash2 = Digest::of(b"id-2");
    assert_ne!(Literal::Int32(1).hash(), Literal::Int32(2).hash());
    assert_ne!(Literal::Boolean(true).hash(), Literal::Boolean(false).hash());
    assert_ne!(Literal::Hash(hash1).hash(), Literal::Hash(hash2).hash());
}

#[test]
fn test_type_inequality() {
    let hash = Digest::of(b"id");
    assert_ne!(Literal::Int32(1).hash(), Literal::Boolean(true).hash());
    assert_ne!(Literal::Int32(1).hash(), Literal::Hash(hash).hash());
    assert_ne!(Literal::Boolean(true).hash(), Literal::Hash(hash).hash());
}

#[test]
fn test_const_equality() {
    let hash = Digest::of(b"id");
    assert_eq!(
        Statement::Const(Literal::Int32(1)).hash(),
        Statement::Const(Literal::Int32(1)).hash()
    );
    assert_eq!(
        Statement::Const(Literal::Boolean(true)).hash(),
        Statement::Const(Literal::Boolean(true)).hash()
    );
    assert_eq!(
        Statement::Const(Literal::Hash(hash)).hash(),
        Statement::Const(Literal::Hash(hash)).hash()
    );
}

#[test]
fn test_const_and_value_inequality() {
    let hash = Digest::of(b"id-1");
    assert_ne!(
        Statement::Const(Literal::Int32(1)).hash(),
        Literal::Int32(1).hash()
    );
    assert_ne!(
        Statement::Const(Literal::Boolean(true)).hash(),
        Literal::Boolean(true).hash()
    );
    assert_ne!(
        Statement::Const(Literal::Hash(hash)).hash(),
        Literal::Hash(hash).hash()
    );
}

#[test]
fn the_content_is_the_sort_and_the_value() {
    let direct = |bytes: &[u8]| *blake3::hash(bytes).as_bytes();
    assert_eq!(*Literal::Int32(7).hash().as_bytes(), direct(&[0, 0, 7, 0, 0, 0]));
    assert_eq!(*Literal::Boolean(true).hash().as_bytes(), direct(&[1, 0, 1]));
}
