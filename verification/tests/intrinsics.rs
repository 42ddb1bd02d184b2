use ambient_engine::compiler::intrinsics::{
    find, get_intrinsics_for_module, intrinsic_at, INTRINSIC_COUNT,
};
use ambient_engine::types::TypeVarGen;

/// Every entry's declared arity equals its signature's parameter count.
#[test]
fn arity_matches_signature() {
    let mut gen = TypeVarGen::new();
    let mut i: usize = 0;
    while i < INTRINSIC_COUNT {
        let intrinsic = intrinsic_at(i);
        let signature = intrinsic.signature(&mut gen);
        assert_eq!(
            intrinsic.arity as usize,
            signature.params.len(),
            "arity/signature mismatch for {}::{}",
            intrinsic.home.path().join("."),
            intrinsic.name,
        );
        i += 1;
    }
}

/// No two entries share a path and a name.
#[test]
fn no_duplicate_entries() {
    let mut seen = std::collections::HashSet::new();
    let mut i: usize = 0;
    while i < INTRINSIC_COUNT {
        let intrinsic = intrinsic_at(i);
        assert!(
            seen.insert((intrinsic.home.path(), intrinsic.name)),
            "duplicate intrinsic {}::{}",
            intrinsic.home.path().join("."),
            intrinsic.name,
        );
        i += 1;
    }
}

#[test]
fn an_entry_is_found_under_its_path_and_name_only() {
    let first = intrinsic_at(0);
    let found = find(&first.home.path(), first.name);
    assert!(found.is_some());
    assert!(find(&first.home.path(), "no_such_function").is_none());
    assert!(find(&vec!["nowhere".to_string()], first.name).is_none());
    assert!(get_intrinsics_for_module(&["nowhere"]).is_empty());
}

/// What is listed for a module is what is found in it.
#[test]
fn every_listed_entry_is_found() {
    let mut i: usize = 0;
    while i < INTRINSIC_COUNT {
        let intrinsic = intrinsic_at(i);
        let path = intrinsic.home.path();
        let parts: Vec<&str> = path.iter().map(String::as_str).collect();
        assert!(get_intrinsics_for_module(&parts).contains(&(intrinsic.name, intrinsic.arity)));
        let found = find(&path, intrinsic.name).expect("found");
        assert_eq!((found.name, found.arity), (intrinsic.name, intrinsic.arity));
        i += 1;
    }
}
