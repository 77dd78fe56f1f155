use smelly_hooks::command::REASONABLE_BINARIES;
use smelly_hooks::command::REASONABLE_BUILTINS;
use std::collections::BTreeSet;

#[test]
fn test_binary_builtin_no_overlap() {
    let binaries = BTreeSet::from_iter(&REASONABLE_BINARIES);
    let builtins = BTreeSet::from_iter(&REASONABLE_BUILTINS);
    let intersection = binaries.intersection(&builtins).collect::<Vec<_>>();
    println!("number of intersections: {}", intersection.len());
    assert_eq!(intersection, Vec::<&&&str>::new());
}

#[test]
fn catalogs_hold_what_they_hold() {
    assert_eq!(REASONABLE_BINARIES.len(), 26);
    assert_eq!(REASONABLE_BUILTINS.len(), 10);
    assert!(REASONABLE_BINARIES.contains(&"chmod"));
    assert!(REASONABLE_BUILTINS.contains(&":"));
    assert!(!REASONABLE_BINARIES.contains(&"echo"));
}
