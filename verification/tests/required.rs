use cadx_core::expression::is_valid_parameter_name;
use cadx_core::kernel::{resolve_unique, TopologyResolution};
use cadx_core::pack::{PackLock, MAX_PACK_STRING_BYTES};

#[test]
fn parameter_symbols_are_conservative_and_stable() {
    assert!(is_valid_parameter_name("base_width"));
    assert!(is_valid_parameter_name("A2"));
    assert!(!is_valid_parameter_name("2base"));
    assert!(!is_valid_parameter_name("base-width"));
    assert!(!is_valid_parameter_name(""));
}

#[test]
fn topology_resolution_reports_unique_ambiguous_and_lost_candidates() {
    let values = [1, 2];
    assert!(matches!(
        resolve_unique(&values[..1]),
        TopologyResolution::Resolved(1)
    ));
    assert!(matches!(
        resolve_unique(&values[..]),
        TopologyResolution::Ambiguous(candidates) if candidates.len() == 2
    ));
    assert!(matches!(
        resolve_unique(&values[..0]),
        TopologyResolution::Lost
    ));
}

#[test]
fn pack_lock_rejects_reordering_duplicates_and_unbounded_strings() {
    let mut reordered = PackLock::current();
    reordered.packs.swap(0, 1);
    assert!(reordered.validate().is_err());

    let mut duplicate = PackLock::current();
    duplicate
        .dependencies
        .push(duplicate.dependencies[0].clone());
    duplicate.dependencies.sort();
    assert!(duplicate.validate().is_err());

    let mut oversized = PackLock::current();
    oversized.packs[0].publisher = "x".repeat(MAX_PACK_STRING_BYTES + 1);
    assert!(oversized.validate().is_err());
}
