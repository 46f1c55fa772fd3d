use std::str::FromStr;

use furiosa_device::Arch;

#[test]
fn test_archkind() {
    assert!(Arch::from_str("Warboy").is_ok());
}

#[test]
fn arch_formats_to_canonical_lowercase() {
    assert_eq!(Arch::Warboy.as_text(), "warboy");
    assert_eq!(Arch::WarboyB0.as_text(), "warboy-b0");
    assert_eq!(Arch::Renegade.as_text(), "renegade");
    assert_eq!(Arch::U250.as_text(), "u250");
}

#[test]
fn arch_parses_case_insensitively() {
    assert_eq!(Arch::from_text("WARBOY"), Some(Arch::Warboy));
    assert_eq!(Arch::from_text("Warboy-B0"), Some(Arch::WarboyB0));
    assert_eq!(Arch::from_text("WarboyB0"), Some(Arch::WarboyB0));
    assert_eq!(Arch::from_text("renegade"), Some(Arch::Renegade));
    assert_eq!(Arch::from_text("U250"), Some(Arch::U250));
    assert_eq!(Arch::from_text("some_npu"), None);
    assert_eq!(Arch::from_text("warboy "), None);
    assert_eq!(Arch::from_text(""), None);
}

#[test]
fn arch_round_trips_through_its_canonical_name() {
    for a in [Arch::Warboy, Arch::WarboyB0, Arch::Renegade, Arch::U250] {
        assert_eq!(Arch::from_text(&a.as_text()), Some(a));
    }
}
