use minions_core::memory::parse_vm_stat;

const SAMPLE: &str = "Mach Virtual Memory Statistics: (page size of 16384 bytes)
Pages free:                               74004.
Pages active:                           1043064.
Pages inactive:                          774097.
Pages speculative:                        21000.
Pages throttled:                              0.
Pages wired down:                        120000.
Pages purgeable:                           5000.
Pages occupied by compressor:             30000.
";

#[test]
fn parses_page_size_and_fields() {
    let s = parse_vm_stat(SAMPLE).unwrap();
    assert_eq!(s.page_size, 16384);
    assert_eq!(s.free, 74004);
    assert_eq!(s.inactive, 774097);
    assert_eq!(s.compressed, 30000);
}

#[test]
fn available_counts_reclaimable_not_total_minus_used() {
    let s = parse_vm_stat(SAMPLE).unwrap();
    let expected = (74004 + 774097 + 21000 + 5000) * 16384;
    assert!(s.can_spare());
    assert_eq!(s.available_bytes(), expected);
    // active memory is not available, and must not leak into the figure
    assert!(s.available_bytes() < s.available_bytes() + 1043064 * 16384);
}

#[test]
fn total_counts_every_page_class() {
    let s = parse_vm_stat(SAMPLE).unwrap();
    let expected = (74004 + 1043064 + 774097 + 21000 + 120000 + 5000 + 30000) * 16384;
    assert!(s.adds_up());
    assert_eq!(s.total_bytes(), expected);
    assert!(s.total_bytes() > s.available_bytes(), "total must exceed what is reclaimable");
}

#[test]
fn missing_fields_do_not_panic() {
    let s = parse_vm_stat("Mach Virtual Memory Statistics: (page size of 4096 bytes)\n").unwrap();
    assert_eq!(s.page_size, 4096);
    assert_eq!(s.free, 0);
}

#[test]
fn a_page_size_that_is_not_given_is_the_usual_one() {
    let s = parse_vm_stat("PAGES FREE: 12 of them\n").unwrap();
    assert_eq!(s.page_size, 4096);
    assert_eq!(s.free, 12);
}

#[test]
fn figures_that_do_not_fit_do_not_add_up() {
    let s = parse_vm_stat("Pages free: 18446744073709551615.\nPages inactive: 1.\n").unwrap();
    assert!(!s.adds_up() && !s.can_spare());
    let s = parse_vm_stat("Pages free: 1.\nPages active: 18446744073709551615.\n").unwrap();
    assert!(!s.adds_up());
    assert!(s.can_spare(), "what can be had does not depend on what is in use");
    assert_eq!(s.available_bytes(), 4096);
}
