use uefi_strings::unit_test::{count_failures, is_skipped, TestCase};

fn nothing() {}

#[test]
fn test_case_accessors() {
    let case = TestCase { name: "suite::one", func: nothing as fn(), should_panic: true };
    assert_eq!(case.name(), "suite::one");
    assert!(case.should_panic());
    (case.func())();
}

#[test]
fn skips_panicking_and_known_faulty_tests() {
    let panicking = TestCase { name: "a::b", func: nothing as fn(), should_panic: true };
    let faulty = TestCase {
        name: "aead::aead_chacha20_poly1305_openssh",
        func: nothing as fn(),
        should_panic: false,
    };
    let plain = TestCase { name: "digest::sha256", func: nothing as fn(), should_panic: false };
    assert!(is_skipped(&panicking));
    assert!(is_skipped(&faulty));
    assert!(!is_skipped(&plain));
}

#[test]
fn counts_failures() {
    assert_eq!(count_failures(&[]), 0);
    assert_eq!(count_failures(&[true, false, true, false, false]), 3);
    assert_eq!(count_failures(&[true, true]), 0);
}
