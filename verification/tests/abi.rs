use luna_model::abi::abi_mismatch;
use luna_model::text::to_decimal;

#[test]
fn matching_abi_is_accepted() {
    assert!(abi_mismatch(1, 1).is_none());
}

#[test]
fn mismatched_abi_reports_both_versions() {
    let msg = abi_mismatch(2, 1).expect("a mismatch must be reported");
    assert!(msg.contains("v2"), "message should name the extension ABI: {msg}");
    assert!(msg.contains("v1"), "message should name the host ABI: {msg}");
}

#[test]
fn mismatch_message_is_complete() {
    let msg = abi_mismatch(12, 3).unwrap();
    assert_eq!(
        msg,
        "luna_model capsule ABI mismatch: this extension was built against luna-model capsule ABI v12, but the imported `luna_model` exposes capsule ABI v3. The two exchange Rust objects through raw-pointer capsules whose memory layout differs across these ABIs, so using them together is unsound. Rebuild this extension against a `pyo3-lunamodel` release matching the installed `luna_model` (or update `luna_model` to match the extension)."
    );
}

#[test]
fn large_versions_are_written_in_full() {
    let msg = abi_mismatch(4294967295, 0).unwrap();
    assert!(msg.contains("v4294967295,"));
    assert!(msg.contains("v0."));
}

#[test]
fn decimal_numerals() {
    assert_eq!(to_decimal(0), "0");
    assert_eq!(to_decimal(7), "7");
    assert_eq!(to_decimal(10), "10");
    assert_eq!(to_decimal(907), "907");
    assert_eq!(to_decimal(18446744073709551615), "18446744073709551615");
}
