use ltl_forge::memory_status::{parse_vm_rss_bytes, parse_vm_rss_kb};

const STATUS: &str = "Name:\tltl\nUmask:\t0022\nVmPeak:\t  20000 kB\nVmRSS:\t    1234 kB\nVmData:\t 999 kB\n";

#[test]
fn test_vm_rss_bytes_of_status() {
    assert_eq!(parse_vm_rss_kb(STATUS), Some(1234));
    assert_eq!(parse_vm_rss_bytes(STATUS), Some(1234 * 1024));
}

#[test]
fn test_vm_rss_missing_line() {
    assert_eq!(parse_vm_rss_bytes("Name:\tltl\nVmPeak:\t 1 kB\n"), None);
    assert_eq!(parse_vm_rss_bytes(""), None);
}

#[test]
fn test_vm_rss_label_only_at_line_start() {
    assert_eq!(parse_vm_rss_bytes("Name: VmRSS: 5 kB\n"), None);
    assert_eq!(parse_vm_rss_bytes("Name: x\r\nVmRSS: 5 kB\r\n"), Some(5 * 1024));
}

#[test]
fn test_vm_rss_first_line_decides() {
    assert_eq!(parse_vm_rss_bytes("VmRSS: kB\nVmRSS: 7 kB\n"), None);
    assert_eq!(parse_vm_rss_bytes("VmRSS:\nVmRSS: 7\n"), None);
    assert_eq!(parse_vm_rss_bytes("VmRSS: 3\nVmRSS: 7\n"), Some(3072));
}

#[test]
fn test_vm_rss_word_must_be_a_number() {
    assert_eq!(parse_vm_rss_bytes("VmRSS: 12x kB\n"), None);
    assert_eq!(parse_vm_rss_bytes("VmRSS: +12 kB\n"), Some(12 * 1024));
    assert_eq!(parse_vm_rss_kb("VmRSS: 18446744073709551616 kB\n"), None);
    assert_eq!(parse_vm_rss_kb("VmRSS: 18446744073709551615 kB\n"), Some(u64::MAX));
}
