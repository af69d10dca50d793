use maple::release::{is_latest_release, parse_running_version};

#[test]
fn running_version_is_the_last_part() {
    assert_eq!(parse_running_version("0.1.19"), "19");
    assert_eq!(parse_running_version("v0.19"), "19");
    assert_eq!(parse_running_version("19"), "19");
    assert_eq!(parse_running_version(""), "");
    assert_eq!(parse_running_version("1."), "");
    assert_eq!(parse_running_version(".7"), "7");
    assert_eq!(parse_running_version("1.é"), "é");
    for v in ["0.1.19", "v0.19", "", "a.b.c.d", "..", "1.2-rc.1"] {
        assert_eq!(parse_running_version(v), v.split('.').last().unwrap());
    }
}

#[test]
fn latest_release_compares_last_parts() {
    assert!(is_latest_release("0.1.19", "v0.19"));
    assert!(!is_latest_release("0.1.19", "v0.20"));
    assert!(is_latest_release("19", "19"));
    assert!(!is_latest_release("0.1.19", "v0.19."));
    assert!(is_latest_release("", ""));
}
