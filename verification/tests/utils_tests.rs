use netctl::utils::{get_process_name, is_no_process};

#[test]
fn process_name_is_the_last_path_component() {
    assert_eq!(get_process_name("42", Some("/usr/bin/firefox\n")), "firefox");
    assert_eq!(get_process_name("42", Some("sshd")), "sshd");
    assert_eq!(get_process_name("42", Some("  /opt/My App/bin/app  ")), "app");
    assert_eq!(get_process_name("42", Some("/usr/lib/")), "");
}

#[test]
fn process_name_is_unknown_without_a_process() {
    assert_eq!(get_process_name("", Some("firefox")), "Unknown");
    assert_eq!(get_process_name("-", Some("firefox")), "Unknown");
    assert_eq!(get_process_name("42", None), "Unknown");
    assert_eq!(get_process_name("42", Some("   \n")), "Unknown");
    assert!(is_no_process(""));
    assert!(is_no_process("-"));
    assert!(!is_no_process("--"));
    assert!(!is_no_process("1"));
}
