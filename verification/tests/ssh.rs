use ssh_tui_rs::ssh::{SSH_PROGRAM, is_ssh_error_exit_code, ssh_arguments};

#[test]
fn arguments_use_the_loaded_config() {
    assert_eq!(
        ssh_arguments("/tmp/alternate-config", "work-web"),
        ["-F", "/tmp/alternate-config", "--", "work-web"].map(String::from)
    );
}

#[test]
fn ssh_arguments_use_the_loaded_config() {
    assert_eq!(
        ssh_arguments("/tmp/alternate-config", "work-web"),
        vec![
            String::from("-F"),
            String::from("/tmp/alternate-config"),
            String::from("--"),
            String::from("work-web"),
        ]
    );
}

#[test]
fn ssh_reports_its_own_errors_with_255() {
    assert_eq!(SSH_PROGRAM, "ssh");
    assert!(is_ssh_error_exit_code(255));
    assert!(!is_ssh_error_exit_code(0));
    assert!(!is_ssh_error_exit_code(1));
}
