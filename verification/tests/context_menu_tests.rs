use insearch::context_menu::{command_exe, command_value, register, status, status_of, unregister, Status};

#[test]
fn status_reflects_what_was_found() {
    assert_eq!(status_of(0, 3, true), Status::NotRegistered);
    assert_eq!(status_of(2, 3, false), Status::Stale);
    assert_eq!(status_of(3, 3, true), Status::Stale);
    assert_eq!(status_of(3, 3, false), Status::Registered);
}

#[test]
fn commands_name_their_executable() {
    let cmd = command_value("C:\\Apps\\insearch.exe", "%1");
    assert_eq!(cmd, "\"C:\\Apps\\insearch.exe\" \"%1\"");
    assert_eq!(command_exe(&cmd), Some("C:\\Apps\\insearch.exe"));
    assert_eq!(command_exe("no quotes"), None);
}

#[test]
fn off_windows_there_is_no_menu() {
    assert_eq!(register().unwrap_err().kind(), std::io::ErrorKind::Unsupported);
    assert!(unregister().is_ok());
    assert_eq!(status(), Status::NotRegistered);
}
