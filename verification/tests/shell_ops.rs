use searchcore::shell_ops::{
    command_line, dialog_failed, drop_files, is_explorer, plan_terminal, quote, shell_failed,
    system_exe, target_dir, Launch,
};

fn units(s: &str) -> Vec<u16> {
    s.encode_utf16().collect()
}

#[test]
fn system_programs() {
    assert_eq!(system_exe(None, "cmd"), "C:\\Windows\\System32\\cmd.exe");
    assert_eq!(
        system_exe(Some("D:\\W"), "powershell"),
        "D:\\W\\System32\\WindowsPowerShell\\v1.0\\powershell.exe"
    );
    assert_eq!(system_exe(None, "calc"), "calc");
    assert_eq!(command_line("C:\\a b.exe"), "\"C:\\a b.exe\"");
}

#[test]
fn the_directory_of_a_path() {
    assert_eq!(target_dir("C:\\a", true, Some("C:\\")), "C:\\a");
    assert_eq!(target_dir("C:\\a\\b.txt", false, Some("C:\\a")), "C:\\a");
    assert_eq!(target_dir("b.txt", false, Some("")), ".");
    assert_eq!(target_dir("C:\\", false, None), ".");
}

#[test]
fn terminals() {
    let plan = |kind: &str, elevated: bool| plan_terminal(kind, "C:\\it's", elevated, None);
    let Ok(p) = plan("cmd", false) else { panic!() };
    assert!(p.exe.ends_with("cmd.exe") && matches!(p.launch, Launch::Direct));
    let Ok(p) = plan("cmd", true) else { panic!() };
    assert!(matches!(p.launch, Launch::Unelevated));
    let Ok(p) = plan("powershell_admin", true) else { panic!() };
    assert!(p.exe.ends_with("powershell.exe") && matches!(p.launch, Launch::Direct));
    match plan("cmd_admin", false).map(|p| p.launch) {
        Ok(Launch::RunAs(params)) => assert_eq!(params, "/s /k pushd \"C:\\it's\""),
        _ => panic!("other start"),
    }
    match plan("powershell_admin_admin", false).map(|p| p.launch) {
        Ok(Launch::RunAs(params)) => assert_eq!(
            params,
            "-NoLogo -NoExit -Command Set-Location -LiteralPath 'C:\\it''s'"
        ),
        _ => panic!("other start"),
    }
    assert_eq!(plan("bash", false).err(), Some("未知终端类型: bash".to_string()));
    assert_eq!(plan("_admin", false).err(), Some("未知终端类型: _admin".to_string()));
}

#[test]
fn quotes_are_doubled() {
    assert_eq!(quote("a'b''"), "a''b''''");
    assert_eq!(quote(""), "");
}

#[test]
fn codes_of_the_shell() {
    assert!(shell_failed(32) && shell_failed(-1));
    assert!(!shell_failed(33));
    assert!(dialog_failed(5));
    assert!(!dialog_failed(0x8007_04C7));
}

#[test]
fn the_desktop_process() {
    let mut name = units("Explorer.EXE");
    assert!(is_explorer(&name));
    name.push(0);
    name.extend(units("junk"));
    assert!(is_explorer(&name));
    assert!(!is_explorer(&units("cmd.exe")));
}

#[test]
fn files_on_the_clipboard() {
    let bytes = drop_files("A");
    let mut want = vec![20, 0, 0, 0];
    want.extend_from_slice(&[0; 12]);
    want.extend_from_slice(&[1, 0, 0, 0, 0x41, 0, 0, 0, 0, 0]);
    assert_eq!(bytes, want);
}
