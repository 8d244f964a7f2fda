use muzzman_daemon::common::{get_modules, has_extension};

fn b(s: &str) -> Vec<u8> {
    s.as_bytes().to_vec()
}

#[test]
fn modules_are_files_with_library_extension() {
    let paths = vec![
        b("/m/libhttp.so"),
        b("/m/readme.txt"),
        b("/m/so"),
        b("/m/libtorrent.so"),
        b("/m/libold.so.1"),
    ];
    let found = get_modules(&paths, &b("so"));
    assert_eq!(found, vec![b("/m/libhttp.so"), b("/m/libtorrent.so")]);
}

#[test]
fn path_without_dot_is_its_own_last_part() {
    assert!(has_extension(&b("so"), &b("so")));
    assert!(!has_extension(&b("/m/x."), &b("so")));
    assert!(has_extension(&b("/m/x."), &b("")));
    assert!(has_extension(&b("C:\\m\\x.dll"), &b("dll")));
}

#[test]
fn no_paths_no_modules() {
    assert!(get_modules(&Vec::new(), &b("so")).is_empty());
}
