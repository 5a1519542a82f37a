use git_odb::interrupt::{interrupt, is_interrupted, uninterrupt, Interrupt};
use git_odb::http::{append_url, has_content_type};

#[test]
fn append_url_adds_one_slash() {
    assert_eq!(append_url("https://host/repo", "info/refs"), "https://host/repo/info/refs");
    assert_eq!(append_url("https://host/repo/", "info/refs"), "https://host/repo/info/refs");
    assert_eq!(append_url("", "x"), "/x");
}

#[test]
fn interrupt_token_toggles() {
    let mut token = Interrupt::new();
    assert!(!is_interrupted(&token));
    interrupt(&mut token);
    assert!(is_interrupted(&token));
    uninterrupt(&mut token);
    assert!(!is_interrupted(&token));
}

#[test]
fn smart_content_type_is_recognised() {
    let lines = vec![
        "Cache-Control: no-cache".to_string(),
        "Content-Type: application/x-git-upload-pack-advertisement".to_string(),
    ];
    assert!(has_content_type("git-upload-pack", "advertisement", &lines));
    assert!(!has_content_type("git-upload-pack", "result", &lines));
    assert!(!has_content_type("git-receive-pack", "advertisement", &lines));
    assert!(!has_content_type("git-upload-pack", "advertisement", &Vec::new()));
}
