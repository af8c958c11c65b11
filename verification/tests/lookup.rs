use archive_ui::account::{configure_account, configure_account_result};
use archive_ui::command::{label_text, Invocation, RunOutcome};
use archive_ui::identifier::{check_identifier, check_identifier_result, identifier_status};
use archive_ui::item::{inspect_item, inspect_item_result, item_info};

fn exited(success: bool, stdout: &[u8], stderr: &[u8]) -> RunOutcome {
    RunOutcome::Exited { success, stdout: stdout.to_vec(), stderr: stderr.to_vec() }
}

fn not_run(reason: &str) -> RunOutcome {
    RunOutcome::NotRun(reason.to_string())
}

fn line(i: Invocation) -> Vec<String> {
    let mut all = vec![i.program];
    all.extend(i.args);
    all
}

fn status(id: &str, body: &str) -> (bool, String) {
    let s = check_identifier_result(id, &exited(true, body.as_bytes(), b"")).ok().unwrap();
    (s.available, s.message)
}

fn item(body: &str) -> (bool, String, String) {
    let i = inspect_item_result(&exited(true, body.as_bytes(), b"")).ok().unwrap();
    (i.exists, i.uploader, i.title)
}

const HINT: &str = "The 'ia' CLI is not installed.\nInstall it with:  pip install internetarchive";

#[test]
fn signing_in() {
    let i = configure_account(Some("/bin/ia"), "me@example.org", "p w").ok().unwrap();
    assert_eq!(
        line(i),
        vec!["/bin/ia", "configure", "--username=me@example.org", "--password=p w"]
    );
    assert_eq!(configure_account(None, "a", "b").err(), Some(HINT.to_string()));
}

#[test]
fn signed_in_or_not() {
    assert_eq!(configure_account_result(&exited(true, b"", b"noise")), Ok(()));
    assert_eq!(
        configure_account_result(&exited(false, b"", b" bad password\n")),
        Err("Sign-in failed: bad password".to_string())
    );
    assert_eq!(
        configure_account_result(&exited(false, b"", b"caf\xe9 ")),
        Err("Sign-in failed: caf\u{fffd}".to_string())
    );
    assert_eq!(
        configure_account_result(&not_run("no such file")),
        Err("ia configure failed: no such file".to_string())
    );
}

#[test]
fn labels() {
    assert_eq!(label_text("Lookup failed: ", "  x y \n"), "Lookup failed: x y");
}

#[test]
fn asking_for_an_identifier() {
    assert_eq!(
        line(check_identifier("  my-item\n").ok().unwrap()),
        vec![
            "curl",
            "-sS",
            "--max-time",
            "15",
            "https://archive.org/services/check_identifier.php?identifier=my-item&output=json",
        ]
    );
    assert_eq!(check_identifier(" \t").err(), Some("Enter an identifier first.".to_string()));
}

#[test]
fn replies_for_an_identifier() {
    assert_eq!(
        status(" x ", r#"{"code":"available"}"#),
        (true, "'x' is available.".to_string())
    );
    assert_eq!(
        status("test", r#"{"code":"not_available"}"#),
        (false, "'test' is not available — choose another.".to_string())
    );
    assert_eq!(
        status("x", r#"{"code":"available","message":"go \"ahead\""}"#),
        (true, "'x': go \"ahead\"".to_string())
    );
    assert_eq!(
        status("x", r#"{"code":7,"message":null}"#),
        (false, "'x' is not available — choose another.".to_string())
    );
    assert_eq!(status("x", "[]").0, false);
    assert_eq!(status("x", r#"{"code":"not_available","code":"available"}"#).0, true);
}

#[test]
fn failed_lookups_of_an_identifier() {
    let r = |o: RunOutcome| check_identifier_result("x", &o).err().unwrap();
    assert_eq!(r(not_run("no curl")), "Could not reach archive.org: no curl");
    assert_eq!(r(exited(false, b"{}", b"timed out\n")), "Lookup failed: timed out");
    assert_eq!(
        r(exited(true, b" <html>\n", b"")),
        "Unexpected response from archive.org: <html>"
    );
    assert_eq!(r(exited(true, b"{} x", b"")), "Unexpected response from archive.org: {} x");
}

#[test]
fn statuses() {
    let s = identifier_status("a", None, None);
    assert_eq!((s.available, s.message.as_str()), (false, "'a' is not available — choose another."));
    let s = identifier_status("a", Some("available"), Some(""));
    assert_eq!((s.available, s.message.as_str()), (true, "'a': "));
}

#[test]
fn asking_for_an_item() {
    assert_eq!(
        line(inspect_item(Some("ia"), " my-item ").ok().unwrap()),
        vec!["ia", "metadata", "my-item"]
    );
    assert_eq!(inspect_item(None, "x").err(), Some(HINT.to_string()));
    assert_eq!(inspect_item(None, "  ").err(), Some("No identifier provided.".to_string()));
    assert_eq!(inspect_item(Some("ia"), "").err(), Some("No identifier provided.".to_string()));
}

#[test]
fn items() {
    let none = (false, String::new(), String::new());
    assert_eq!(item("{}"), none);
    assert_eq!(item("not json"), none);
    assert_eq!(item(r#"{"metadata":{}}"#), none);
    assert_eq!(item(r#"{"metadata":["uploader"]}"#), none);
    assert_eq!(item(r#"{"metadata":"x"}"#), none);
    assert_eq!(
        item(r#"{"metadata":{"uploader":"me@example.org","title":"T"}}"#),
        (true, "me@example.org".to_string(), "T".to_string())
    );
    assert_eq!(
        item(r#"{"metadata":{"uploader":3,"mediatype":"texts"}}"#),
        (true, String::new(), String::new())
    );
}

#[test]
fn failed_lookups_of_an_item() {
    let r = |o: RunOutcome| inspect_item_result(&o).err().unwrap();
    assert_eq!(r(not_run("gone")), "ia metadata failed: gone");
    assert_eq!(r(exited(false, b"", b"\n403 \n")), "Lookup failed: 403");
}

#[test]
fn item_details() {
    let i = item_info(true, None, Some("T"));
    assert_eq!((i.exists, i.uploader.as_str(), i.title.as_str()), (true, "", "T"));
}
