use archive_ui::command::Invocation;
use archive_ui::ia::{ensure_ia, ia_bin, ia_command, Answer, IaSearch, Question};

struct Machine {
    on_path: bool,
    shell: Option<&'static str>,
    reply: Option<&'static [u8]>,
    home: Option<&'static str>,
    python: Vec<&'static str>,
    files: Vec<&'static str>,
}

fn told(i: &Invocation) -> (String, Vec<String>) {
    (i.program.clone(), i.args.clone())
}

fn strings(list: &[&str]) -> Vec<String> {
    list.iter().map(|s| s.to_string()).collect()
}

/// Runs a search on a machine; gives its result and the paths that it probed.
fn search(m: &Machine) -> (Option<String>, Vec<String>) {
    let mut probed: Vec<String> = Vec::new();
    let mut state = IaSearch::new();
    loop {
        let q = match ia_bin(&state) {
            Ok(found) => {
                return (found.map(|s| s.to_string()), probed);
            }
            Err(q) => q,
        };
        let answer = match q {
            Question::Succeeds(i) => {
                assert_eq!(told(&i), ("ia".to_string(), strings(&["--version"])));
                Answer::Truth(m.on_path)
            }
            Question::Variable(name) => {
                let value = match name.as_str() {
                    "SHELL" => m.shell,
                    "HOME" => m.home,
                    _ => panic!("unknown variable"),
                };
                Answer::Value(value.map(|v| v.to_string()))
            }
            Question::Prints(i) => {
                assert_eq!(
                    told(&i),
                    (m.shell.unwrap().to_string(), strings(&["-lic", "command -v ia"]))
                );
                Answer::Output(m.reply.map(|r| r.to_vec()))
            }
            Question::IsFile(path) => {
                let there = m.files.contains(&path.as_str());
                probed.push(path);
                Answer::Truth(there)
            }
            Question::EntriesJoined { dir, tail } => {
                assert_eq!(dir, format!("{}/Library/Python", m.home.unwrap_or("")));
                assert_eq!(tail, strings(&["bin", "ia"]));
                Answer::Paths(strings(&m.python))
            }
        };
        state.tell(answer);
    }
}

fn bare_machine() -> Machine {
    Machine {
        on_path: false,
        shell: None,
        reply: None,
        home: Some("/home/me"),
        python: vec![],
        files: vec![],
    }
}

#[test]
fn found_on_the_path() {
    let mut m = bare_machine();
    m.on_path = true;
    m.files = vec!["/usr/bin/ia"];
    assert_eq!(search(&m), (Some("ia".to_string()), vec![]));
}

#[test]
fn found_by_the_login_shell() {
    let mut m = bare_machine();
    m.shell = Some("/bin/zsh");
    m.reply = Some(b"/first/ia\n  /second/ia \r\nWelcome!\n\n");
    m.files = vec!["/first/ia", "/second/ia", "/usr/bin/ia"];
    let (found, probed) = search(&m);
    assert_eq!(found, Some("/second/ia".to_string()));
    assert_eq!(probed, strings(&["Welcome!", "/second/ia"]));
}

#[test]
fn bytes_that_are_not_utf8_are_replaced() {
    let mut m = bare_machine();
    m.shell = Some("/bin/sh");
    m.reply = Some(b"/opt/\xff/ia\n");
    m.files = vec!["/opt/\u{fffd}/ia"];
    assert_eq!(search(&m).0, Some("/opt/\u{fffd}/ia".to_string()));
}

#[test]
fn found_in_a_usual_place() {
    let mut m = bare_machine();
    m.shell = Some("/bin/sh");
    m.reply = Some(b"noise\n");
    m.python = vec!["/home/me/Library/Python/3.9/bin/ia", "/home/me/Library/Python/3.11/bin/ia"];
    m.files = vec!["/home/me/Library/Python/3.11/bin/ia"];
    let (found, probed) = search(&m);
    assert_eq!(found, Some("/home/me/Library/Python/3.11/bin/ia".to_string()));
    assert_eq!(
        probed,
        strings(&[
            "noise",
            "/home/me/.local/bin/ia",
            "/opt/homebrew/bin/ia",
            "/usr/local/bin/ia",
            "/usr/bin/ia",
            "/home/me/Library/Python/3.9/bin/ia",
            "/home/me/Library/Python/3.11/bin/ia",
        ])
    );
    m.files.push("/usr/local/bin/ia");
    assert_eq!(search(&m).0, Some("/usr/local/bin/ia".to_string()));
}

#[test]
fn not_found_anywhere() {
    let mut m = bare_machine();
    m.home = None;
    m.shell = Some("/bin/sh");
    let (found, probed) = search(&m);
    assert_eq!(found, None);
    assert_eq!(probed[0], "/.local/bin/ia");
    assert_eq!(probed.len(), 4);
}

#[test]
fn other_answers_change_nothing() {
    let mut state = IaSearch::new();
    state.tell(Answer::Value(None));
    assert!(matches!(state, IaSearch::OnPath));
}

#[test]
fn replies_of_the_shell() {
    assert!(matches!(IaSearch::after_reply(" \n"), IaSearch::Home));
    match IaSearch::after_reply("a\nb\n") {
        IaSearch::ShellLines { left, next } => {
            assert_eq!(left, vec!["a"]);
            assert_eq!(next, "b");
        }
        _ => panic!("lines are left to probe"),
    }
}

#[test]
fn one_search_is_enough() {
    let mut state = IaSearch::new();
    assert!(ia_bin(&state).is_err());
    state.tell(Answer::Truth(true));
    assert!(matches!(ia_bin(&state), Ok(Some("ia"))));
    state.tell(Answer::Truth(false));
    state.tell(Answer::Paths(vec![]));
    assert!(matches!(ia_bin(&state), Ok(Some("ia"))));

    let mut missing = IaSearch::Done { found: None };
    missing.tell(Answer::Truth(true));
    assert!(matches!(ia_bin(&missing), Ok(None)));
}

#[test]
fn commands_need_ia() {
    let hint = "The 'ia' CLI is not installed.\nInstall it with:  pip install internetarchive";
    assert_eq!(ia_command(None).err(), Some(hint.to_string()));
    assert_eq!(ensure_ia(None), Err(hint.to_string()));
    assert_eq!(ensure_ia(Some("ia")), Ok(()));
    let i = ia_command(Some("/usr/bin/ia")).ok().unwrap();
    assert_eq!(told(&i), ("/usr/bin/ia".to_string(), vec![]));
}
