//! Finding the `ia` command-line tool.

use vstd::prelude::*;

use crate::bytes::{faithful, lossy, read_text};
use crate::command::{bare, Invocation};
use crate::order::reversed;
use crate::text::{join2, lines_of, nonblank_lines, opt_str, opt_text, texts};

verus! {

/// Where a search for `ia` stands.
pub enum IaSearch {
    /// Whether plain `ia` runs is to be tried.
    OnPath,
    /// The user's login shell is to be named.
    Shell,
    /// The login shell is to be asked for `ia`.
    ShellReply { shell: String },
    /// A line of the shell's reply is to be probed; those above it are left.
    ShellLines { left: Vec<String>, next: String },
    /// The user's home directory is to be named.
    Home,
    /// The Python versions below the home directory are to be listed.
    Python { home: String },
    /// A usual place is to be probed; further ones are left, the last of them to come first.
    Places { left: Vec<String>, next: String },
    /// The search is over.
    Done { found: Option<String> },
}

/// What a search has to know next.
pub enum Question {
    /// Does this program run and succeed?
    Succeeds(Invocation),
    /// What is the value of this environment variable?
    Variable(String),
    /// What does this program print?
    Prints(Invocation),
    /// Is there a file under this path?
    IsFile(String),
    /// Which paths arise from the entries of a directory by joining `tail` to each?
    EntriesJoined { dir: String, tail: Vec<String> },
}

/// What a search is told.
pub enum Answer {
    Truth(bool),
    Value(Option<String>),
    Output(Option<Vec<u8>>),
    Paths(Vec<String>),
}

/// The view of a search.
pub enum SearchView {
    OnPath,
    Shell,
    ShellReply(Seq<char>),
    ShellLines(Seq<Seq<char>>, Seq<char>),
    Home,
    Python(Seq<char>),
    Places(Seq<Seq<char>>, Seq<char>),
    Done(Option<Seq<char>>),
}

/// The view of a question.
pub enum QuestionView {
    Succeeds(Seq<char>, Seq<Seq<char>>),
    Variable(Seq<char>),
    Prints(Seq<char>, Seq<Seq<char>>),
    IsFile(Seq<char>),
    EntriesJoined(Seq<char>, Seq<Seq<char>>),
}

/// The view of an answer.
pub enum AnswerView {
    Truth(bool),
    Value(Option<Seq<char>>),
    Output(Option<Seq<u8>>),
    Paths(Seq<Seq<char>>),
}

impl View for IaSearch {
    type V = SearchView;

    open spec fn view(&self) -> SearchView {
        match *self {
            IaSearch::OnPath => SearchView::OnPath,
            IaSearch::Shell => SearchView::Shell,
            IaSearch::ShellReply { shell } => SearchView::ShellReply(shell@),
            IaSearch::ShellLines { left, next } => SearchView::ShellLines(texts(left@), next@),
            IaSearch::Home => SearchView::Home,
            IaSearch::Python { home } => SearchView::Python(home@),
            IaSearch::Places { left, next } => SearchView::Places(texts(left@), next@),
            IaSearch::Done { found } => SearchView::Done(opt_text(found)),
        }
    }
}

impl View for Question {
    type V = QuestionView;

    open spec fn view(&self) -> QuestionView {
        match *self {
            Question::Succeeds(i) => QuestionView::Succeeds(i.program@, texts(i.args@)),
            Question::Variable(name) => QuestionView::Variable(name@),
            Question::Prints(i) => QuestionView::Prints(i.program@, texts(i.args@)),
            Question::IsFile(path) => QuestionView::IsFile(path@),
            Question::EntriesJoined { dir, tail } => QuestionView::EntriesJoined(
                dir@,
                texts(tail@),
            ),
        }
    }
}

impl View for Answer {
    type V = AnswerView;

    open spec fn view(&self) -> AnswerView {
        match *self {
            Answer::Truth(b) => AnswerView::Truth(b),
            Answer::Value(v) => AnswerView::Value(opt_text(v)),
            Answer::Output(Some(bytes)) => AnswerView::Output(Some(bytes@)),
            Answer::Output(None) => AnswerView::Output(None),
            Answer::Paths(paths) => AnswerView::Paths(texts(paths@)),
        }
    }
}

/// The usual places of `ia`: the fixed ones, then those of the Python versions.
pub open spec fn places(home: Seq<char>, python: Seq<Seq<char>>) -> Seq<Seq<char>> {
    seq![
        home + "/.local/bin/ia"@,
        "/opt/homebrew/bin/ia"@,
        "/usr/local/bin/ia"@,
        "/usr/bin/ia"@,
    ] + python
}

/// What a search asks next, unless it is over.
pub open spec fn asks(s: SearchView) -> Option<QuestionView> {
    match s {
        SearchView::OnPath => Some(QuestionView::Succeeds("ia"@, seq!["--version"@])),
        SearchView::Shell => Some(QuestionView::Variable("SHELL"@)),
        SearchView::ShellReply(shell) => Some(
            QuestionView::Prints(shell, seq!["-lic"@, "command -v ia"@]),
        ),
        SearchView::ShellLines(_, next) => Some(QuestionView::IsFile(next)),
        SearchView::Home => Some(QuestionView::Variable("HOME"@)),
        SearchView::Python(home) => Some(
            QuestionView::EntriesJoined(home + "/Library/Python"@, seq!["bin"@, "ia"@]),
        ),
        SearchView::Places(_, next) => Some(QuestionView::IsFile(next)),
        SearchView::Done(_) => None,
    }
}

/// Shell lines that are left to probe; with none left, the search goes on elsewhere.
pub open spec fn probing_lines(left: Seq<Seq<char>>) -> SearchView {
    if left.len() > 0 {
        SearchView::ShellLines(left.drop_last(), left.last())
    } else {
        SearchView::Home
    }
}

/// Places that are left to probe; with none left, the search has failed.
pub open spec fn probing_places(left: Seq<Seq<char>>) -> SearchView {
    if left.len() > 0 {
        SearchView::Places(left.drop_last(), left.last())
    } else {
        SearchView::Done(None)
    }
}

/// Where an answer takes a search. An answer to some other question changes nothing.
pub open spec fn told(s: SearchView, a: AnswerView) -> SearchView {
    match (s, a) {
        (SearchView::OnPath, AnswerView::Truth(b)) => if b {
            SearchView::Done(Some("ia"@))
        } else {
            SearchView::Shell
        },
        (SearchView::Shell, AnswerView::Value(Some(shell))) => SearchView::ShellReply(shell),
        (SearchView::Shell, AnswerView::Value(None)) => SearchView::Home,
        (SearchView::ShellReply(_), AnswerView::Output(Some(out))) => probing_lines(
            nonblank_lines(lossy(out)),
        ),
        (SearchView::ShellReply(_), AnswerView::Output(None)) => SearchView::Home,
        (SearchView::ShellLines(left, next), AnswerView::Truth(b)) => if b {
            SearchView::Done(Some(next))
        } else {
            probing_lines(left)
        },
        (SearchView::Home, AnswerView::Value(Some(home))) => SearchView::Python(home),
        (SearchView::Home, AnswerView::Value(None)) => SearchView::Python(""@),
        (SearchView::Python(home), AnswerView::Paths(python)) => probing_places(
            places(home, python).reverse(),
        ),
        (SearchView::Places(left, next), AnswerView::Truth(b)) => if b {
            SearchView::Done(Some(next))
        } else {
            probing_places(left)
        },
        _ => s,
    }
}

/// Where the reply of the login shell is read, it is read truly.
pub open spec fn reply_read_truly(s: SearchView, a: AnswerView) -> bool {
    match (s, a) {
        (SearchView::ShellReply(_), AnswerView::Output(Some(out))) => faithful(out),
        _ => true,
    }
}

fn probe_lines(left: Vec<String>) -> (r: IaSearch)
    ensures
        r@ == probing_lines(texts(left@)),
{
    let mut left = left;
    let ghost all = left@;
    match left.pop() {
        Some(next) => {
            proof {
                assert(texts(left@) =~= texts(all).drop_last());
            }
            IaSearch::ShellLines { left, next }
        },
        None => IaSearch::Home,
    }
}

fn probe_places(left: Vec<String>) -> (r: IaSearch)
    ensures
        r@ == probing_places(texts(left@)),
{
    let mut left = left;
    let ghost all = left@;
    match left.pop() {
        Some(next) => {
            proof {
                assert(texts(left@) =~= texts(all).drop_last());
            }
            IaSearch::Places { left, next }
        },
        None => IaSearch::Done { found: None },
    }
}

/// The usual places of `ia`, the first one last.
fn places_reversed(home: &str, python: Vec<String>) -> (r: Vec<String>)
    ensures
        texts(r@) == places(home@, texts(python@)).reverse(),
{
    let ghost all = python@;
    let mut out = reversed(python);
    out.push("/usr/bin/ia".to_string());
    out.push("/usr/local/bin/ia".to_string());
    out.push("/opt/homebrew/bin/ia".to_string());
    out.push(join2(home, "/.local/bin/ia"));
    proof {
        assert(texts(out@) =~= places(home@, texts(all)).reverse());
    }
    out
}

impl IaSearch {
    /// A search that has not begun.
    pub fn new() -> (r: IaSearch)
        ensures
            r@ == SearchView::OnPath,
    {
        IaSearch::OnPath
    }

    /// The search after the login shell has printed `reply`.
    pub fn after_reply(reply: &str) -> (r: IaSearch)
        ensures
            r@ == probing_lines(nonblank_lines(reply@)),
    {
        probe_lines(lines_of(reply))
    }

    /// What has to be known next; nothing once the search is over.
    fn question(&self) -> (r: Option<Question>)
        ensures
            r is Some <==> asks(self@) is Some,
            r matches Some(q) ==> asks(self@) == Some(q@),
    {
        match self {
            IaSearch::OnPath => {
                let i = bare("ia").arg("--version");
                proof {
                    assert(texts(i.args@) =~= seq!["--version"@]);
                }
                Some(Question::Succeeds(i))
            },
            IaSearch::Shell => Some(Question::Variable("SHELL".to_string())),
            IaSearch::ShellReply { shell } => {
                let i = bare(shell.as_str()).arg("-lic").arg("command -v ia");
                proof {
                    assert(texts(i.args@) =~= seq!["-lic"@, "command -v ia"@]);
                }
                Some(Question::Prints(i))
            },
            IaSearch::ShellLines { left: _, next } => Some(Question::IsFile(next.clone())),
            IaSearch::Home => Some(Question::Variable("HOME".to_string())),
            IaSearch::Python { home } => {
                let mut tail: Vec<String> = Vec::new();
                tail.push("bin".to_string());
                tail.push("ia".to_string());
                proof {
                    assert(texts(tail@) =~= seq!["bin"@, "ia"@]);
                }
                Some(Question::EntriesJoined { dir: join2(home.as_str(), "/Library/Python"), tail })
            },
            IaSearch::Places { left: _, next } => Some(Question::IsFile(next.clone())),
            IaSearch::Done { found: _ } => None,
        }
    }

    /// The search after an answer to its question.
    pub fn tell(&mut self, answer: Answer)
        ensures
            final(self)@ == told(old(self)@, answer@),
            reply_read_truly(old(self)@, answer@),
    {
        let mut before = IaSearch::OnPath;
        std::mem::swap(self, &mut before);
        *self = before.after(answer);
    }

    fn after(self, answer: Answer) -> (r: IaSearch)
        ensures
            r@ == told(self@, answer@),
            reply_read_truly(self@, answer@),
    {
        match (self, answer) {
            (IaSearch::OnPath, Answer::Truth(b)) => if b {
                IaSearch::Done { found: Some("ia".to_string()) }
            } else {
                IaSearch::Shell
            },
            (IaSearch::Shell, Answer::Value(Some(shell))) => IaSearch::ShellReply { shell },
            (IaSearch::Shell, Answer::Value(None)) => IaSearch::Home,
            (IaSearch::ShellReply { shell: _ }, Answer::Output(Some(out))) => {
                let reply = read_text(out.as_slice());
                IaSearch::after_reply(reply.as_str())
            },
            (IaSearch::ShellReply { shell: _ }, Answer::Output(None)) => IaSearch::Home,
            (IaSearch::ShellLines { left, next }, Answer::Truth(b)) => if b {
                IaSearch::Done { found: Some(next) }
            } else {
                probe_lines(left)
            },
            (IaSearch::Home, Answer::Value(Some(home))) => IaSearch::Python { home },
            (IaSearch::Home, Answer::Value(None)) => IaSearch::Python { home: "".to_string() },
            (IaSearch::Python { home }, Answer::Paths(python)) => probe_places(
                places_reversed(home.as_str(), python),
            ),
            (IaSearch::Places { left, next }, Answer::Truth(b)) => if b {
                IaSearch::Done { found: Some(next) }
            } else {
                probe_places(left)
            },
            (search, _) => search,
        }
    }
}

/// What a search can ask about: the machine, as long as nothing on it changes.
pub struct Host {
    /// Whether a program runs and succeeds.
    pub succeeds: spec_fn(Seq<char>, Seq<Seq<char>>) -> bool,
    /// The value of an environment variable.
    pub variable: spec_fn(Seq<char>) -> Option<Seq<char>>,
    /// What a program prints, if it runs.
    pub prints: spec_fn(Seq<char>, Seq<Seq<char>>) -> Option<Seq<u8>>,
    /// Whether there is a file under a path.
    pub is_file: spec_fn(Seq<char>) -> bool,
    /// The paths that arise from the entries of a directory by joining a tail to each.
    pub entries: spec_fn(Seq<char>, Seq<Seq<char>>) -> Seq<Seq<char>>,
}

impl Host {
    /// The true answer to a question.
    pub open spec fn answers(self, q: QuestionView) -> AnswerView {
        match q {
            QuestionView::Succeeds(program, args) => AnswerView::Truth(
                (self.succeeds)(program, args),
            ),
            QuestionView::Variable(name) => AnswerView::Value((self.variable)(name)),
            QuestionView::Prints(program, args) => AnswerView::Output(
                (self.prints)(program, args),
            ),
            QuestionView::IsFile(path) => AnswerView::Truth((self.is_file)(path)),
            QuestionView::EntriesJoined(dir, tail) => AnswerView::Paths((self.entries)(dir, tail)),
        }
    }

    /// Plain `ia` runs.
    pub open spec fn ia_on_path(self) -> bool {
        (self.succeeds)("ia"@, seq!["--version"@])
    }

    /// The lines that the login shell names, or none.
    pub open spec fn shell_lines(self) -> Seq<Seq<char>> {
        match (self.variable)("SHELL"@) {
            Some(shell) => match (self.prints)(shell, seq!["-lic"@, "command -v ia"@]) {
                Some(out) => nonblank_lines(lossy(out)),
                None => seq![],
            },
            None => seq![],
        }
    }

    /// The home directory, or the empty text.
    pub open spec fn home(self) -> Seq<char> {
        match (self.variable)("HOME"@) {
            Some(home) => home,
            None => ""@,
        }
    }

    /// The usual places of `ia`.
    pub open spec fn usual_places(self) -> Seq<Seq<char>> {
        places(
            self.home(),
            (self.entries)(self.home() + "/Library/Python"@, seq!["bin"@, "ia"@]),
        )
    }

    /// The last path of a list with a file under it.
    pub open spec fn last_file(self, paths: Seq<Seq<char>>) -> Option<Seq<char>>
        decreases paths.len(),
    {
        if paths.len() == 0 {
            None
        } else if (self.is_file)(paths.last()) {
            Some(paths.last())
        } else {
            self.last_file(paths.drop_last())
        }
    }

    /// The first path of a list with a file under it.
    pub open spec fn first_file(self, paths: Seq<Seq<char>>) -> Option<Seq<char>> {
        self.last_file(paths.reverse())
    }

    /// Where `ia` is: on the path, else where the login shell says last, else in
    /// the first of the usual places that holds it.
    pub open spec fn ia(self) -> Option<Seq<char>> {
        if self.ia_on_path() {
            Some("ia"@)
        } else if self.last_file(self.shell_lines()) is Some {
            self.last_file(self.shell_lines())
        } else {
            self.first_file(self.usual_places())
        }
    }
}

/// A search after up to `n` true answers.
pub open spec fn searched(s: SearchView, host: Host, n: nat) -> SearchView
    decreases n,
{
    match asks(s) {
        Some(q) => if n == 0 {
            s
        } else {
            searched(told(s, host.answers(q)), host, (n - 1) as nat)
        },
        None => s,
    }
}

proof fn lemma_places_searched(left: Seq<Seq<char>>, host: Host, n: nat)
    requires
        n >= left.len(),
    ensures
        searched(probing_places(left), host, n) == SearchView::Done(host.last_file(left)),
    decreases left.len(),
{
    reveal_with_fuel(searched, 2);
    if left.len() > 0 {
        lemma_places_searched(left.drop_last(), host, (n - 1) as nat);
    }
}

proof fn lemma_home_searched(host: Host, n: nat)
    requires
        n >= 2 + host.usual_places().len(),
    ensures
        searched(SearchView::Home, host, n) == SearchView::Done(
            host.first_file(host.usual_places()),
        ),
{
    reveal_with_fuel(searched, 3);
    let all = host.usual_places();
    lemma_places_searched(all.reverse(), host, (n - 2) as nat);
}

proof fn lemma_lines_searched(left: Seq<Seq<char>>, host: Host, n: nat)
    requires
        n >= left.len() + 2 + host.usual_places().len(),
    ensures
        searched(probing_lines(left), host, n) == SearchView::Done(
            match host.last_file(left) {
                Some(path) => Some(path),
                None => host.first_file(host.usual_places()),
            },
        ),
    decreases left.len(),
{
    reveal_with_fuel(searched, 2);
    if left.len() > 0 {
        lemma_lines_searched(left.drop_last(), host, (n - 1) as nat);
    } else {
        lemma_home_searched(host, n);
    }
}

/// A search that is told the truth is over after finitely many answers, and has
/// then found `ia` where it is: on the path first, else where the login shell
/// says, else in the usual places.
pub proof fn law_search_finds_ia(host: Host, n: nat)
    requires
        n >= 5 + host.shell_lines().len() + host.usual_places().len(),
    ensures
        searched(SearchView::OnPath, host, n) == SearchView::Done(host.ia()),
{
    reveal_with_fuel(searched, 4);
    let none: Seq<Seq<char>> = seq![];
    if !host.ia_on_path() {
        match (host.variable)("SHELL"@) {
            Some(shell) => {
                match (host.prints)(shell, seq!["-lic"@, "command -v ia"@]) {
                    Some(out) => {
                        lemma_lines_searched(host.shell_lines(), host, (n - 3) as nat);
                    },
                    None => {
                        lemma_lines_searched(none, host, (n - 3) as nat);
                    },
                }
            },
            None => {
                lemma_lines_searched(none, host, (n - 2) as nat);
            },
        }
    }
}

/// The last file of a list is a file of the list, and there is none behind it;
/// without a file in the list there is no last one.
pub proof fn law_last_file(host: Host, paths: Seq<Seq<char>>)
    ensures
        host.last_file(paths) matches Some(path) ==> exists|i: int|
            0 <= i < paths.len() && #[trigger] paths[i] == path && (host.is_file)(path)
                && forall|j: int| i < j < paths.len() ==> !(host.is_file)(#[trigger] paths[j]),
        host.last_file(paths) is None ==> forall|i: int|
            0 <= i < paths.len() ==> !(host.is_file)(#[trigger] paths[i]),
    decreases paths.len(),
{
    if paths.len() > 0 {
        let rest = paths.drop_last();
        law_last_file(host, rest);
        if (host.is_file)(paths.last()) {
            assert(paths[paths.len() - 1] == paths.last());
        } else if let Some(path) = host.last_file(rest) {
            let i = choose|i: int|
                0 <= i < rest.len() && #[trigger] rest[i] == path && (host.is_file)(path)
                    && forall|j: int| i < j < rest.len() ==> !(host.is_file)(#[trigger] rest[j]);
            assert(paths[i] == path);
            assert forall|j: int| i < j < paths.len() implies !(host.is_file)(
                #[trigger] paths[j],
            ) by {
                if j < rest.len() {
                    assert(rest[j] == paths[j]);
                }
            }
        } else {
            assert forall|i: int| 0 <= i < paths.len() implies !(host.is_file)(
                #[trigger] paths[i],
            ) by {
                if i < rest.len() {
                    assert(rest[i] == paths[i]);
                }
            }
        }
    }
}

/// `ia` is missing exactly if it is not on the path, the login shell names no
/// file, and none of the usual places holds one.
pub proof fn law_ia_missing(host: Host)
    ensures
        host.ia() is None <==> {
            &&& !host.ia_on_path()
            &&& forall|i: int|
                0 <= i < host.shell_lines().len() ==> !(host.is_file)(
                    #[trigger] host.shell_lines()[i],
                )
            &&& forall|i: int|
                0 <= i < host.usual_places().len() ==> !(host.is_file)(
                    #[trigger] host.usual_places()[i],
                )
        },
{
    let lines = host.shell_lines();
    let all = host.usual_places();
    law_last_file(host, lines);
    law_last_file(host, all.reverse());
    if host.first_file(all) is None {
        assert forall|i: int| 0 <= i < all.len() implies !(host.is_file)(#[trigger] all[i]) by {
            assert(all.reverse()[all.len() - 1 - i] == all[i]);
        }
    } else {
        let path = host.first_file(all)->0;
        let i = choose|i: int| 0 <= i < all.len() && #[trigger] all.reverse()[i] == path;
        assert(all[all.len() - 1 - i] == path);
    }
}

/// A search asks until it is over, and only then has a result.
pub proof fn law_search_over(s: SearchView)
    ensures
        asks(s) is None <==> s is Done,
{
}

/// `ia` is searched for once: a search that is over stays as it is, whatever it
/// is told.
pub proof fn law_search_settled(s: SearchView, a: AnswerView)
    requires
        s is Done,
    ensures
        told(s, a) == s,
{
}

/// The `ia` to run, or nothing if there is none, once the search for it is over;
/// until then, what the search has to know next.
pub fn ia_bin(search: &IaSearch) -> (r: Result<Option<&str>, Question>)
    ensures
        r is Ok <==> search@ is Done,
        r matches Ok(bin) ==> search@ == SearchView::Done(opt_str(bin)),
        r matches Err(q) ==> asks(search@) == Some(q@),
{
    match search {
        IaSearch::Done { found: Some(path) } => Ok(Some(path.as_str())),
        IaSearch::Done { found: None } => Ok(None),
        _ => match search.question() {
            Some(q) => Err(q),
            None => Ok(None),
        },
    }
}

/// What is said where there is no `ia`.
pub open spec fn ia_missing() -> Seq<char> {
    "The 'ia' CLI is not installed.\nInstall it with:  pip install internetarchive"@
}

/// A run of `ia` without arguments, or a friendly error if there is none.
pub fn ia_command(bin: Option<&str>) -> (r: Result<Invocation, String>)
    ensures
        r is Ok <==> bin is Some,
        r matches Ok(i) ==> i.runs(bin->0@, seq![]),
        r matches Err(e) ==> e@ == ia_missing(),
{
    match bin {
        Some(path) => Ok(bare(path)),
        None => Err(
            "The 'ia' CLI is not installed.\nInstall it with:  pip install internetarchive".to_string(),
        ),
    }
}

/// Confirms that there is an `ia`, with a friendly error otherwise.
pub fn ensure_ia(bin: Option<&str>) -> (r: Result<(), String>)
    ensures
        r is Ok <==> bin is Some,
        r matches Err(e) ==> e@ == ia_missing(),
{
    match ia_command(bin) {
        Ok(_) => Ok(()),
        Err(e) => Err(e),
    }
}

// ---------------------------------------------------------------- laws

/// A search is seen as it is.
pub proof fn law_search_seen(text: String, list: Vec<String>)
    ensures
        IaSearch::OnPath@ == SearchView::OnPath,
        IaSearch::Shell@ == SearchView::Shell,
        (IaSearch::ShellReply { shell: text })@ == SearchView::ShellReply(text@),
        (IaSearch::ShellLines { left: list, next: text })@ == SearchView::ShellLines(
            texts(list@),
            text@,
        ),
        IaSearch::Home@ == SearchView::Home,
        (IaSearch::Python { home: text })@ == SearchView::Python(text@),
        (IaSearch::Places { left: list, next: text })@ == SearchView::Places(texts(list@), text@),
        (IaSearch::Done { found: Some(text) })@ == SearchView::Done(Some(text@)),
        (IaSearch::Done { found: None })@ == SearchView::Done(None),
{
}

/// A question is seen as it is.
pub proof fn law_question_seen(i: Invocation, text: String, tail: Vec<String>)
    ensures
        Question::Succeeds(i)@ == QuestionView::Succeeds(i.program@, texts(i.args@)),
        Question::Variable(text)@ == QuestionView::Variable(text@),
        Question::Prints(i)@ == QuestionView::Prints(i.program@, texts(i.args@)),
        Question::IsFile(text)@ == QuestionView::IsFile(text@),
        (Question::EntriesJoined { dir: text, tail })@ == QuestionView::EntriesJoined(
            text@,
            texts(tail@),
        ),
{
}

/// An answer is seen as it is.
pub proof fn law_answer_seen(b: bool, text: String, bytes: Vec<u8>, list: Vec<String>)
    ensures
        Answer::Truth(b)@ == AnswerView::Truth(b),
        Answer::Value(Some(text))@ == AnswerView::Value(Some(text@)),
        Answer::Value(None)@ == AnswerView::Value(None),
        Answer::Output(Some(bytes))@ == AnswerView::Output(Some(bytes@)),
        Answer::Output(None)@ == AnswerView::Output(None),
        Answer::Paths(list)@ == AnswerView::Paths(texts(list@)),
{
}

/// The usual places: one in the home directory, the three of the system, and then
/// all those of the Python versions, in order.
pub proof fn law_usual_places(home: Seq<char>, python: Seq<Seq<char>>)
    ensures
        places(home, python).len() == 4 + python.len(),
        places(home, python)[0] == home + "/.local/bin/ia"@,
        places(home, python)[1] == "/opt/homebrew/bin/ia"@,
        places(home, python)[2] == "/usr/local/bin/ia"@,
        places(home, python)[3] == "/usr/bin/ia"@,
        forall|i: int| 0 <= i < python.len() ==> places(home, python)[4 + i] == #[trigger] python[i],
{
}

/// The last file of a list is the one that no other file of the list is behind.
proof fn lemma_last_file_at(host: Host, paths: Seq<Seq<char>>, i: int)
    requires
        0 <= i < paths.len(),
        (host.is_file)(paths[i]),
        forall|j: int| i < j < paths.len() ==> !(host.is_file)(#[trigger] paths[j]),
    ensures
        host.last_file(paths) == Some(paths[i]),
    decreases paths.len(),
{
    if i < paths.len() - 1 {
        assert(!(host.is_file)(paths[paths.len() - 1]));
        let rest = paths.drop_last();
        assert forall|j: int| i < j < rest.len() implies !(host.is_file)(#[trigger] rest[j]) by {
            assert(rest[j] == paths[j]);
        }
        lemma_last_file_at(host, rest, i);
    }
}

proof fn lemma_no_file(host: Host, paths: Seq<Seq<char>>)
    requires
        forall|j: int| 0 <= j < paths.len() ==> !(host.is_file)(#[trigger] paths[j]),
    ensures
        host.last_file(paths) is None,
    decreases paths.len(),
{
    if paths.len() > 0 {
        assert(!(host.is_file)(paths[paths.len() - 1]));
        let rest = paths.drop_last();
        assert forall|j: int| 0 <= j < rest.len() implies !(host.is_file)(#[trigger] rest[j]) by {
            assert(rest[j] == paths[j]);
        }
        lemma_no_file(host, rest);
    }
}

/// Where plain `ia` runs, the search finds it and asks nothing more.
pub proof fn law_ia_on_path_first(host: Host, n: nat)
    requires
        n >= 1,
        (host.succeeds)("ia"@, seq!["--version"@]),
    ensures
        searched(SearchView::OnPath, host, n) == SearchView::Done(Some("ia"@)),
{
    reveal_with_fuel(searched, 2);
}

/// Where plain `ia` does not run, the search finds the last line that the login
/// shell prints with a file under it, whatever the usual places hold.
pub proof fn law_ia_from_shell(host: Host, shell: Seq<char>, out: Seq<u8>, i: int, n: nat)
    requires
        n >= 5 + host.shell_lines().len() + host.usual_places().len(),
        !(host.succeeds)("ia"@, seq!["--version"@]),
        (host.variable)("SHELL"@) == Some(shell),
        (host.prints)(shell, seq!["-lic"@, "command -v ia"@]) == Some(out),
        0 <= i < nonblank_lines(lossy(out)).len(),
        (host.is_file)(nonblank_lines(lossy(out))[i]),
        forall|j: int|
            i < j < nonblank_lines(lossy(out)).len() ==> !(host.is_file)(
                #[trigger] nonblank_lines(lossy(out))[j],
            ),
    ensures
        searched(SearchView::OnPath, host, n) == SearchView::Done(
            Some(nonblank_lines(lossy(out))[i]),
        ),
{
    law_search_finds_ia(host, n);
    lemma_last_file_at(host, nonblank_lines(lossy(out)), i);
}

/// The login shell names no file: there is none, it prints nothing, or there is no
/// file under any line of what it prints.
pub open spec fn shell_names_none(host: Host) -> bool {
    (host.variable)("SHELL"@) matches Some(shell) ==> ((host.prints)(
        shell,
        seq!["-lic"@, "command -v ia"@],
    ) matches Some(out) ==> forall|j: int|
        0 <= j < nonblank_lines(lossy(out)).len() ==> !(host.is_file)(
            #[trigger] nonblank_lines(lossy(out))[j],
        ))
}

/// Where neither the path nor the login shell gives an `ia`, the search finds the
/// first of the usual places with a file under it, and nothing if there is none.
pub proof fn law_ia_from_usual_places(
    host: Host,
    home: Seq<char>,
    all: Seq<Seq<char>>,
    i: int,
    n: nat,
)
    requires
        n >= 5 + host.shell_lines().len() + host.usual_places().len(),
        !(host.succeeds)("ia"@, seq!["--version"@]),
        shell_names_none(host),
        (host.variable)("HOME"@) == Some(home) || ((host.variable)("HOME"@) is None && home.len()
            == 0),
        all == seq![
            home + "/.local/bin/ia"@,
            "/opt/homebrew/bin/ia"@,
            "/usr/local/bin/ia"@,
            "/usr/bin/ia"@,
        ] + (host.entries)(home + "/Library/Python"@, seq!["bin"@, "ia"@]),
        0 <= i <= all.len(),
        forall|j: int| 0 <= j < i ==> !(host.is_file)(#[trigger] all[j]),
    ensures
        i < all.len() && (host.is_file)(all[i]) ==> searched(SearchView::OnPath, host, n)
            == SearchView::Done(Some(all[i])),
        i == all.len() ==> searched(SearchView::OnPath, host, n) == SearchView::Done(None),
{
    reveal_strlit("");
    law_search_finds_ia(host, n);
    lemma_no_file(host, host.shell_lines());
    assert(home =~= host.home());
    assert(all =~= host.usual_places());
    let back = all.reverse();
    if i < all.len() {
        if (host.is_file)(all[i]) {
            let k = all.len() - 1 - i;
            assert(back[k] == all[i]);
            assert forall|j: int| k < j < back.len() implies !(host.is_file)(#[trigger] back[j]) by {
                assert(back[j] == all[all.len() - 1 - j]);
            }
            lemma_last_file_at(host, back, k);
        }
    } else {
        assert forall|j: int| 0 <= j < back.len() implies !(host.is_file)(#[trigger] back[j]) by {
            assert(back[j] == all[all.len() - 1 - j]);
        }
        lemma_no_file(host, back);
    }
}

/// What a login shell prints is read from its last line up.
pub proof fn law_reply_read_upwards(left: Seq<Seq<char>>, next: Seq<char>)
    ensures
        probing_lines(left.push(next)) == SearchView::ShellLines(left, next),
        probing_lines(seq![]) == SearchView::Home,
        probing_places(left.push(next)) == SearchView::Places(left, next),
        probing_places(seq![]) == SearchView::Done(None),
{
    assert(left.push(next).drop_last() =~= left);
}

/// The answer is of the kind that the question asks for.
pub open spec fn fits(q: QuestionView, a: AnswerView) -> bool {
    match q {
        QuestionView::Succeeds(_, _) => a is Truth,
        QuestionView::Variable(_) => a is Value,
        QuestionView::Prints(_, _) => a is Output,
        QuestionView::IsFile(_) => a is Truth,
        QuestionView::EntriesJoined(_, _) => a is Paths,
    }
}

/// An answer that does not fit the question changes nothing, and one that fits
/// takes the search further.
pub proof fn law_answer_fits(s: SearchView, a: AnswerView)
    ensures
        asks(s) matches Some(q) ==> (!fits(q, a) ==> told(s, a) == s),
        asks(s) matches Some(q) ==> (fits(q, a) && !(s is ShellLines) && !(s is Places) ==> told(
            s,
            a,
        ) != s),
        s is ShellLines && a is Truth ==> (told(s, a) matches SearchView::ShellLines(left, _)
            ==> left.len() < s->ShellLines_0.len()),
        s is Places && a is Truth ==> (told(s, a) matches SearchView::Places(left, _) ==> left.len()
            < s->Places_0.len()),
{
}

} // verus!
