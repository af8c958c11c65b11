//! Asking archive.org whether an identifier is free.

use vstd::prelude::*;

use crate::bytes::{lossy, read_text};
use crate::command::{bare, label_bytes, label_text, labelled, read_truly, Invocation, RunOutcome};
use crate::json::{holds, law_text_member, parse, parsed, text_member, Json};
use crate::text::{blank, join2, join3, opt_str, same_text, texts, trim, trimmed};

verus! {

/// Whether an identifier is free to use on archive.org.
pub struct IdentifierStatus {
    pub available: bool,
    pub message: String,
}

/// The view of an identifier's status.
pub struct StatusView {
    pub available: bool,
    pub message: Seq<char>,
}

impl View for IdentifierStatus {
    type V = StatusView;

    open spec fn view(&self) -> StatusView {
        StatusView { available: self.available, message: self.message@ }
    }
}

/// The address under which archive.org says whether an identifier is free.
pub open spec fn check_url(id: Seq<char>) -> Seq<char> {
    "https://archive.org/services/check_identifier.php?identifier="@ + id + "&output=json"@
}

/// The arguments that have `curl` fetch an address.
pub open spec fn fetch_args(url: Seq<char>) -> Seq<Seq<char>> {
    seq!["-sS"@, "--max-time"@, "15"@, url]
}

/// The run of `curl` that asks for an identifier, or an error if it is blank.
pub fn check_identifier(identifier: &str) -> (r: Result<Invocation, String>)
    ensures
        r is Ok <==> !blank(identifier@),
        r matches Ok(i) ==> i.runs("curl"@, fetch_args(check_url(trimmed(identifier@)))),
        r matches Err(e) ==> e@ == "Enter an identifier first."@,
{
    let id = trim(identifier);
    if id.is_empty() {
        return Err("Enter an identifier first.".to_string());
    }
    let url = join3(
        "https://archive.org/services/check_identifier.php?identifier=",
        id,
        "&output=json",
    );
    let i = bare("curl").arg("-sS").arg("--max-time").arg("15").arg(url.as_str());
    proof {
        assert(texts(i.args@) =~= fetch_args(check_url(trimmed(identifier@))));
    }
    Ok(i)
}

/// The code of a free identifier.
pub open spec fn is_free(code: Option<Seq<char>>) -> bool {
    code == Some("available"@)
}

/// What is said of an identifier: the service's own message, or else a default.
pub open spec fn status_message(
    id: Seq<char>,
    code: Option<Seq<char>>,
    message: Option<Seq<char>>,
) -> Seq<char> {
    match message {
        Some(m) => "'"@ + id + "': "@ + m,
        None => if is_free(code) {
            "'"@ + id + "' is available."@
        } else {
            "'"@ + id + "' is not available — choose another."@
        },
    }
}

/// The status of an identifier by the code and the message of the service.
pub open spec fn status_of(
    id: Seq<char>,
    code: Option<Seq<char>>,
    message: Option<Seq<char>>,
) -> StatusView {
    StatusView { available: is_free(code), message: status_message(id, code, message) }
}

/// The status of an identifier by the code and the message of the service.
pub fn identifier_status(id: &str, code: Option<&str>, message: Option<&str>) -> (r:
    IdentifierStatus)
    ensures
        r@ == status_of(id@, opt_str(code), opt_str(message)),
{
    let available = match code {
        Some(c) => same_text(c, "available"),
        None => false,
    };
    let message = match message {
        Some(m) => join3("'", id, "': ").concat(m),
        None => if available {
            join3("'", id, "' is available.")
        } else {
            join3("'", id, "' is not available — choose another.")
        },
    };
    IdentifierStatus { available, message }
}

/// What the reply of the service says of an identifier.
pub open spec fn reply_status(id: Seq<char>, reply: Json) -> StatusView {
    status_of(id, reply.text_member("code"@), reply.text_member("message"@))
}

/// What a lookup of an identifier says.
pub open spec fn looked_up(identifier: Seq<char>, outcome: RunOutcome) -> Result<
    StatusView,
    Seq<char>,
> {
    match outcome {
        RunOutcome::NotRun(reason) => Err("Could not reach archive.org: "@ + reason@),
        RunOutcome::Exited { success, stdout, stderr } => if !success {
            Err(labelled("Lookup failed: "@, lossy(stderr@)))
        } else {
            match parsed(lossy(stdout@)) {
                Some(reply) => Ok(reply_status(trimmed(identifier), reply)),
                None => Err(
                    labelled("Unexpected response from archive.org: "@, lossy(stdout@)),
                ),
            }
        },
    }
}

/// What a lookup of an identifier says, from what came of the run that does it.
pub fn check_identifier_result(identifier: &str, outcome: &RunOutcome) -> (r: Result<
    IdentifierStatus,
    String,
>)
    ensures
        r is Ok <==> looked_up(identifier@, *outcome) is Ok,
        r matches Ok(status) ==> looked_up(identifier@, *outcome) == Ok::<StatusView, Seq<char>>(
            status@,
        ),
        r matches Err(e) ==> looked_up(identifier@, *outcome) == Err::<StatusView, Seq<char>>(e@),
        read_truly(*outcome),
{
    match outcome {
        RunOutcome::NotRun(reason) => Err(
            join2("Could not reach archive.org: ", reason.as_str()),
        ),
        RunOutcome::Exited { success, stdout, stderr } => {
            if !*success {
                return Err(label_bytes("Lookup failed: ", stderr.as_slice()));
            }
            let body = read_text(stdout.as_slice());
            match parse(body.as_str()) {
                Ok(reply) => {
                    let code = text_member(&reply, "code");
                    let message = text_member(&reply, "message");
                    Ok(identifier_status(trim(identifier), code, message))
                },
                Err(_) => Err(
                    label_text("Unexpected response from archive.org: ", body.as_str()),
                ),
            }
        },
    }
}

/// An identifier is called available exactly if the service's code says so,
/// whatever its message is.
pub proof fn law_available_by_code(
    id: Seq<char>,
    code: Option<Seq<char>>,
    message: Option<Seq<char>>,
)
    ensures
        status_of(id, code, message).available <==> code == Some("available"@),
{
}

/// Where the service has a message of its own, the code has no part in what is said.
pub proof fn law_own_message_preferred(
    id: Seq<char>,
    code: Option<Seq<char>>,
    other: Option<Seq<char>>,
    message: Seq<char>,
)
    ensures
        status_of(id, code, Some(message)).message == status_of(id, other, Some(message)).message,
        status_of(id, code, Some(message)).message == "'"@ + id + "': "@ + message,
{
}

/// An identifier is asked for under the address of the service, as it is, between
/// a fixed start and a fixed end.
pub proof fn law_address_holds_identifier(id: Seq<char>)
    ensures
        check_url(id).len()
            == "https://archive.org/services/check_identifier.php?identifier="@.len() + id.len()
            + "&output=json"@.len(),
        check_url(id).take(
            "https://archive.org/services/check_identifier.php?identifier="@.len() as int,
        ) == "https://archive.org/services/check_identifier.php?identifier="@,
        check_url(id).skip(
            "https://archive.org/services/check_identifier.php?identifier="@.len() as int,
        ) == id + "&output=json"@,
{
    let start = "https://archive.org/services/check_identifier.php?identifier="@;
    let end = "&output=json"@;
    assert(check_url(id) =~= start + (id + end));
    assert(check_url(id).take(start.len() as int) =~= start);
    assert(check_url(id).skip(start.len() as int) =~= id + end);
}

/// `curl` is handed the address last, behind the options that keep it quiet and
/// bound its time.
pub proof fn law_address_fetched(url: Seq<char>)
    ensures
        fetch_args(url).len() == 4,
        fetch_args(url)[0] == "-sS"@,
        fetch_args(url)[1] == "--max-time"@,
        fetch_args(url)[2] == "15"@,
        fetch_args(url)[3] == url,
{
}

/// Without a message of the service, what is said follows the code.
pub proof fn law_default_message(id: Seq<char>, code: Option<Seq<char>>)
    ensures
        code == Some("available"@) ==> status_of(id, code, None).message == "'"@ + id
            + "' is available."@,
        code != Some("available"@) ==> status_of(id, code, None).message == "'"@ + id
            + "' is not available — choose another."@,
{
}

/// A status is seen as it is.
pub proof fn law_status_seen(s: IdentifierStatus)
    ensures
        s@.available == s.available,
        s@.message == s.message@,
{
}

/// A lookup that succeeds with a JSON reply calls the identifier available exactly
/// if the string under `code` of that reply is `available`, whatever else it holds.
pub proof fn law_lookup_available(
    identifier: Seq<char>,
    stdout: Vec<u8>,
    stderr: Vec<u8>,
    reply: Json,
)
    requires
        parsed(lossy(stdout@)) == Some(reply),
    ensures
        looked_up(identifier, RunOutcome::Exited { success: true, stdout, stderr }) is Ok,
        looked_up(
            identifier,
            RunOutcome::Exited { success: true, stdout, stderr },
        )->Ok_0.available <==> holds(reply, "code"@, "available"@),
{
    law_text_member(reply, "code"@, "available"@);
}

/// What a lookup says is the message under `message` of the reply, behind the
/// trimmed identifier.
pub proof fn law_lookup_message(
    identifier: Seq<char>,
    stdout: Vec<u8>,
    stderr: Vec<u8>,
    reply: Json,
    message: Seq<char>,
)
    requires
        parsed(lossy(stdout@)) == Some(reply),
        holds(reply, "message"@, message),
    ensures
        looked_up(
            identifier,
            RunOutcome::Exited { success: true, stdout, stderr },
        )->Ok_0.message == "'"@ + trimmed(identifier) + "': "@ + message,
{
    law_text_member(reply, "message"@, message);
}

/// Where the reply has no string under `message`, a lookup says a default that
/// follows the code.
pub proof fn law_lookup_default(
    identifier: Seq<char>,
    stdout: Vec<u8>,
    stderr: Vec<u8>,
    reply: Json,
)
    requires
        parsed(lossy(stdout@)) == Some(reply),
        forall|m: Seq<char>| !(#[trigger] holds(reply, "message"@, m)),
    ensures
        looked_up(
            identifier,
            RunOutcome::Exited { success: true, stdout, stderr },
        )->Ok_0.message == "'"@ + trimmed(identifier) + (if holds(
            reply,
            "code"@,
            "available"@,
        ) {
            "' is available."@
        } else {
            "' is not available — choose another."@
        }),
{
    law_text_member(reply, "code"@, "available"@);
    if let Some(m) = reply.text_member("message"@) {
        law_text_member(reply, "message"@, m);
        assert(holds(reply, "message"@, m));
    }
}

/// A lookup fails exactly if the program did not run, failed, or printed what is
/// no JSON, and the error says which.
pub proof fn law_lookup_error(
    identifier: Seq<char>,
    reason: String,
    stdout: Vec<u8>,
    stderr: Vec<u8>,
)
    ensures
        looked_up(identifier, RunOutcome::NotRun(reason)) == Err::<StatusView, Seq<char>>(
            "Could not reach archive.org: "@ + reason@,
        ),
        looked_up(identifier, RunOutcome::Exited { success: false, stdout, stderr }) == Err::<
            StatusView,
            Seq<char>,
        >("Lookup failed: "@ + trimmed(lossy(stderr@))),
        parsed(lossy(stdout@)) is None ==> looked_up(
            identifier,
            RunOutcome::Exited { success: true, stdout, stderr },
        ) == Err::<StatusView, Seq<char>>(
            "Unexpected response from archive.org: "@ + trimmed(lossy(stdout@)),
        ),
        parsed(lossy(stdout@)) is Some ==> looked_up(
            identifier,
            RunOutcome::Exited { success: true, stdout, stderr },
        ) is Ok,
{
}

} // verus!
