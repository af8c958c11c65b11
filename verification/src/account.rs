//! Signing in to archive.org.

use vstd::prelude::*;

use crate::bytes::{faithful, lossy};
use crate::command::{label_bytes, labelled, Invocation, RunOutcome};
use crate::ia::{ia_command, ia_missing};
use crate::text::{join2, texts, trimmed};

verus! {

/// The arguments that have `ia` write the keys of an account.
pub open spec fn configure_args(username: Seq<char>, password: Seq<char>) -> Seq<Seq<char>> {
    seq!["configure"@, "--username="@ + username, "--password="@ + password]
}

/// The run of `ia` that signs in, or an error if there is no `ia`.
pub fn configure_account(bin: Option<&str>, username: &str, password: &str) -> (r: Result<
    Invocation,
    String,
>)
    ensures
        r is Ok <==> bin is Some,
        r matches Ok(i) ==> i.runs(bin->0@, configure_args(username@, password@)),
        r matches Err(e) ==> e@ == ia_missing(),
{
    match ia_command(bin) {
        Ok(i) => {
            let user = join2("--username=", username);
            let pass = join2("--password=", password);
            let i = i.arg("configure").arg(user.as_str()).arg(pass.as_str());
            proof {
                assert(texts(i.args@) =~= configure_args(username@, password@));
            }
            Ok(i)
        },
        Err(e) => Err(e),
    }
}

/// What became of signing in.
pub open spec fn configured(outcome: RunOutcome) -> Result<(), Seq<char>> {
    match outcome {
        RunOutcome::NotRun(reason) => Err("ia configure failed: "@ + reason@),
        RunOutcome::Exited { success, stderr, .. } => if success {
            Ok(())
        } else {
            Err(labelled("Sign-in failed: "@, lossy(stderr@)))
        },
    }
}

/// What became of signing in, from what came of the run that does it.
pub fn configure_account_result(outcome: &RunOutcome) -> (r: Result<(), String>)
    ensures
        r is Ok <==> configured(*outcome) is Ok,
        r matches Err(e) ==> configured(*outcome) == Err::<(), Seq<char>>(e@),
        outcome matches RunOutcome::Exited { success: false, stderr, .. } ==> faithful(stderr@),
{
    match outcome {
        RunOutcome::NotRun(reason) => Err(join2("ia configure failed: ", reason.as_str())),
        RunOutcome::Exited { success, stdout: _, stderr } => if *success {
            Ok(())
        } else {
            Err(label_bytes("Sign-in failed: ", stderr.as_slice()))
        },
    }
}

/// `ia` is handed the user's name and the password, each behind its own option
/// and unchanged, and nothing else.
pub proof fn law_credentials_handed_over(username: Seq<char>, password: Seq<char>)
    ensures
        configure_args(username, password).len() == 3,
        configure_args(username, password)[0] == "configure"@,
        configure_args(username, password)[1] == "--username="@ + username,
        configure_args(username, password)[2] == "--password="@ + password,
{
}

/// Signing in has succeeded exactly if the program ran and exited with success,
/// whatever it printed.
pub proof fn law_signed_in_by_exit(
    reason: String,
    success: bool,
    stdout: Vec<u8>,
    stderr: Vec<u8>,
)
    ensures
        configured(RunOutcome::NotRun(reason)) is Err,
        configured(RunOutcome::Exited { success, stdout, stderr }) is Ok <==> success,
{
}

/// The error of signing in is the reason why the program did not run, or what it
/// said of its failure; what it printed besides has no part in it.
pub proof fn law_sign_in_error(reason: String, stdout: Vec<u8>, stderr: Vec<u8>)
    ensures
        configured(RunOutcome::NotRun(reason)) == Err::<(), Seq<char>>(
            "ia configure failed: "@ + reason@,
        ),
        configured(RunOutcome::Exited { success: false, stdout, stderr }) == Err::<
            (),
            Seq<char>,
        >("Sign-in failed: "@ + trimmed(lossy(stderr@))),
{
}

} // verus!
