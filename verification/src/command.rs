//! Programs to run, and what came of running them.

use vstd::prelude::*;

use crate::bytes::{faithful, lossy, read_text};
use crate::text::{join2, law_trimmed_core, law_trimmed_white, texts, trim, trimmed, white};

verus! {

/// A program and its arguments.
pub struct Invocation {
    pub program: String,
    pub args: Vec<String>,
}

impl Invocation {
    /// This invocation runs `program` with exactly these arguments.
    pub open spec fn runs(self, program: Seq<char>, args: Seq<Seq<char>>) -> bool {
        &&& self.program@ == program
        &&& texts(self.args@) == args
    }
}

/// What came of running a program.
pub enum RunOutcome {
    /// The program could not be run, for this reason.
    NotRun(String),
    /// The program ran and exited.
    Exited { success: bool, stdout: Vec<u8>, stderr: Vec<u8> },
}

/// What of a program's output was read is read truly: what it printed if it
/// succeeded, what it said of its failure otherwise.
pub open spec fn read_truly(outcome: RunOutcome) -> bool {
    match outcome {
        RunOutcome::NotRun(_) => true,
        RunOutcome::Exited { success, stdout, stderr } => faithful(
            if success {
                stdout@
            } else {
                stderr@
            },
        ),
    }
}

/// An invocation without arguments.
pub(crate) fn bare(program: &str) -> (r: Invocation)
    ensures
        r.runs(program@, seq![]),
{
    let args: Vec<String> = Vec::new();
    proof {
        assert(texts(args@) =~= seq![]);
    }
    Invocation { program: program.to_string(), args }
}

impl Invocation {
    /// The invocation with one more argument.
    pub(crate) fn arg(self, arg: &str) -> (r: Invocation)
        ensures
            r.program@ == self.program@,
            texts(r.args@) == texts(self.args@).push(arg@),
    {
        let mut args = self.args;
        let more = arg.to_string();
        proof {
            assert(texts(args@.push(more)) =~= texts(args@).push(more@));
        }
        args.push(more);
        Invocation { program: self.program, args }
    }
}

/// What a program said, behind a label.
pub open spec fn labelled(label: Seq<char>, said: Seq<char>) -> Seq<char> {
    label + trimmed(said)
}

/// What a program said, trimmed, behind a label.
pub fn label_text(label: &str, said: &str) -> (r: String)
    ensures
        r@ == labelled(label@, said@),
{
    join2(label, trim(said))
}

/// What a program printed, trimmed, behind a label.
pub(crate) fn label_bytes(label: &str, printed: &[u8]) -> (r: String)
    ensures
        r@ == labelled(label@, lossy(printed@)),
        faithful(printed@),
{
    let said = read_text(printed);
    label_text(label, said.as_str())
}

/// An invocation runs a program with arguments exactly if these are what it holds.
pub proof fn law_runs(i: Invocation, program: Seq<char>, args: Seq<Seq<char>>)
    ensures
        i.runs(program, args) <==> {
            &&& i.program@ == program
            &&& i.args@.len() == args.len()
            &&& forall|k: int| 0 <= k < args.len() ==> #[trigger] i.args@[k]@ == args[k]
        },
{
    if i.args@.len() == args.len() && forall|k: int|
        0 <= k < args.len() ==> #[trigger] i.args@[k]@ == args[k] {
        assert(texts(i.args@) =~= args);
    }
    if texts(i.args@) == args {
        assert forall|k: int| 0 <= k < args.len() implies #[trigger] i.args@[k]@ == args[k] by {
            assert(texts(i.args@)[k] == i.args@[k]@);
        }
    }
}

/// Behind the label stands all that was said, but for the white space around it.
pub proof fn law_labelled(
    label: Seq<char>,
    before: Seq<char>,
    core: Seq<char>,
    after: Seq<char>,
)
    requires
        forall|i: int| 0 <= i < before.len() ==> white(#[trigger] before[i]),
        forall|i: int| 0 <= i < after.len() ==> white(#[trigger] after[i]),
        core.len() > 0 ==> !white(core[0]) && !white(core[core.len() - 1]),
    ensures
        labelled(label, before + core + after) == label + core,
{
    let said = before + core + after;
    if core.len() > 0 {
        law_trimmed_core(before, core, after);
    } else {
        assert forall|i: int| 0 <= i < said.len() implies white(#[trigger] said[i]) by {
            if i < before.len() {
                assert(said[i] == before[i]);
            } else {
                assert(said[i] == after[i - before.len()]);
            }
        }
        law_trimmed_white(said);
        assert(trimmed(said) =~= core);
    }
}

/// Output that is UTF-8 and is read truly gives the text it encodes: what was
/// printed by a success, and what was said by a failure.
pub proof fn law_read_truly(stdout: Vec<u8>, stderr: Vec<u8>)
    ensures
        read_truly(RunOutcome::Exited { success: true, stdout, stderr })
            && vstd::utf8::valid_utf8(stdout@) ==> lossy(stdout@) == vstd::utf8::decode_utf8(
            stdout@,
        ),
        read_truly(RunOutcome::Exited { success: false, stdout, stderr })
            && vstd::utf8::valid_utf8(stderr@) ==> lossy(stderr@) == vstd::utf8::decode_utf8(
            stderr@,
        ),
{
}

} // verus!
