//! Uploading an item: what to run, what to log, and cancelling.

use vstd::prelude::*;

use crate::command::{bare, Invocation};
use crate::ia::{ia_command, ia_missing};
use crate::text::{
    blank,
    decimal,
    decimal_text,
    join2,
    join3,
    law_blank,
    law_decimal_only,
    spelled_number,
    texts,
    trim,
    trimmed,
    white,
};

verus! {

/// Metadata of an archive.org item.
pub struct UploadMeta {
    pub identifier: String,
    pub title: String,
    pub description: String,
    pub mediatype: String,
    pub subjects: Vec<String>,
    pub creator: String,
    pub collection: String,
    pub date: String,
    pub license_url: String,
    pub language: String,
}

/// The view of an item's metadata.
pub struct MetaView {
    pub identifier: Seq<char>,
    pub title: Seq<char>,
    pub description: Seq<char>,
    pub mediatype: Seq<char>,
    pub subjects: Seq<Seq<char>>,
    pub creator: Seq<char>,
    pub collection: Seq<char>,
    pub date: Seq<char>,
    pub license_url: Seq<char>,
    pub language: Seq<char>,
}

impl View for UploadMeta {
    type V = MetaView;

    open spec fn view(&self) -> MetaView {
        MetaView {
            identifier: self.identifier@,
            title: self.title@,
            description: self.description@,
            mediatype: self.mediatype@,
            subjects: texts(self.subjects@),
            creator: self.creator@,
            collection: self.collection@,
            date: self.date@,
            license_url: self.license_url@,
            language: self.language@,
        }
    }
}

// ---------------------------------------------------------------- arguments

/// The argument for one value of a metadata field; a blank value has none.
pub open spec fn field_arg(key: Seq<char>, value: Seq<char>) -> Seq<Seq<char>> {
    if blank(value) {
        seq![]
    } else {
        seq!["--metadata="@ + key + ":"@ + trimmed(value)]
    }
}

/// The arguments for the subjects, each with one of its own.
pub open spec fn subject_args(subjects: Seq<Seq<char>>) -> Seq<Seq<char>>
    decreases subjects.len(),
{
    if subjects.len() == 0 {
        seq![]
    } else {
        subject_args(subjects.drop_last()) + field_arg("subject"@, subjects.last())
    }
}

/// The arguments for an item's metadata.
pub open spec fn metadata_args(m: MetaView) -> Seq<Seq<char>> {
    field_arg("mediatype"@, m.mediatype) + field_arg("title"@, m.title) + field_arg(
        "description"@,
        m.description,
    ) + field_arg("creator"@, m.creator) + field_arg("collection"@, m.collection) + field_arg(
        "date"@,
        m.date,
    ) + field_arg("licenseurl"@, m.license_url) + field_arg("language"@, m.language)
        + subject_args(m.subjects)
}

/// The arguments that have `ia` upload files as an item.
pub open spec fn upload_args(m: MetaView, files: Seq<Seq<char>>) -> Seq<Seq<char>> {
    seq!["upload"@, m.identifier] + files + metadata_args(m) + seq!["--checksum"@, "--retries=10"@]
}

/// What is logged before an upload.
pub open spec fn opening_log(m: MetaView, files: Seq<Seq<char>>) -> Seq<Seq<char>> {
    seq![
        "Uploading to archive.org as '"@ + m.identifier + "'…"@,
        "  identifier : "@ + m.identifier,
        "  mediatype  : "@ + m.mediatype,
        "  files      : "@ + decimal(files.len()),
    ]
}

fn push_text(list: &mut Vec<String>, s: String)
    ensures
        texts(final(list)@) == texts(old(list)@).push(s@),
{
    proof {
        assert(texts(list@.push(s)) =~= texts(list@).push(s@));
    }
    list.push(s);
}

fn push_field(args: &mut Vec<String>, key: &str, value: &str)
    ensures
        texts(final(args)@) == texts(old(args)@) + field_arg(key@, value@),
{
    let value = trim(value);
    if !value.is_empty() {
        let arg = join3("--metadata=", key, ":").concat(value);
        let ghost before = texts(args@);
        push_text(args, arg);
        proof {
            assert(texts(args@) =~= before + seq![arg@]);
        }
    } else {
        proof {
            assert(texts(args@) + Seq::<Seq<char>>::empty() =~= texts(args@));
        }
    }
}

/// The arguments for an item's metadata.
pub fn metadata_arguments(meta: &UploadMeta) -> (r: Vec<String>)
    ensures
        texts(r@) == metadata_args(meta@),
{
    let mut args: Vec<String> = Vec::new();
    proof {
        assert(texts(args@) =~= seq![]);
        assert(seq![] + field_arg("mediatype"@, meta@.mediatype) =~= field_arg(
            "mediatype"@,
            meta@.mediatype,
        ));
    }
    push_field(&mut args, "mediatype", meta.mediatype.as_str());
    push_field(&mut args, "title", meta.title.as_str());
    push_field(&mut args, "description", meta.description.as_str());
    push_field(&mut args, "creator", meta.creator.as_str());
    push_field(&mut args, "collection", meta.collection.as_str());
    push_field(&mut args, "date", meta.date.as_str());
    push_field(&mut args, "licenseurl", meta.license_url.as_str());
    push_field(&mut args, "language", meta.language.as_str());
    let ghost fields = texts(args@);
    let ghost all = texts(meta.subjects@);
    let n: usize = meta.subjects.len();
    let mut i: usize = 0;
    proof {
        assert(fields + Seq::<Seq<char>>::empty() =~= fields);
        assert(all.take(0) =~= Seq::<Seq<char>>::empty());
    }
    while i < n
        invariant
            i <= n,
            n == meta.subjects.len(),
            all == texts(meta.subjects@),
            texts(args@) =~= fields + subject_args(all.take(i as int)),
        decreases n - i,
    {
        proof {
            assert(all.take(i + 1).drop_last() =~= all.take(i as int));
            assert(all.take(i + 1).last() == meta.subjects[i as int]@);
        }
        push_field(&mut args, "subject", meta.subjects[i].as_str());
        i += 1;
    }
    proof {
        assert(all.take(n as int) =~= all);
    }
    args
}

/// An upload that can begin: what to log, then what to run.
pub struct UploadPlan {
    pub log: Vec<String>,
    pub run: Invocation,
}

/// The error for an upload without files.
pub open spec fn no_files() -> Seq<char> {
    "No files selected to upload."@
}

/// Plans the upload of files as an item, or says why there can be none: no
/// files, or no `ia`.
pub fn upload_to_archive(bin: Option<&str>, meta: &UploadMeta, files: &Vec<String>) -> (r: Result<
    UploadPlan,
    String,
>)
    ensures
        r is Ok <==> files@.len() > 0 && bin is Some,
        r matches Ok(plan) ==> {
            &&& texts(plan.log@) == opening_log(meta@, texts(files@))
            &&& plan.run.runs(bin->0@, upload_args(meta@, texts(files@)))
        },
        r matches Err(e) ==> e@ == (if files@.len() == 0 {
            no_files()
        } else {
            ia_missing()
        }),
{
    let n: usize = files.len();
    if n == 0 {
        return Err("No files selected to upload.".to_string());
    }
    let run = match ia_command(bin) {
        Ok(run) => run,
        Err(e) => {
            return Err(e);
        },
    };
    let mut run = run.arg("upload").arg(meta.identifier.as_str());
    let ghost all = texts(files@);
    let ghost head = seq!["upload"@, meta@.identifier];
    let mut i: usize = 0;
    proof {
        assert(texts(run.args@) =~= head + all.take(0));
    }
    while i < n
        invariant
            i <= n,
            n == files.len(),
            all == texts(files@),
            run.program@ == bin->0@,
            texts(run.args@) =~= head + all.take(i as int),
        decreases n - i,
    {
        run = run.arg(files[i].as_str());
        proof {
            assert(all.take(i + 1) =~= all.take(i as int).push(files[i as int]@));
        }
        i += 1;
    }
    let md = metadata_arguments(meta);
    let m: usize = md.len();
    let ghost fields = texts(md@);
    let mut j: usize = 0;
    proof {
        assert(all.take(n as int) =~= all);
        assert(texts(run.args@) =~= head + all + fields.take(0));
    }
    while j < m
        invariant
            j <= m,
            m == md.len(),
            fields == texts(md@),
            run.program@ == bin->0@,
            texts(run.args@) =~= head + all + fields.take(j as int),
        decreases m - j,
    {
        run = run.arg(md[j].as_str());
        proof {
            assert(fields.take(j + 1) =~= fields.take(j as int).push(md[j as int]@));
        }
        j += 1;
    }
    let run = run.arg("--checksum").arg("--retries=10");
    proof {
        assert(fields.take(m as int) =~= fields);
        assert(texts(run.args@) =~= upload_args(meta@, all));
    }
    let mut log: Vec<String> = Vec::new();
    push_text(
        &mut log,
        join3("Uploading to archive.org as '", meta.identifier.as_str(), "'…"),
    );
    push_text(&mut log, join2("  identifier : ", meta.identifier.as_str()));
    push_text(&mut log, join2("  mediatype  : ", meta.mediatype.as_str()));
    let count = decimal_text(n as u64);
    push_text(&mut log, join2("  files      : ", count.as_str()));
    proof {
        assert(texts(log@) =~= opening_log(meta@, all));
    }
    Ok(UploadPlan { log, run })
}

/// The error for an upload whose program cannot be started.
pub fn upload_not_started(reason: &str) -> (r: String)
    ensures
        r@ == "Failed to spawn ia upload: "@ + reason@,
{
    join2("Failed to spawn ia upload: ", reason)
}

// ---------------------------------------------------------------- state

/// Tracks the upload that is running, so that it can be cancelled.
pub struct UploadState {
    /// The process of the running upload, if any.
    pid: Option<u32>,
    /// Set when the user cancels, so that the upload is reported as cancelled
    /// and not as failed.
    cancelled: bool,
}

/// The view of the state of uploads.
pub struct StateView {
    pub pid: Option<u32>,
    pub cancelled: bool,
}

impl View for UploadState {
    type V = StateView;

    closed spec fn view(&self) -> StateView {
        StateView { pid: self.pid, cancelled: self.cancelled }
    }
}

/// The state after an upload has started as a process.
pub open spec fn started(s: StateView, pid: u32) -> StateView {
    StateView { pid: Some(pid), cancelled: false }
}

/// The state after the user has asked to cancel: nothing changes without an upload.
pub open spec fn cancelling(s: StateView) -> StateView {
    match s.pid {
        Some(_) => StateView { cancelled: true, ..s },
        None => s,
    }
}

/// How the process of an upload ended.
pub enum UploadExit {
    /// Waiting for it failed, for this reason.
    WaitFailed(String),
    /// It exited.
    Exited { success: bool },
}

/// The state after an upload is over, however its process ended.
pub open spec fn ended(s: StateView, exit: UploadExit) -> StateView {
    StateView { pid: None, ..s }
}

/// What became of an upload.
pub open spec fn upload_result(s: StateView, exit: UploadExit) -> Result<(), Seq<char>> {
    match exit {
        UploadExit::WaitFailed(reason) => Err("ia wait failed: "@ + reason@),
        UploadExit::Exited { success } => if s.cancelled {
            Err("cancelled"@)
        } else if success {
            Ok(())
        } else {
            Err("Upload failed — see log for details"@)
        },
    }
}

/// What is logged after an upload.
pub open spec fn closing_log(s: StateView, identifier: Seq<char>, exit: UploadExit) -> Seq<
    Seq<char>,
> {
    match exit {
        UploadExit::WaitFailed(_) => seq![],
        UploadExit::Exited { success } => if s.cancelled {
            seq!["Upload of '"@ + identifier + "' cancelled."@]
        } else if success {
            seq!["Upload complete!  https://archive.org/details/"@ + identifier]
        } else {
            seq![]
        },
    }
}

/// What to log after an upload, and what became of it.
pub struct UploadReport {
    pub log: Vec<String>,
    pub result: Result<(), String>,
}

impl Default for UploadState {
    /// No upload has run.
    fn default() -> (r: UploadState)
        ensures
            r@ == (StateView { pid: None, cancelled: false }),
    {
        UploadState { pid: None, cancelled: false }
    }
}

impl UploadState {
    /// Records that an upload has started as a process.
    pub fn start(&mut self, pid: u32)
        ensures
            final(self)@ == started(old(self)@, pid),
    {
        self.pid = Some(pid);
        self.cancelled = false;
    }

    /// Records that an upload is over, and reports on it.
    pub fn finish(&mut self, identifier: &str, exit: &UploadExit) -> (r: UploadReport)
        ensures
            final(self)@ == ended(old(self)@, *exit),
            texts(r.log@) == closing_log(old(self)@, identifier@, *exit),
            r.result is Ok <==> upload_result(old(self)@, *exit) is Ok,
            r.result matches Err(e) ==> upload_result(old(self)@, *exit) == Err::<(), Seq<char>>(
                e@,
            ),
    {
        let mut log: Vec<String> = Vec::new();
        proof {
            assert(texts(log@) =~= seq![]);
        }
        self.pid = None;
        let result = match exit {
            UploadExit::WaitFailed(reason) => Err(join2("ia wait failed: ", reason.as_str())),
            UploadExit::Exited { success } => {
                if self.cancelled {
                    push_text(&mut log, join3("Upload of '", identifier, "' cancelled."));
                    Err("cancelled".to_string())
                } else if *success {
                    push_text(
                        &mut log,
                        join2("Upload complete!  https://archive.org/details/", identifier),
                    );
                    Ok(())
                } else {
                    Err("Upload failed — see log for details".to_string())
                }
            },
        };
        proof {
            assert(texts(log@) =~= closing_log(old(self)@, identifier@, *exit));
        }
        UploadReport { log, result }
    }
}

/// Asks to cancel the running upload: gives the run that ends its process, or
/// an error if there is none.
pub fn cancel_upload(state: &mut UploadState) -> (r: Result<Invocation, String>)
    ensures
        final(state)@ == cancelling(old(state)@),
        r is Ok <==> old(state)@.pid is Some,
        r matches Ok(i) ==> i.runs("kill"@, seq![decimal(old(state)@.pid->0 as nat)]),
        r matches Err(e) ==> e@ == "No upload is currently in progress."@,
{
    match state.pid {
        Some(pid) => {
            state.cancelled = true;
            let text = decimal_text(pid as u64);
            let i = bare("kill").arg(text.as_str());
            proof {
                assert(texts(i.args@) =~= seq![decimal(pid as nat)]);
            }
            Ok(i)
        },
        None => Err("No upload is currently in progress.".to_string()),
    }
}

// ---------------------------------------------------------------- laws

/// An upload that the user cancels while it runs is reported as cancelled,
/// however its process exits.
pub proof fn law_cancelled_is_reported(s: StateView, pid: u32, success: bool)
    ensures
        upload_result(cancelling(started(s, pid)), UploadExit::Exited { success }) == Err::<
            (),
            Seq<char>,
        >("cancelled"@),
{
}

/// An upload that nobody cancels succeeds exactly if its process does, whatever
/// became of the uploads before it.
pub proof fn law_uncancelled_by_exit(s: StateView, pid: u32, success: bool)
    ensures
        upload_result(started(s, pid), UploadExit::Exited { success }) is Ok <==> success,
{
}

/// Once an upload is over, however it ended, there is nothing to cancel, and
/// asking to changes nothing.
pub proof fn law_nothing_to_cancel_after_exit(s: StateView, exit: UploadExit)
    ensures
        ended(s, exit).pid is None,
        cancelling(ended(s, exit)) == ended(s, exit),
{
}

/// A cancelled upload leaves no trace on the next one.
pub proof fn law_fresh_start(s: StateView, t: StateView, pid: u32)
    ensures
        started(s, pid) == started(t, pid),
        !started(s, pid).cancelled,
{
}

/// Asking to cancel twice is asking once.
pub proof fn law_cancel_twice(s: StateView)
    ensures
        cancelling(cancelling(s)) == cancelling(s),
{
}

/// Two values that differ only in the white space around them.
pub open spec fn same_value(a: Seq<char>, b: Seq<char>) -> bool {
    trimmed(a) == trimmed(b)
}

/// White space around the values of the fields has no part in the arguments, and
/// a blank value counts like an empty one.
pub proof fn law_white_space_ignored(a: MetaView, b: MetaView)
    requires
        same_value(a.mediatype, b.mediatype),
        same_value(a.title, b.title),
        same_value(a.description, b.description),
        same_value(a.creator, b.creator),
        same_value(a.collection, b.collection),
        same_value(a.date, b.date),
        same_value(a.license_url, b.license_url),
        same_value(a.language, b.language),
        a.subjects.len() == b.subjects.len(),
        forall|i: int|
            0 <= i < a.subjects.len() ==> same_value(#[trigger] a.subjects[i], b.subjects[i]),
    ensures
        metadata_args(a) == metadata_args(b),
{
    lemma_same_subjects(a.subjects, b.subjects);
}

proof fn lemma_same_subjects(a: Seq<Seq<char>>, b: Seq<Seq<char>>)
    requires
        a.len() == b.len(),
        forall|i: int| 0 <= i < a.len() ==> same_value(#[trigger] a[i], b[i]),
    ensures
        subject_args(a) == subject_args(b),
    decreases a.len(),
{
    if a.len() > 0 {
        assert forall|i: int| 0 <= i < a.len() - 1 implies same_value(
            #[trigger] a.drop_last()[i],
            b.drop_last()[i],
        ) by {
            assert(same_value(a[i], b[i]));
        }
        lemma_same_subjects(a.drop_last(), b.drop_last());
        assert(same_value(a[a.len() - 1], b[b.len() - 1]));
    }
}

/// The arguments for two lists of subjects are those for the one list, then
/// those for the other: each subject has its own argument, and a blank one none.
pub proof fn law_subjects_apart(a: Seq<Seq<char>>, b: Seq<Seq<char>>)
    ensures
        subject_args(a + b) == subject_args(a) + subject_args(b),
    decreases b.len(),
{
    if b.len() == 0 {
        assert(a + b =~= a);
        assert(subject_args(a) + subject_args(b) =~= subject_args(a));
    } else {
        law_subjects_apart(a, b.drop_last());
        assert((a + b).drop_last() =~= a + b.drop_last());
        assert((a + b).last() == b.last());
        assert(subject_args(a + b) =~= subject_args(a) + subject_args(b));
    }
}

/// A single subject has one argument, with its text trimmed, or none if it is blank.
pub proof fn law_one_subject(subject: Seq<char>)
    ensures
        subject_args(seq![subject]) == field_arg("subject"@, subject),
        subject_args(seq![subject]).len() == (if blank(subject) {
            0nat
        } else {
            1nat
        }),
{
    reveal_with_fuel(subject_args, 2);
    assert(seq![subject].drop_last() =~= Seq::<Seq<char>>::empty());
    assert(subject_args(seq![subject]) =~= field_arg("subject"@, subject));
}

/// Every selected file is handed to `ia`, in order, right behind the identifier.
pub proof fn law_files_handed_over(m: MetaView, files: Seq<Seq<char>>, i: int)
    requires
        0 <= i < files.len(),
    ensures
        upload_args(m, files)[1] == m.identifier,
        upload_args(m, files)[2 + i] == files[i],
        upload_args(m, files).len() == files.len() + metadata_args(m).len() + 4,
{
}

/// Metadata is seen field by field.
pub proof fn law_meta_seen(meta: UploadMeta)
    ensures
        meta@.identifier == meta.identifier@,
        meta@.title == meta.title@,
        meta@.description == meta.description@,
        meta@.mediatype == meta.mediatype@,
        meta@.creator == meta.creator@,
        meta@.collection == meta.collection@,
        meta@.date == meta.date@,
        meta@.license_url == meta.license_url@,
        meta@.language == meta.language@,
        meta@.subjects.len() == meta.subjects@.len(),
        forall|i: int|
            0 <= i < meta.subjects@.len() ==> #[trigger] meta@.subjects[i] == meta.subjects@[i]@,
{
}

/// What an argument for a key begins with.
pub open spec fn opening(key: Seq<char>) -> Seq<char> {
    "--metadata="@ + key + ":"@
}

/// An argument for a key.
pub open spec fn begins(arg: Seq<char>, key: Seq<char>) -> bool {
    opening(key).len() <= arg.len() && arg.take(opening(key).len() as int) == opening(key)
}

/// The arguments for a key among others, in order.
pub open spec fn under(args: Seq<Seq<char>>, key: Seq<char>) -> Seq<Seq<char>>
    decreases args.len(),
{
    if args.len() == 0 {
        seq![]
    } else if begins(args.last(), key) {
        under(args.drop_last(), key).push(args.last())
    } else {
        under(args.drop_last(), key)
    }
}

proof fn lemma_under_join(a: Seq<Seq<char>>, b: Seq<Seq<char>>, key: Seq<char>)
    ensures
        under(a + b, key) == under(a, key) + under(b, key),
    decreases b.len(),
{
    if b.len() == 0 {
        assert(a + b =~= a);
        assert(under(a, key) + under(b, key) =~= under(a, key));
    } else {
        lemma_under_join(a, b.drop_last(), key);
        assert((a + b).drop_last() =~= a + b.drop_last());
        assert((a + b).last() == b.last());
        assert(under(a + b, key) =~= under(a, key) + under(b, key));
    }
}

/// Where at most one argument is for a key, it stands in one place.
proof fn lemma_under_places(args: Seq<Seq<char>>, key: Seq<char>)
    ensures
        under(args, key).len() == 0 ==> forall|i: int|
            0 <= i < args.len() ==> !begins(#[trigger] args[i], key),
        under(args, key).len() == 1 ==> exists|i: int|
            0 <= i < args.len() && #[trigger] args[i] == under(args, key)[0] && begins(
                args[i],
                key,
            ),
        under(args, key).len() == 1 ==> forall|i: int|
            0 <= i < args.len() && begins(#[trigger] args[i], key) ==> args[i] == under(
                args,
                key,
            )[0],
        under(args, key).len() == 1 ==> forall|i: int, j: int|
            0 <= i < args.len() && 0 <= j < args.len() && begins(#[trigger] args[i], key)
                && begins(#[trigger] args[j], key) ==> i == j,
    decreases args.len(),
{
    if args.len() > 0 {
        let rest = args.drop_last();
        lemma_under_places(rest, key);
        assert forall|i: int| 0 <= i < rest.len() implies #[trigger] args[i] == rest[i] by {}
        assert(args[args.len() - 1] == args.last());
        if begins(args.last(), key) {
            if under(args, key).len() == 1 {
                assert(under(rest, key).len() == 0);
                assert forall|i: int| 0 <= i < rest.len() implies !begins(
                    #[trigger] args[i],
                    key,
                ) by {
                    assert(!begins(rest[i], key));
                }
                assert(args[args.len() - 1] == under(args, key)[0]);
            }
        } else {
            if under(args, key).len() == 0 {
                assert forall|i: int| 0 <= i < args.len() implies !begins(
                    #[trigger] args[i],
                    key,
                ) by {
                    if i < rest.len() {
                        assert(!begins(rest[i], key));
                    }
                }
            }
            if under(args, key).len() == 1 {
                let i = choose|i: int|
                    0 <= i < rest.len() && #[trigger] rest[i] == under(rest, key)[0] && begins(
                        rest[i],
                        key,
                    );
                assert(args[i] == under(args, key)[0]);
                assert forall|a: int, b: int|
                    0 <= a < args.len() && 0 <= b < args.len() && begins(#[trigger] args[a], key)
                        && begins(#[trigger] args[b], key) implies a == b by {
                    assert(begins(rest[a], key) && begins(rest[b], key));
                }
                assert forall|a: int|
                    0 <= a < args.len() && begins(#[trigger] args[a], key) implies args[a]
                    == under(args, key)[0] by {
                    assert(begins(rest[a], key));
                }
            }
        }
    }
}

/// A colon ends the key, so that an argument is for one key alone.
proof fn lemma_one_key(key: Seq<char>, other: Seq<char>, value: Seq<char>)
    requires
        !key.contains(':'),
        !other.contains(':'),
    ensures
        begins(opening(key) + value, other) <==> key == other,
{
    reveal_strlit("--metadata=");
    reveal_strlit(":");
    let arg = opening(key) + value;
    let p = opening(other);
    assert(arg.take(opening(key).len() as int) =~= opening(key));
    if begins(arg, other) {
        let n = "--metadata="@.len() as int;
        assert forall|i: int| 0 <= i < p.len() implies p[i] == arg[i] by {
            assert(arg.take(p.len() as int)[i] == arg[i]);
        }
        if key.len() < other.len() {
            assert(arg[n + key.len()] == ':');
            assert(p[n + key.len()] == other[key.len() as int]);
            assert(other.contains(other[key.len() as int]));
        } else if other.len() < key.len() {
            assert(p[n + other.len()] == ':');
            assert(arg[n + other.len()] == key[other.len() as int]);
            assert(key.contains(key[other.len() as int]));
        } else {
            assert forall|i: int| 0 <= i < key.len() implies key[i] == other[i] by {
                assert(arg[n + i] == key[i]);
                assert(p[n + i] == other[i]);
            }
            assert(key =~= other);
        }
    }
}

/// The keys of the fields, in the order in which their arguments come.
pub open spec fn key_at(r: int) -> Seq<char> {
    if r == 0 {
        "mediatype"@
    } else if r == 1 {
        "title"@
    } else if r == 2 {
        "description"@
    } else if r == 3 {
        "creator"@
    } else if r == 4 {
        "collection"@
    } else if r == 5 {
        "date"@
    } else if r == 6 {
        "licenseurl"@
    } else if r == 7 {
        "language"@
    } else {
        "subject"@
    }
}

proof fn lemma_keys()
    ensures
        forall|r: int| 0 <= r < 9 ==> !(#[trigger] key_at(r)).contains(':'),
        forall|r: int, s: int|
            0 <= r < 9 && 0 <= s < 9 && #[trigger] key_at(r) == #[trigger] key_at(s) ==> r == s,
{
    reveal_strlit("mediatype");
    reveal_strlit("title");
    reveal_strlit("description");
    reveal_strlit("creator");
    reveal_strlit("collection");
    reveal_strlit("date");
    reveal_strlit("licenseurl");
    reveal_strlit("language");
    reveal_strlit("subject");
    assert("creator"@[0] != "subject"@[0]);
    assert("collection"@[0] != "licenseurl"@[0]);
    assert("mediatype"@ =~= seq!['m', 'e', 'd', 'i', 'a', 't', 'y', 'p', 'e']);
    assert("title"@ =~= seq!['t', 'i', 't', 'l', 'e']);
    assert("description"@ =~= seq!['d', 'e', 's', 'c', 'r', 'i', 'p', 't', 'i', 'o', 'n']);
    assert("creator"@ =~= seq!['c', 'r', 'e', 'a', 't', 'o', 'r']);
    assert("collection"@ =~= seq!['c', 'o', 'l', 'l', 'e', 'c', 't', 'i', 'o', 'n']);
    assert("date"@ =~= seq!['d', 'a', 't', 'e']);
    assert("licenseurl"@ =~= seq!['l', 'i', 'c', 'e', 'n', 's', 'e', 'u', 'r', 'l']);
    assert("language"@ =~= seq!['l', 'a', 'n', 'g', 'u', 'a', 'g', 'e']);
    assert("subject"@ =~= seq!['s', 'u', 'b', 'j', 'e', 'c', 't']);
}

spec fn field_at(m: MetaView, r: int) -> Seq<char> {
    if r == 0 {
        m.mediatype
    } else if r == 1 {
        m.title
    } else if r == 2 {
        m.description
    } else if r == 3 {
        m.creator
    } else if r == 4 {
        m.collection
    } else if r == 5 {
        m.date
    } else if r == 6 {
        m.license_url
    } else {
        m.language
    }
}

spec fn block(m: MetaView, r: int) -> Seq<Seq<char>> {
    if r < 8 {
        field_arg(key_at(r), field_at(m, r))
    } else {
        subject_args(m.subjects)
    }
}

spec fn blocks(m: MetaView, n: nat) -> Seq<Seq<char>>
    decreases n,
{
    if n == 0 {
        seq![]
    } else {
        blocks(m, (n - 1) as nat) + block(m, n - 1)
    }
}

proof fn lemma_all_blocks(m: MetaView)
    ensures
        metadata_args(m) == blocks(m, 9),
{
    reveal_with_fuel(blocks, 10);
    assert(metadata_args(m) =~= blocks(m, 9));
}

proof fn lemma_subjects_under(subjects: Seq<Seq<char>>, s: int)
    requires
        0 <= s < 9,
    ensures
        under(subject_args(subjects), key_at(s)) == (if s == 8 {
            subject_args(subjects)
        } else {
            seq![]
        }),
        forall|i: int|
            0 <= i < subject_args(subjects).len() ==> begins(
                #[trigger] subject_args(subjects)[i],
                "subject"@,
            ),
    decreases subjects.len(),
{
    if subjects.len() > 0 {
        let init = subjects.drop_last();
        lemma_subjects_under(init, s);
        lemma_field_under(8, subjects.last(), s);
        lemma_under_join(
            subject_args(init),
            field_arg("subject"@, subjects.last()),
            key_at(s),
        );
        assert(under(subject_args(subjects), key_at(s)) =~= (if s == 8 {
            subject_args(subjects)
        } else {
            seq![]
        }));
        let all = subject_args(subjects);
        assert forall|i: int| 0 <= i < all.len() implies begins(#[trigger] all[i], "subject"@) by {
            if i < subject_args(init).len() {
                assert(all[i] == subject_args(init)[i]);
            } else {
                assert(all[i] == field_arg("subject"@, subjects.last())[0]);
            }
        }
    }
}

proof fn lemma_field_under(r: int, value: Seq<char>, s: int)
    requires
        0 <= r < 9,
        0 <= s < 9,
    ensures
        under(field_arg(key_at(r), value), key_at(s)) == (if r == s {
            field_arg(key_at(r), value)
        } else {
            seq![]
        }),
        forall|i: int|
            0 <= i < field_arg(key_at(r), value).len() ==> begins(
                #[trigger] field_arg(key_at(r), value)[i],
                key_at(r),
            ),
{
    lemma_keys();
    let args = field_arg(key_at(r), value);
    lemma_one_key(key_at(r), key_at(s), trimmed(value));
    lemma_one_key(key_at(r), key_at(r), trimmed(value));
    reveal_with_fuel(under, 2);
    if args.len() > 0 {
        assert(args.drop_last() =~= Seq::<Seq<char>>::empty());
        assert(args.last() == opening(key_at(r)) + trimmed(value));
        assert(under(args, key_at(s)) =~= (if r == s {
            args
        } else {
            seq![]
        }));
    }
}

proof fn lemma_block_under(m: MetaView, r: int, s: int)
    requires
        0 <= r < 9,
        0 <= s < 9,
    ensures
        under(block(m, r), key_at(s)) == (if r == s {
            block(m, r)
        } else {
            seq![]
        }),
        forall|i: int|
            0 <= i < block(m, r).len() ==> begins(#[trigger] block(m, r)[i], key_at(r)),
{
    if r < 8 {
        lemma_field_under(r, field_at(m, r), s);
    } else {
        lemma_subjects_under(m.subjects, s);
    }
}

proof fn lemma_blocks_under(m: MetaView, n: nat, s: int)
    requires
        n <= 9,
        0 <= s < 9,
    ensures
        under(blocks(m, n), key_at(s)) == (if s < n {
            block(m, s)
        } else {
            seq![]
        }),
    decreases n,
{
    if n > 0 {
        let k = (n - 1) as nat;
        lemma_blocks_under(m, k, s);
        lemma_block_under(m, k as int, s);
        lemma_under_join(blocks(m, k), block(m, k as int), key_at(s));
        assert(under(blocks(m, n), key_at(s)) =~= (if s < n {
            block(m, s)
        } else {
            seq![]
        }));
    }
}

/// Each field but the subjects has its own argument: one that begins with the key
/// of the field is among the arguments exactly if the field holds more than white
/// space. There is then no other, and behind the key stands the trimmed field. No
/// other field has a part in it.
pub proof fn law_field_argument(m: MetaView, key: Seq<char>, value: Seq<char>)
    requires
        (key == "mediatype"@ && value == m.mediatype)
            || (key == "title"@ && value == m.title)
            || (key == "description"@ && value == m.description)
            || (key == "creator"@ && value == m.creator)
            || (key == "collection"@ && value == m.collection)
            || (key == "date"@ && value == m.date)
            || (key == "licenseurl"@ && value == m.license_url)
            || (key == "language"@ && value == m.language),
    ensures
        (exists|i: int|
            0 <= i < metadata_args(m).len() && begins(#[trigger] metadata_args(m)[i], key)) <==> (
        exists|c: int| 0 <= c < value.len() && !white(#[trigger] value[c])),
        forall|i: int|
            0 <= i < metadata_args(m).len() && begins(#[trigger] metadata_args(m)[i], key)
                ==> metadata_args(m)[i] == "--metadata="@ + key + ":"@ + trimmed(value),
        forall|i: int, j: int|
            0 <= i < metadata_args(m).len() && 0 <= j < metadata_args(m).len() && begins(
                #[trigger] metadata_args(m)[i],
                key,
            ) && begins(#[trigger] metadata_args(m)[j], key) ==> i == j,
{
    let s: int = if key == "mediatype"@ && value == m.mediatype {
        0
    } else if key == "title"@ && value == m.title {
        1
    } else if key == "description"@ && value == m.description {
        2
    } else if key == "creator"@ && value == m.creator {
        3
    } else if key == "collection"@ && value == m.collection {
        4
    } else if key == "date"@ && value == m.date {
        5
    } else if key == "licenseurl"@ && value == m.license_url {
        6
    } else {
        7
    };
    assert(key == key_at(s) && value == field_at(m, s));
    lemma_all_blocks(m);
    lemma_blocks_under(m, 9, s);
    lemma_under_places(metadata_args(m), key);
    law_blank(value);
}

/// What one item's arguments hold for a key is what another's hold, if the fields
/// with that key are the same, whatever the other fields are.
pub proof fn law_fields_apart(a: MetaView, b: MetaView)
    ensures
        a.mediatype == b.mediatype ==> under(metadata_args(a), "mediatype"@) == under(
            metadata_args(b),
            "mediatype"@,
        ),
        a.title == b.title ==> under(metadata_args(a), "title"@) == under(
            metadata_args(b),
            "title"@,
        ),
        a.description == b.description ==> under(metadata_args(a), "description"@) == under(
            metadata_args(b),
            "description"@,
        ),
        a.creator == b.creator ==> under(metadata_args(a), "creator"@) == under(
            metadata_args(b),
            "creator"@,
        ),
        a.collection == b.collection ==> under(metadata_args(a), "collection"@) == under(
            metadata_args(b),
            "collection"@,
        ),
        a.date == b.date ==> under(metadata_args(a), "date"@) == under(metadata_args(b), "date"@),
        a.license_url == b.license_url ==> under(metadata_args(a), "licenseurl"@) == under(
            metadata_args(b),
            "licenseurl"@,
        ),
        a.language == b.language ==> under(metadata_args(a), "language"@) == under(
            metadata_args(b),
            "language"@,
        ),
        a.subjects == b.subjects ==> under(metadata_args(a), "subject"@) == under(
            metadata_args(b),
            "subject"@,
        ),
{
    lemma_all_blocks(a);
    lemma_all_blocks(b);
    assert forall|s: int| 0 <= s < 9 implies under(metadata_args(a), #[trigger] key_at(s))
        == block(a, s) && under(metadata_args(b), key_at(s)) == block(b, s) by {
        lemma_blocks_under(a, 9, s);
        lemma_blocks_under(b, 9, s);
    }
    assert(key_at(0) == "mediatype"@);
    assert(key_at(1) == "title"@);
    assert(key_at(2) == "description"@);
    assert(key_at(3) == "creator"@);
    assert(key_at(4) == "collection"@);
    assert(key_at(5) == "date"@);
    assert(key_at(6) == "licenseurl"@);
    assert(key_at(7) == "language"@);
    assert(key_at(8) == "subject"@);
}

/// The arguments of an item's subjects, and no others, begin with their key. They
/// come in the order of the subjects: taking one more subject adds its argument at
/// the end, or nothing if it is white space alone.
pub proof fn law_subject_arguments(m: MetaView, more: MetaView, subject: Seq<char>)
    requires
        more.subjects == m.subjects.push(subject),
    ensures
        m.subjects.len() == 0 ==> under(metadata_args(m), "subject"@).len() == 0,
        (exists|c: int| 0 <= c < subject.len() && !white(#[trigger] subject[c])) ==> under(
            metadata_args(more),
            "subject"@,
        ) == under(metadata_args(m), "subject"@).push(
            "--metadata="@ + "subject"@ + ":"@ + trimmed(subject),
        ),
        (forall|c: int| 0 <= c < subject.len() ==> white(#[trigger] subject[c])) ==> under(
            metadata_args(more),
            "subject"@,
        ) == under(metadata_args(m), "subject"@),
{
    lemma_all_blocks(m);
    lemma_all_blocks(more);
    lemma_blocks_under(m, 9, 8);
    lemma_blocks_under(more, 9, 8);
    law_blank(subject);
    assert(more.subjects.drop_last() =~= m.subjects);
    assert(more.subjects.last() == subject);
    if !blank(subject) {
        assert(subject_args(more.subjects) =~= subject_args(m.subjects).push(
            "--metadata="@ + "subject"@ + ":"@ + trimmed(subject),
        ));
    } else {
        assert(subject_args(more.subjects) =~= subject_args(m.subjects));
    }
}

proof fn lemma_block_of(m: MetaView, n: nat, i: int) -> (r: int)
    requires
        n <= 9,
        0 <= i < blocks(m, n).len(),
    ensures
        0 <= r < n,
        blocks(m, r as nat).len() <= i < blocks(m, (r + 1) as nat).len(),
        begins(blocks(m, n)[i], key_at(r)),
    decreases n,
{
    let k = (n - 1) as nat;
    if i < blocks(m, k).len() {
        let r = lemma_block_of(m, k, i);
        assert(blocks(m, n)[i] == blocks(m, k)[i]);
        r
    } else {
        lemma_block_under(m, k as int, k as int);
        assert(blocks(m, n)[i] == block(m, k as int)[i - blocks(m, k).len()]);
        k as int
    }
}

proof fn lemma_blocks_grow(m: MetaView, a: nat, b: nat)
    requires
        a <= b,
    ensures
        blocks(m, a).len() <= blocks(m, b).len(),
    decreases b,
{
    if a < b {
        lemma_blocks_grow(m, a, (b - 1) as nat);
    }
}

proof fn lemma_key_of(arg: Seq<char>, r: int, s: int)
    requires
        0 <= r < 9,
        0 <= s < 9,
        begins(arg, key_at(r)),
        begins(arg, key_at(s)),
    ensures
        r == s,
{
    lemma_keys();
    let p = opening(key_at(r));
    lemma_one_key(key_at(r), key_at(s), arg.skip(p.len() as int));
    assert(arg =~= p + arg.skip(p.len() as int)) by {
        assert(arg =~= arg.take(p.len() as int) + arg.skip(p.len() as int));
    }
}

/// Every argument is for a field of the item or for a subject: there are no others.
pub proof fn law_arguments_have_keys(m: MetaView, i: int)
    requires
        0 <= i < metadata_args(m).len(),
    ensures
        exists|r: int| 0 <= r < 9 && begins(metadata_args(m)[i], #[trigger] key_at(r)),
{
    lemma_all_blocks(m);
    let r = lemma_block_of(m, 9, i);
    assert(begins(metadata_args(m)[i], key_at(r)));
}

/// The arguments come in the order of their keys, those of the subjects last.
pub proof fn law_arguments_in_order(m: MetaView, i: int, j: int, r: int, s: int)
    requires
        0 <= i < j < metadata_args(m).len(),
        0 <= r < 9,
        0 <= s < 9,
        begins(metadata_args(m)[i], key_at(r)),
        begins(metadata_args(m)[j], key_at(s)),
    ensures
        r <= s,
{
    lemma_all_blocks(m);
    let a = lemma_block_of(m, 9, i);
    let b = lemma_block_of(m, 9, j);
    lemma_key_of(metadata_args(m)[i], a, r);
    lemma_key_of(metadata_args(m)[j], b, s);
    if s < r {
        lemma_blocks_grow(m, (s + 1) as nat, r as nat);
    }
}

/// `ia` is handed the identifier and the files, each unchanged and in its place,
/// then the metadata, and last what has it check and retry.
pub proof fn law_upload_arguments(m: MetaView, files: Seq<Seq<char>>)
    ensures
        upload_args(m, files).len() == 2 + files.len() + metadata_args(m).len() + 2,
        upload_args(m, files)[0] == "upload"@,
        upload_args(m, files)[1] == m.identifier,
        forall|i: int| 0 <= i < files.len() ==> upload_args(m, files)[2 + i] == #[trigger] files[i],
        forall|i: int|
            0 <= i < metadata_args(m).len() ==> upload_args(m, files)[2 + files.len() + i]
                == #[trigger] metadata_args(m)[i],
        upload_args(m, files)[upload_args(m, files).len() - 2] == "--checksum"@,
        upload_args(m, files)[upload_args(m, files).len() - 1] == "--retries=10"@,
{
}

/// The log of an upload opens with the identifier, the kind of item and how many
/// files there are.
pub proof fn law_opening_log(m: MetaView, files: Seq<Seq<char>>, count: Seq<char>)
    requires
        count.len() > 0,
        forall|i: int| 0 <= i < count.len() ==> '0' <= #[trigger] count[i] <= '9',
        count[0] != '0' || count.len() == 1,
        spelled_number(count) == files.len(),
    ensures
        opening_log(m, files).len() == 4,
        opening_log(m, files)[0] == "Uploading to archive.org as '"@ + m.identifier + "'…"@,
        opening_log(m, files)[1] == "  identifier : "@ + m.identifier,
        opening_log(m, files)[2] == "  mediatype  : "@ + m.mediatype,
        opening_log(m, files)[3] == "  files      : "@ + count,
{
    law_decimal_only(count);
}

/// A running upload is the one that was started last.
pub proof fn law_started_runs(s: StateView, pid: u32)
    ensures
        started(s, pid).pid == Some(pid),
        !started(s, pid).cancelled,
{
}

/// Asking to cancel marks a running upload, and leaves it running until its
/// process ends. Without one, nothing changes.
pub proof fn law_cancelling(s: StateView)
    ensures
        cancelling(s).pid == s.pid,
        s.pid is Some ==> cancelling(s).cancelled,
        s.pid is None ==> cancelling(s).cancelled == s.cancelled,
{
}

/// The end of an upload forgets its process, and nothing else.
pub proof fn law_ended(s: StateView, exit: UploadExit)
    ensures
        ended(s, exit).pid is None,
        ended(s, exit).cancelled == s.cancelled,
{
}

/// What became of an upload: whether it succeeded hangs on its exit and on
/// whether it was cancelled, and each way to fail has its own words.
pub proof fn law_result_of_upload(s: StateView, reason: String, success: bool)
    ensures
        upload_result(s, UploadExit::WaitFailed(reason)) == Err::<(), Seq<char>>(
            "ia wait failed: "@ + reason@,
        ),
        upload_result(s, UploadExit::Exited { success }) is Ok <==> success && !s.cancelled,
        s.cancelled ==> upload_result(s, UploadExit::Exited { success }) == Err::<(), Seq<char>>(
            "cancelled"@,
        ),
        !s.cancelled ==> upload_result(s, UploadExit::Exited { success: false }) == Err::<
            (),
            Seq<char>,
        >("Upload failed — see log for details"@),
{
}

/// What is logged last: the address of an item that was uploaded, or that the
/// upload was cancelled, and nothing after any other failure.
pub proof fn law_closing_log(s: StateView, identifier: Seq<char>, exit: UploadExit)
    ensures
        closing_log(s, identifier, exit).len() <= 1,
        upload_result(s, exit) is Ok ==> closing_log(s, identifier, exit)
            == seq!["Upload complete!  https://archive.org/details/"@ + identifier],
        exit is Exited && s.cancelled ==> closing_log(s, identifier, exit)
            == seq!["Upload of '"@ + identifier + "' cancelled."@],
        exit is WaitFailed || (upload_result(s, exit) is Err && !s.cancelled) ==> closing_log(
            s,
            identifier,
            exit,
        ).len() == 0,
{
}

} // verus!
