//! Looking up an item that archive.org already has.

use vstd::prelude::*;

use crate::bytes::{lossy, read_text};
use crate::command::{label_bytes, labelled, read_truly, Invocation, RunOutcome};
use crate::ia::{ia_command, ia_missing};
use crate::json::{
    get,
    holds,
    is_populated,
    law_populated,
    law_text_member,
    parse,
    parsed,
    text_member,
    Json,
};
use crate::text::{blank, join2, opt_str, texts, trim, trimmed};

verus! {

/// Ownership details of an item that archive.org may have.
pub struct ItemInfo {
    pub exists: bool,
    /// Email of the account that created the item, or nothing if it is not known.
    pub uploader: String,
    pub title: String,
}

/// The view of an item's details.
pub struct ItemView {
    pub exists: bool,
    pub uploader: Seq<char>,
    pub title: Seq<char>,
}

impl View for ItemInfo {
    type V = ItemView;

    open spec fn view(&self) -> ItemView {
        ItemView { exists: self.exists, uploader: self.uploader@, title: self.title@ }
    }
}

/// The run of `ia` that reads an item's metadata, or an error if the identifier
/// is blank or there is no `ia`.
pub fn inspect_item(bin: Option<&str>, identifier: &str) -> (r: Result<Invocation, String>)
    ensures
        r is Ok <==> !blank(identifier@) && bin is Some,
        r matches Ok(i) ==> i.runs(bin->0@, seq!["metadata"@, trimmed(identifier@)]),
        r matches Err(e) ==> e@ == (if blank(identifier@) {
            "No identifier provided."@
        } else {
            ia_missing()
        }),
{
    let id = trim(identifier);
    if id.is_empty() {
        return Err("No identifier provided.".to_string());
    }
    match ia_command(bin) {
        Ok(i) => {
            let i = i.arg("metadata").arg(id);
            proof {
                assert(texts(i.args@) =~= seq!["metadata"@, trimmed(identifier@)]);
            }
            Ok(i)
        },
        Err(e) => Err(e),
    }
}

/// A text, or the empty one.
pub open spec fn or_empty(o: Option<Seq<char>>) -> Seq<char> {
    match o {
        Some(s) => s,
        None => ""@,
    }
}

/// An item's details: whether its metadata is populated, and who and what they name.
pub fn item_info(populated: bool, uploader: Option<&str>, title: Option<&str>) -> (r: ItemInfo)
    ensures
        r@ == (ItemView {
            exists: populated,
            uploader: or_empty(opt_str(uploader)),
            title: or_empty(opt_str(title)),
        }),
{
    ItemInfo {
        exists: populated,
        uploader: uploader.unwrap_or("").to_string(),
        title: title.unwrap_or("").to_string(),
    }
}

/// The details of an item by the value under `metadata`, if there is one.
pub open spec fn metadata_item(meta: Option<Json>) -> ItemView {
    match meta {
        Some(m) => ItemView {
            exists: m.populated(),
            uploader: or_empty(m.text_member("uploader"@)),
            title: or_empty(m.text_member("title"@)),
        },
        None => ItemView { exists: false, uploader: ""@, title: ""@ },
    }
}

/// The details of an item by what `ia metadata` printed. What is not JSON tells nothing.
pub open spec fn printed_item(reply: Option<Json>) -> ItemView {
    metadata_item(
        match reply {
            Some(json) => json.member("metadata"@),
            None => None,
        },
    )
}

/// What a lookup of an item says.
pub open spec fn inspected(outcome: RunOutcome) -> Result<ItemView, Seq<char>> {
    match outcome {
        RunOutcome::NotRun(reason) => Err("ia metadata failed: "@ + reason@),
        RunOutcome::Exited { success, stdout, stderr } => if !success {
            Err(labelled("Lookup failed: "@, lossy(stderr@)))
        } else {
            Ok(printed_item(parsed(lossy(stdout@))))
        },
    }
}

/// What a lookup of an item says, from what came of the run that does it.
pub fn inspect_item_result(outcome: &RunOutcome) -> (r: Result<ItemInfo, String>)
    ensures
        r is Ok <==> inspected(*outcome) is Ok,
        r matches Ok(info) ==> inspected(*outcome) == Ok::<ItemView, Seq<char>>(info@),
        r matches Err(e) ==> inspected(*outcome) == Err::<ItemView, Seq<char>>(e@),
        read_truly(*outcome),
{
    match outcome {
        RunOutcome::NotRun(reason) => Err(join2("ia metadata failed: ", reason.as_str())),
        RunOutcome::Exited { success, stdout, stderr } => {
            if !*success {
                return Err(label_bytes("Lookup failed: ", stderr.as_slice()));
            }
            let body = read_text(stdout.as_slice());
            match parse(body.as_str()) {
                Ok(json) => match get(&json, "metadata") {
                    Some(meta) => Ok(
                        item_info(
                            is_populated(meta),
                            text_member(meta, "uploader"),
                            text_member(meta, "title"),
                        ),
                    ),
                    None => Ok(item_info(false, None, None)),
                },
                Err(_) => Ok(item_info(false, None, None)),
            }
        },
    }
}

/// An item exists exactly if the value under `metadata` is a populated object,
/// and an item that does not exist has neither uploader nor title.
pub proof fn law_exists_if_populated(meta: Option<Json>)
    ensures
        metadata_item(meta).exists <==> (meta is Some && meta->0.populated()),
        !metadata_item(meta).exists ==> metadata_item(meta).uploader == ""@ && metadata_item(
            meta,
        ).title == ""@,
{
    if let Some(Json::Object(members)) = meta {
        if members.dom().is_empty() {
            assert(!members.dom().contains("uploader"@));
            assert(!members.dom().contains("title"@));
        }
    }
}

/// The value is an object with this value under `metadata`.
pub open spec fn has_metadata(reply: Json, meta: Json) -> bool {
    reply matches Json::Object(object) && object.dom().contains("metadata"@) && object["metadata"@]
        == meta
}

/// Details are seen as they are.
pub proof fn law_item_seen(i: ItemInfo)
    ensures
        i@.exists == i.exists,
        i@.uploader == i.uploader@,
        i@.title == i.title@,
{
}

/// The uploader that a lookup names is the string under `uploader` of the item's
/// metadata, and the title the one under `title`. Where there is no such string,
/// the place is left empty. No other member has a part in either.
pub proof fn law_lookup_owner_and_title(
    stdout: Vec<u8>,
    stderr: Vec<u8>,
    reply: Json,
    meta: Json,
    s: Seq<char>,
)
    requires
        parsed(lossy(stdout@)) == Some(reply),
        has_metadata(reply, meta),
    ensures
        inspected(RunOutcome::Exited { success: true, stdout, stderr }) is Ok,
        holds(meta, "uploader"@, s) ==> inspected(
            RunOutcome::Exited { success: true, stdout, stderr },
        )->Ok_0.uploader == s,
        holds(meta, "title"@, s) ==> inspected(
            RunOutcome::Exited { success: true, stdout, stderr },
        )->Ok_0.title == s,
        (forall|t: Seq<char>| !(#[trigger] holds(meta, "uploader"@, t))) ==> inspected(
            RunOutcome::Exited { success: true, stdout, stderr },
        )->Ok_0.uploader.len() == 0,
        (forall|t: Seq<char>| !(#[trigger] holds(meta, "title"@, t))) ==> inspected(
            RunOutcome::Exited { success: true, stdout, stderr },
        )->Ok_0.title.len() == 0,
{
    reveal_strlit("");
    law_text_member(meta, "uploader"@, s);
    law_text_member(meta, "title"@, s);
    if let Some(t) = meta.text_member("uploader"@) {
        law_text_member(meta, "uploader"@, t);
        assert(holds(meta, "uploader"@, t));
    }
    if let Some(t) = meta.text_member("title"@) {
        law_text_member(meta, "title"@, t);
        assert(holds(meta, "title"@, t));
    }
}

/// A lookup finds an item exactly if the reply is JSON that has an object with at
/// least one member under `metadata`.
pub proof fn law_lookup_exists(stdout: Vec<u8>, stderr: Vec<u8>)
    ensures
        inspected(RunOutcome::Exited { success: true, stdout, stderr }) is Ok,
        inspected(RunOutcome::Exited { success: true, stdout, stderr })->Ok_0.exists <==> exists|
            reply: Json,
            object: Map<Seq<char>, Json>,
            key: Seq<char>,
        |
            parsed(lossy(stdout@)) == Some(reply) && #[trigger] has_metadata(
                reply,
                Json::Object(object),
            ) && #[trigger] object.dom().contains(key),
{
    if let Some(reply) = parsed(lossy(stdout@)) {
        if let Some(meta) = reply.member("metadata"@) {
            law_populated(meta);
            assert(has_metadata(reply, meta));
            if meta.populated() {
                let object = meta->Object_0;
                let key = choose|key: Seq<char>| object.dom().contains(key);
                assert(has_metadata(reply, Json::Object(object)) && object.dom().contains(key));
            }
        }
    }
}

/// Where nothing stands under `metadata`, or the reply is no JSON, a lookup finds
/// nothing and names nobody.
pub proof fn law_lookup_nothing(stdout: Vec<u8>, stderr: Vec<u8>)
    requires
        forall|reply: Json, meta: Json|
            parsed(lossy(stdout@)) == Some(reply) ==> !(#[trigger] has_metadata(reply, meta)),
    ensures
        inspected(RunOutcome::Exited { success: true, stdout, stderr }) is Ok,
        !inspected(RunOutcome::Exited { success: true, stdout, stderr })->Ok_0.exists,
        inspected(
            RunOutcome::Exited { success: true, stdout, stderr },
        )->Ok_0.uploader.len() == 0,
        inspected(RunOutcome::Exited { success: true, stdout, stderr })->Ok_0.title.len() == 0,
{
    reveal_strlit("");
    if let Some(reply) = parsed(lossy(stdout@)) {
        if let Some(meta) = reply.member("metadata"@) {
            assert(has_metadata(reply, meta));
        }
    }
}

/// A lookup of an item fails exactly if the program did not run or failed, and the
/// error says which.
pub proof fn law_lookup_item_error(reason: String, stdout: Vec<u8>, stderr: Vec<u8>)
    ensures
        inspected(RunOutcome::NotRun(reason)) == Err::<ItemView, Seq<char>>(
            "ia metadata failed: "@ + reason@,
        ),
        inspected(RunOutcome::Exited { success: false, stdout, stderr }) == Err::<
            ItemView,
            Seq<char>,
        >("Lookup failed: "@ + trimmed(lossy(stderr@))),
{
}

/// What is missing is left empty, and what is there stands as it is.
pub proof fn law_or_empty(s: Seq<char>)
    ensures
        or_empty(Some(s)) == s,
        or_empty(None).len() == 0,
{
    reveal_strlit("");
}

} // verus!
