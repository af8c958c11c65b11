use archive_ui::upload::{
    cancel_upload, metadata_arguments, upload_not_started, upload_to_archive, UploadExit,
    UploadMeta, UploadState,
};

fn meta() -> UploadMeta {
    UploadMeta {
        identifier: "my-item".to_string(),
        title: " My Item ".to_string(),
        description: "line\ntwo".to_string(),
        mediatype: "texts".to_string(),
        subjects: vec![" a".to_string(), "  ".to_string(), "b c".to_string()],
        creator: "Me".to_string(),
        collection: "".to_string(),
        date: " \t".to_string(),
        license_url: "https://example.org/by".to_string(),
        language: "eng".to_string(),
    }
}

fn files() -> Vec<String> {
    vec!["/f/b".to_string(), "/f/a".to_string()]
}

#[test]
fn metadata() {
    assert_eq!(
        metadata_arguments(&meta()),
        vec![
            "--metadata=mediatype:texts",
            "--metadata=title:My Item",
            "--metadata=description:line\ntwo",
            "--metadata=creator:Me",
            "--metadata=licenseurl:https://example.org/by",
            "--metadata=language:eng",
            "--metadata=subject:a",
            "--metadata=subject:b c",
        ]
    );
    let mut dated = meta();
    dated.collection = "open_source_software".to_string();
    dated.date = "2024-01-02".to_string();
    let args = metadata_arguments(&dated);
    assert_eq!(args[4], "--metadata=collection:open_source_software");
    assert_eq!(args[5], "--metadata=date:2024-01-02");
}

#[test]
fn white_space_makes_no_difference() {
    let mut other = meta();
    other.title = "My Item".to_string();
    other.collection = "\n".to_string();
    other.subjects[0] = "a ".to_string();
    assert_eq!(metadata_arguments(&other), metadata_arguments(&meta()));
}

#[test]
fn plans() {
    let plan = upload_to_archive(Some("/bin/ia"), &meta(), &files()).ok().unwrap();
    assert_eq!(plan.run.program, "/bin/ia");
    let mut expected = vec!["upload".to_string(), "my-item".to_string()];
    expected.extend(files());
    expected.extend(metadata_arguments(&meta()));
    expected.push("--checksum".to_string());
    expected.push("--retries=10".to_string());
    assert_eq!(plan.run.args, expected);
    assert_eq!(
        plan.log,
        vec![
            "Uploading to archive.org as 'my-item'…",
            "  identifier : my-item",
            "  mediatype  : texts",
            "  files      : 2",
        ]
    );
}

#[test]
fn refused_plans() {
    let none = Some("No files selected to upload.".to_string());
    assert_eq!(upload_to_archive(Some("ia"), &meta(), &vec![]).err(), none);
    assert_eq!(upload_to_archive(None, &meta(), &vec![]).err(), none);
    let hint = "The 'ia' CLI is not installed.\nInstall it with:  pip install internetarchive";
    assert_eq!(upload_to_archive(None, &meta(), &files()).err(), Some(hint.to_string()));
    assert_eq!(upload_not_started("no fork"), "Failed to spawn ia upload: no fork");
}

fn exit(success: bool) -> UploadExit {
    UploadExit::Exited { success }
}

#[test]
fn uploads_by_their_exit() {
    let mut state = UploadState::default();
    state.start(7);
    let r = state.finish("x", &exit(true));
    assert_eq!(r.result, Ok(()));
    assert_eq!(r.log, vec!["Upload complete!  https://archive.org/details/x"]);
    state.start(8);
    let r = state.finish("x", &exit(false));
    assert_eq!(r.result, Err("Upload failed — see log for details".to_string()));
    assert_eq!(r.log, Vec::<String>::new());
}

#[test]
fn cancelled_uploads() {
    let idle = Some("No upload is currently in progress.".to_string());
    let mut state = UploadState::default();
    assert_eq!(cancel_upload(&mut state).err(), idle);
    state.start(4711);
    for _ in 0..2 {
        let kill = cancel_upload(&mut state).ok().unwrap();
        assert_eq!((kill.program.as_str(), kill.args), ("kill", vec!["4711".to_string()]));
    }
    let r = state.finish("x", &exit(true));
    assert_eq!(r.result, Err("cancelled".to_string()));
    assert_eq!(r.log, vec!["Upload of 'x' cancelled."]);
    assert_eq!(cancel_upload(&mut state).err(), idle);
    state.start(12);
    assert_eq!(state.finish("y", &exit(true)).result, Ok(()));
}

#[test]
fn waiting_that_fails() {
    let mut state = UploadState::default();
    state.start(9);
    let r = state.finish("x", &UploadExit::WaitFailed("interrupted".to_string()));
    assert_eq!(r.result, Err("ia wait failed: interrupted".to_string()));
    assert_eq!(r.log, Vec::<String>::new());
    assert_eq!(
        cancel_upload(&mut state).err(),
        Some("No upload is currently in progress.".to_string())
    );
}
