use archive_ui::stream::{
    segment_event, stream_cr_lf, ProgressThrottle, StreamEvent, StreamSplitter,
};

fn show(e: StreamEvent) -> String {
    match e {
        StreamEvent::Line(s) => format!("L:{}", s),
        StreamEvent::Progress(s) => format!("P:{}", s),
    }
}

fn shown(bytes: &[u8]) -> Vec<String> {
    stream_cr_lf(bytes).into_iter().map(show).collect()
}

#[test]
fn lines_and_progress() {
    assert_eq!(
        shown(b"start\n 10%\r 50%  \r100%\r\ndone\nlast"),
        vec!["L:start", "P: 10%", "P: 50%", "P:100%", "L:done", "L:last"]
    );
    assert_eq!(shown(b""), Vec::<String>::new());
    assert_eq!(shown(b"\n\r \r\t\n  "), Vec::<String>::new());
    assert_eq!(shown(b"x\r\n"), vec!["P:x"]);
}

#[test]
fn bytes_that_are_not_utf8() {
    assert_eq!(shown(b"a\xffb\n"), vec!["L:a\u{fffd}b"]);
    assert_eq!(shown("é…\r".as_bytes()), vec!["P:é…"]);
}

#[test]
fn pieces_make_no_difference() {
    let bytes = "one\ntwo é\r\n\rthree\n  four".as_bytes();
    let whole = shown(bytes);
    for cut in 0..=bytes.len() {
        let mut splitter = StreamSplitter::new();
        let mut events = splitter.feed(&bytes[..cut]);
        events.extend(splitter.feed(&bytes[cut..]));
        events.extend(splitter.finish());
        let pieces: Vec<String> = events.into_iter().map(show).collect();
        assert_eq!(pieces, whole);
    }
    assert_eq!(whole, vec!["L:one", "P:two é", "L:three", "L:  four"]);
}

#[test]
fn segments() {
    assert!(segment_event(" \t", true).is_none());
    assert_eq!(segment_event(" a ", true).map(show), Some("P: a".to_string()));
    assert_eq!(segment_event("a\n", false).map(show), Some("L:a".to_string()));
}

#[test]
fn progress_is_kept_apart() {
    let mut t = ProgressThrottle::new();
    assert!(t.due(0));
    t.shown(5);
    assert!(!t.due(5));
    assert!(!t.due(120_000_004));
    assert!(t.due(120_000_005));
    assert!(!t.due(3));
}

#[test]
fn no_event_goes_over_the_end_of_a_line() {
    let bytes = b"a\xc3\nb\xe2\x82\rc\xf0\n\r\n\xff\x85 d\x0b\r";
    let events = shown(bytes);
    assert_eq!(
        events,
        vec!["L:a\u{fffd}", "P:b\u{fffd}", "L:c\u{fffd}", "P:\u{fffd}\u{fffd} d"]
    );
    for e in events {
        assert!(!e.contains('\n') && !e.contains('\r'));
        assert_eq!(e.trim_end(), e);
    }
}
