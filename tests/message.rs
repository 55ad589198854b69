use bpf_linker::message::display_text;

#[test]
fn empty_message_text() {
    assert_eq!(display_text(None), "(empty)");
}

#[test]
fn message_contents_are_shown() {
    assert_eq!(display_text(Some("LLVM ERROR: bad")), "LLVM ERROR: bad");
    assert_eq!(display_text(Some("")), "");
}
