use task_maker::outputs_equal::{compared_subtasks, identical_outputs, OutputHasher, TestcaseOutput};

fn hash_chunks(chunks: &[&[u8]]) -> TestcaseOutput {
    let mut h = OutputHasher::new(3);
    for c in chunks {
        assert!(h.add_chunk(c).is_none());
    }
    let out = h.add_chunk(&[]).expect("the empty chunk ends the file");
    assert_eq!(h.subtask(), 3);
    out
}

#[test]
fn hash_of_chunks_is_hash_of_whole_file() {
    let out = hash_chunks(&[b"hello ", b"world"]);
    assert_eq!(out.hash, *blake3::hash(b"hello world").as_bytes());
    assert_eq!(out.first_chunk, Some(b"hello ".to_vec()));
}

#[test]
fn empty_file_has_no_first_chunk() {
    let out = hash_chunks(&[]);
    assert_eq!(out.first_chunk, None);
    assert_eq!(out.hash, *blake3::hash(b"").as_bytes());
    assert_ne!(out.hash, [0u8; 32]);
}

#[test]
fn identical_outputs_are_reported() {
    let a = hash_chunks(&[b"42\n"]);
    let b = hash_chunks(&[b"4", b"2\n"]);
    let w = identical_outputs(1, Some("easy"), &vec![a, b], 2).expect("a warning");
    assert_eq!(w.message, "All outputs for subtask 1 (easy) are identical");
    assert_eq!(w.note, Some("They all start with: 42\n".to_string()));
}

#[test]
fn identical_outputs_note_is_cut_at_twenty_chars() {
    let a = hash_chunks(&["ééééééééééééééééééééééé".as_bytes()]);
    let b = hash_chunks(&["ééééééééééééééééééééééé".as_bytes()]);
    let w = identical_outputs(0, None, &vec![a, b], 2).expect("a warning");
    assert_eq!(w.message, "All outputs for subtask 0 are identical");
    assert_eq!(w.note, Some("They all start with: éééééééééééééééééééé".to_string()));
}

#[test]
fn identical_outputs_without_utf8_have_no_note() {
    let a = hash_chunks(&[&[0xff, 0xfe]]);
    let b = hash_chunks(&[&[0xff, 0xfe]]);
    let w = identical_outputs(2, None, &vec![a, b], 2).expect("a warning");
    assert_eq!(w.note, None);
}

#[test]
fn different_outputs_are_not_reported() {
    let a = hash_chunks(&[b"1\n"]);
    let b = hash_chunks(&[b"2\n"]);
    assert!(identical_outputs(1, None, &vec![a, b], 2).is_none());
}

#[test]
fn missing_outputs_are_not_reported() {
    let a = hash_chunks(&[b"1\n"]);
    assert!(identical_outputs(1, None, &vec![a], 2).is_none());
}

#[test]
fn only_subtasks_with_two_testcases_are_compared() {
    assert_eq!(compared_subtasks(&vec![(0, 1), (1, 2), (2, 0), (3, 5)]), vec![1, 3]);
    assert!(compared_subtasks(&vec![]).is_empty());
}
