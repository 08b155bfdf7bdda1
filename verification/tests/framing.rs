use mvcc_rs::framing::{complete_frames, frame, RECORD_END};

#[test]
fn test_frame_ends_the_record() {
    assert_eq!(RECORD_END, b'\n');
    assert_eq!(frame(&b"abc".to_vec()), Some(b"abc\n".to_vec()));
    assert_eq!(frame(&Vec::new()), Some(b"\n".to_vec()));
}

#[test]
fn test_frame_refuses_a_line_feed() {
    assert_eq!(frame(&b"a\nb".to_vec()), None);
    assert_eq!(frame(&b"\n".to_vec()), None);
    assert_eq!(frame(&b"ab\n".to_vec()), None);
}

#[test]
fn test_complete_frames_of_an_empty_log() {
    assert_eq!(complete_frames(&Vec::new()), Vec::<Vec<u8>>::new());
}

#[test]
fn test_complete_frames_reads_every_record() {
    assert_eq!(
        complete_frames(&b"one\ntwo\n\nfour\n".to_vec()),
        vec![b"one".to_vec(), b"two".to_vec(), Vec::new(), b"four".to_vec()]
    );
}

#[test]
fn test_complete_frames_leaves_a_cut_record_out() {
    assert_eq!(complete_frames(&b"one\ntw".to_vec()), vec![b"one".to_vec()]);
    assert_eq!(complete_frames(&b"on".to_vec()), Vec::<Vec<u8>>::new());
}

#[test]
fn test_frames_round_trip() {
    let payloads = vec![b"{\"a\":1}".to_vec(), Vec::new(), b"{\"b\":[2,3]}".to_vec()];
    let mut log: Vec<u8> = Vec::new();
    for payload in &payloads {
        log.extend(frame(payload).unwrap());
    }
    assert_eq!(complete_frames(&log), payloads);
    log.extend(b"{\"c\":");
    assert_eq!(complete_frames(&log), payloads);
}
