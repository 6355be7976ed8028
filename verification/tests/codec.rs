use broadcast_chat::codec::frame;
use broadcast_chat::codec::unframe;
use broadcast_chat::codec::DELIMITER;

#[test]
fn frame_appends_exactly_one_newline() {
    let msg = b"hello".to_vec();
    let out = frame(&msg);
    assert_eq!(out, b"hello\n".to_vec());
    assert_eq!(out.iter().filter(|b| **b == DELIMITER).count(), 1);
}

#[test]
fn frame_of_the_empty_message_is_a_bare_newline() {
    // An empty line from a client is broadcast as an empty message.
    let out = frame(&Vec::new());
    assert_eq!(out, vec![DELIMITER]);
}

#[test]
fn unframe_strips_a_trailing_delimiter() {
    assert_eq!(unframe(&b"hello\n".to_vec()), b"hello".to_vec());
    assert_eq!(unframe(&b"\n".to_vec()), Vec::<u8>::new());
}

#[test]
fn unframe_keeps_an_unterminated_chunk() {
    // A final chunk cut short by the end of the stream has no delimiter.
    assert_eq!(unframe(&b"partial".to_vec()), b"partial".to_vec());
    assert_eq!(unframe(&Vec::new()), Vec::<u8>::new());
}

#[test]
fn a_senders_lines_keep_their_order_on_the_wire() {
    // Writing "one" then "two" produces a byte stream whose lines come
    // back in exactly that order.
    let mut stream = frame(&b"one".to_vec());
    stream.extend(frame(&b"two".to_vec()));
    assert_eq!(stream, b"one\ntwo\n".to_vec());
    let lines: Vec<Vec<u8>> = stream
        .split(|b| *b == DELIMITER)
        .filter(|chunk| !chunk.is_empty())
        .map(|chunk| chunk.to_vec())
        .collect();
    assert_eq!(lines, vec![b"one".to_vec(), b"two".to_vec()]);
}

#[test]
fn frame_then_unframe_returns_the_message() {
    for msg in [b"".to_vec(), b"a".to_vec(), b"some words".to_vec()] {
        assert_eq!(unframe(&frame(&msg)), msg);
    }
}
