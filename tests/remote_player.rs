use orthomagnet::game::{local_hover_update, update_remote_mouse, Tile};
use orthomagnet::remote_player::{decode, encode, Command, DecodeError, Inbox, ReadOutcome};

#[test]
fn hover_encodes_as_tag_and_two_little_endian_integers() {
    let bytes = encode(&Command::StoneHover { x: 2, y: -3 });
    assert_eq!(bytes, vec![0, 2, 0, 0, 0, 0xfd, 0xff, 0xff, 0xff]);
    assert_eq!(encode(&Command::StopStoneHover), vec![1]);
    assert_eq!(encode(&Command::Connected), vec![2]);
}

#[test]
fn decode_reads_back_each_message() {
    for c in [
        Command::StoneHover { x: 2, y: 3 },
        Command::StoneHover { x: i32::MIN, y: i32::MAX },
        Command::StopStoneHover,
        Command::Connected,
    ] {
        let mut bytes = encode(&c);
        let n = bytes.len();
        bytes.push(7);
        assert_eq!(decode(&bytes), Ok((c, n)));
    }
}

#[test]
fn decode_errors() {
    assert_eq!(decode(&[]), Err(DecodeError::Incomplete));
    assert_eq!(decode(&[0, 1, 2, 3]), Err(DecodeError::Incomplete));
    assert_eq!(decode(&[9]), Err(DecodeError::UnknownTag(9)));
}

#[test]
fn hover_then_stop_arrive_in_order() {
    let mut stream = encode(&Command::StoneHover { x: 2, y: 3 });
    stream.extend(encode(&Command::StopStoneHover));
    let mut inbox = Inbox::new();
    let got = inbox.receive(&stream);
    assert_eq!(got, vec![Command::StoneHover { x: 2, y: 3 }, Command::StopStoneHover]);
}

#[test]
fn message_split_across_reads_is_reassembled() {
    let mut stream = encode(&Command::StoneHover { x: 2, y: 3 });
    stream.extend(encode(&Command::StopStoneHover));
    let mut inbox = Inbox::new();
    assert_eq!(inbox.receive(&stream[..4]), vec![]);
    assert_eq!(
        inbox.receive(&stream[4..]),
        vec![Command::StoneHover { x: 2, y: 3 }, Command::StopStoneHover]
    );
    assert_eq!(inbox.receive(&[]), vec![]);
}

#[test]
fn unknown_tag_drops_the_read_and_the_link_goes_on() {
    let mut inbox = Inbox::new();
    let (go_on, got) = inbox.after_read(&ReadOutcome::Received(vec![1, 42, 1]));
    assert!(go_on);
    assert_eq!(got, vec![Command::StopStoneHover]);
    let (go_on, got) = inbox.after_read(&ReadOutcome::Received(vec![2]));
    assert!(go_on);
    assert_eq!(got, vec![Command::Connected]);
}

#[test]
fn closed_or_failed_read_stops_the_link() {
    let mut inbox = Inbox::new();
    assert_eq!(inbox.after_read(&ReadOutcome::Idle), (true, vec![]));
    assert_eq!(inbox.after_read(&ReadOutcome::Closed), (false, vec![]));
    assert_eq!(inbox.after_read(&ReadOutcome::Failed), (false, vec![]));
}

#[test]
fn local_hover_is_sent_only_when_it_changes() {
    let mut previous = None;
    assert_eq!(
        local_hover_update(&mut previous, Some(Tile::new(1, 2))),
        Some(Command::StoneHover { x: 1, y: 2 })
    );
    assert_eq!(local_hover_update(&mut previous, Some(Tile::new(1, 2))), None);
    assert_eq!(local_hover_update(&mut previous, None), Some(Command::StopStoneHover));
    assert_eq!(previous, None);
}

#[test]
fn remote_hover_follows_messages() {
    let mut remote = None;
    update_remote_mouse(&mut remote, &Command::StoneHover { x: 2, y: 3 });
    assert_eq!(remote, Some(Tile::new(2, 3)));
    update_remote_mouse(&mut remote, &Command::StopStoneHover);
    assert_eq!(remote, None);
}
