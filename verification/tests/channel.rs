use archiver::channel::{ChannelState, ReadStep, WriteStep};

fn read_all(ch: &mut ChannelState, max: usize) -> Option<Vec<u8>> {
    match ch.read_step(max) {
        ReadStep::Data(d) => Some(d),
        _ => None,
    }
}

#[test]
fn bytes_come_out_in_order() {
    let mut ch = ChannelState::new(8);
    assert_eq!(ch.write_step(b"hello"), WriteStep::Accepted(5));
    assert_eq!(ch.write_step(b" world"), WriteStep::Accepted(3));
    assert_eq!(ch.buffered(), 8);
    assert_eq!(read_all(&mut ch, 4).unwrap(), b"hell".to_vec());
    assert_eq!(ch.write_step(b"rld"), WriteStep::Accepted(3));
    assert_eq!(read_all(&mut ch, 100).unwrap(), b"o world".to_vec());
    assert_eq!(ch.buffered(), 0);
}

#[test]
fn full_buffer_makes_the_writer_wait() {
    let mut ch = ChannelState::new(2);
    assert_eq!(ch.write_step(b"abc"), WriteStep::Accepted(2));
    assert_eq!(ch.write_step(b"c"), WriteStep::Wait);
    assert_eq!(read_all(&mut ch, 1).unwrap(), b"a".to_vec());
    assert_eq!(ch.write_step(b"cd"), WriteStep::Accepted(1));
    assert_eq!(read_all(&mut ch, 5).unwrap(), b"bc".to_vec());
}

#[test]
fn empty_buffer_makes_the_reader_wait_until_close() {
    let mut ch = ChannelState::new(4);
    assert!(matches!(ch.read_step(4), ReadStep::Wait));
    assert_eq!(ch.write_step(b"xy"), WriteStep::Accepted(2));
    ch.close_writer();
    // what was written stays readable after the writer closed
    assert_eq!(read_all(&mut ch, 1).unwrap(), b"x".to_vec());
    assert_eq!(read_all(&mut ch, 1).unwrap(), b"y".to_vec());
    assert!(matches!(ch.read_step(4), ReadStep::End));
    assert!(matches!(ch.read_step(0), ReadStep::End));
}

#[test]
fn writes_fail_once_closed() {
    let mut ch = ChannelState::new(4);
    ch.close_writer();
    assert_eq!(ch.write_step(b"z"), WriteStep::Closed);
    assert_eq!(ch.buffered(), 0);
}

#[test]
fn zero_length_reads_and_writes() {
    let mut ch = ChannelState::new(3);
    assert_eq!(ch.write_step(b""), WriteStep::Accepted(0));
    assert_eq!(ch.write_step(b"q"), WriteStep::Accepted(1));
    assert_eq!(read_all(&mut ch, 0).unwrap(), Vec::<u8>::new());
    assert_eq!(ch.buffered(), 1);
}
