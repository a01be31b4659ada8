use shellcore::mm::user_buffer::{copy_segments, UserBuffer, UserBufferIterator};
use shellcore::mm::user_string::{CStringStep, UserCString, UserCStringError};

#[test]
fn bytes_go_through_the_pieces_of_a_buffer() {
    let mut buffer = UserBuffer::new(vec![vec![0; 2], vec![], vec![0; 3]]);
    assert_eq!(buffer.len(), 5);
    buffer.write(&vec![1, 2, 3, 4]);
    assert_eq!(buffer.buffers, vec![vec![1, 2], vec![], vec![3, 4, 0]]);
    let mut out = vec![9; 3];
    buffer.read(&mut out);
    assert_eq!(out, vec![1, 2, 3]);
}

#[test]
fn what_was_written_is_read() {
    let mut buffer = UserBuffer::new(vec![vec![0; 3], vec![0; 3]]);
    let data = vec![5, 6, 7, 8, 9, 10];
    buffer.write(&data);
    let mut back = vec![0; 6];
    buffer.read(&mut back);
    assert_eq!(back, data);
}

#[test]
fn pieces_of_different_lengths_are_copied() {
    let source = vec![vec![1, 2, 3], vec![4]];
    let mut target = vec![vec![0], vec![0, 0], vec![0, 0]];
    assert_eq!(copy_segments(&source, &mut target), 4);
    assert_eq!(target, vec![vec![1], vec![2, 3], vec![4, 0]]);
    let from = UserBuffer::new(source);
    let mut to = UserBuffer::new(vec![vec![0; 2]]);
    assert_eq!(from.read_into_buffer(&mut to), 2);
    assert_eq!(to.buffers, vec![vec![1, 2]]);
    let mut to = UserBuffer::new(vec![vec![0; 9]]);
    assert_eq!(to.write_from_buffer(&from), 4);
    assert_eq!(to.buffers[0][..5], [1, 2, 3, 4, 0]);
}

#[test]
fn the_places_of_a_buffer_are_walked() {
    let mut places = UserBufferIterator::new(vec![1, 2]);
    assert_eq!(places.next(), Some((0, 0)));
    assert_eq!(places.next(), Some((1, 0)));
    assert_eq!(places.next(), Some((1, 1)));
    assert_eq!(places.next(), None);
}

#[test]
fn a_string_ends_at_its_zero() {
    let mut string = UserCString::start(0x1ffe, 100).ok().unwrap();
    let (at, len) = string.request();
    assert_eq!((at, len), (0x1ffe, 2));
    assert!(matches!(string.supply(&b"ab".to_vec()), CStringStep::More));
    let (at, len) = string.request();
    assert_eq!((at, len), (0x2000, 99));
    assert!(matches!(string.supply(&b"c\0d".to_vec()), CStringStep::Complete));
    assert_eq!(string.finish(), "abc");
}

#[test]
fn strings_that_are_too_long_are_refused() {
    let mut string = UserCString::start(0x1000, 3).ok().unwrap();
    assert!(matches!(
        string.supply(&b"abcd".to_vec()),
        CStringStep::Failed(UserCStringError::TooLong)
    ));
    assert!(matches!(UserCString::start(0, 10), Err(UserCStringError::Invalid)));
}
