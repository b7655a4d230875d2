use kvs::demo::{Direction, Move, VecByte};

#[test]
fn vec_byte_pipe() {
    let mut pipe = VecByte::new();
    assert_eq!(pipe.write(b"hello"), 5);
    assert_eq!(pipe.write(b" world"), 6);
    pipe.flush();
    let mut buf = [0u8; 4];
    assert_eq!(pipe.read(&mut buf), 4);
    assert_eq!(&buf, b"hell");
    let mut big = [9u8; 16];
    assert_eq!(pipe.read(&mut big), 7);
    assert_eq!(&big[..7], b"o world");
    assert_eq!(big[7], 9);
    assert_eq!(pipe.read(&mut big), 0);
}

#[test]
fn random_move_from_draws() {
    assert_eq!(Move::random_move(0, 3), Move { direction: Direction::Up, steps: 3 });
    assert_eq!(Move::random_move(5, 17), Move { direction: Direction::Down, steps: 7 });
    assert_eq!(Move::random_move(6, 10), Move { direction: Direction::Left, steps: 0 });
    assert_eq!(Move::random_move(255, 9), Move { direction: Direction::Right, steps: 9 });
}
