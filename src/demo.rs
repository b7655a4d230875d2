//! Small pieces of the serialization demo: an in-memory byte pipe, and a
//! random move drawn from two numbers.
use vstd::prelude::*;

verus! {

/// A byte pipe over a `Vec<u8>`: writes append at the end, reads take from
/// the front.
pub struct VecByte(Vec<u8>);

impl View for VecByte {
    type V = Seq<u8>;

    closed spec fn view(&self) -> Seq<u8> {
        self.0@
    }
}

impl VecByte {
    /// An empty pipe.
    pub fn new() -> (r: VecByte)
        ensures
            r@ == Seq::<u8>::empty(),
    {
        VecByte(Vec::new())
    }

    /// Moves as many bytes as fit from the front of the pipe into `buf`, and
    /// returns how many.
    pub fn read(&mut self, buf: &mut [u8]) -> (n: usize)
        ensures
            n == if old(self)@.len() < old(buf)@.len() { old(self)@.len() } else { old(buf)@.len() },
            final(buf)@ == old(self)@.subrange(0, n as int) + old(buf)@.subrange(n as int, old(buf)@.len() as int),
            final(self)@ == old(self)@.subrange(n as int, old(self)@.len() as int),
    {
        let n = if self.0.len() < buf.len() { self.0.len() } else { buf.len() };
        let mut i: usize = 0;
        while i < n
            invariant
                i <= n,
                n <= self.0@.len(),
                n <= buf@.len(),
                self.0@ == old(self)@,
                buf@.len() == old(buf)@.len(),
                forall|j: int| 0 <= j < i ==> buf@[j] == self.0@[j],
                forall|j: int| i <= j < buf@.len() ==> buf@[j] == old(buf)@[j],
            decreases n - i,
        {
            let b = self.0[i];
            buf[i] = b;
            i += 1;
        }
        let rest = self.0.split_off(n);
        self.0 = rest;
        assert(buf@ =~= old(self)@.subrange(0, n as int) + old(buf)@.subrange(n as int, old(buf)@.len() as int));
        n
    }

    /// Appends `buf` to the pipe and returns its length.
    pub fn write(&mut self, buf: &[u8]) -> (n: usize)
        ensures
            n == buf@.len(),
            final(self)@ == old(self)@ + buf@,
    {
        let mut i: usize = 0;
        while i < buf.len()
            invariant
                i <= buf@.len(),
                self@ == old(self)@ + buf@.subrange(0, i as int),
            decreases buf@.len() - i,
        {
            self.0.push(buf[i]);
            i += 1;
            assert(self@ =~= old(self)@ + buf@.subrange(0, i as int));
        }
        assert(buf@.subrange(0, i as int) =~= buf@);
        buf.len()
    }

    /// Nothing is buffered: flushing does nothing.
    pub fn flush(&mut self)
        ensures
            final(self)@ == old(self)@,
    {
    }
}

/// A direction to move in.
#[derive(Clone, Copy, Debug, PartialEq, Eq, Structural)]
pub enum Direction {
    Up,
    Down,
    Left,
    Right,
}

/// A number of steps in one direction.
#[derive(Clone, Copy, Debug, PartialEq, Eq, Structural)]
pub struct Move {
    pub direction: Direction,
    pub steps: u32,
}

/// The direction that a draw selects: the draw modulo four, in the order up,
/// down, left, right.
pub open spec fn direction_of(draw: u8) -> Direction {
    if draw % 4 == 0 {
        Direction::Up
    } else if draw % 4 == 1 {
        Direction::Down
    } else if draw % 4 == 2 {
        Direction::Left
    } else {
        Direction::Right
    }
}

impl Move {
    /// The move that two random draws select: the direction from the first,
    /// and the second modulo ten steps.
    pub fn random_move(direction_draw: u8, steps_draw: u32) -> (r: Move)
        ensures
            r.direction == direction_of(direction_draw),
            r.steps == steps_draw % 10,
            r.steps < 10,
    {
        let d = direction_draw % 4;
        let direction = if d == 0 {
            Direction::Up
        } else if d == 1 {
            Direction::Down
        } else if d == 2 {
            Direction::Left
        } else {
            Direction::Right
        };
        Move { direction, steps: steps_draw % 10 }
    }
}

} // verus!
