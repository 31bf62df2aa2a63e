//! The safe dial: rotations move a dial one step at a time around the
//! positions `0 ..= 99`, and every time the dial passes position zero it
//! is counted.  A rotation is written as a direction letter followed by
//! a step count, `R12` or `L5`.

use vstd::prelude::*;

verus! {

/// Which way the dial turns.
#[derive(Clone, Copy, Debug, PartialEq, Eq, Structural)]
pub enum Direction {
    Left,
    Right,
}

/// One step of the dial from `pos`, wrapping within `0 ..= 99`.
pub open spec fn dial_step(pos: int, dir: Direction) -> int {
    match dir {
        Direction::Right => if pos == 99 {
            0
        } else {
            pos + 1
        },
        Direction::Left => if pos == 0 {
            99
        } else {
            pos - 1
        },
    }
}

/// The dial position after `amount` steps from `pos`.
pub open spec fn dial_after(pos: int, dir: Direction, amount: nat) -> int
    decreases amount,
{
    if amount == 0 {
        pos
    } else {
        dial_step(dial_after(pos, dir, (amount - 1) as nat), dir)
    }
}

/// How often the dial stands on zero during `amount` steps from `pos`
/// (the starting position does not count, the final one does).
pub open spec fn dial_zeros(pos: int, dir: Direction, amount: nat) -> int
    decreases amount,
{
    if amount == 0 {
        0
    } else {
        dial_zeros(pos, dir, (amount - 1) as nat) + if dial_after(pos, dir, amount) == 0 {
            1int
        } else {
            0int
        }
    }
}

/// Turns the dial `amount` steps and returns the final position and how
/// often zero was passed.
pub fn spin(pos: u32, dir: Direction, amount: u32) -> (r: (u32, u32))
    requires
        pos < 100,
    ensures
        r.0 == dial_after(pos as int, dir, amount as nat),
        r.1 == dial_zeros(pos as int, dir, amount as nat),
        r.0 < 100,
{
    let mut cur = pos;
    let mut zeros: u32 = 0;
    let mut t: u32 = 0;
    while t < amount
        invariant
            t <= amount,
            cur < 100,
            cur == dial_after(pos as int, dir, t as nat),
            zeros == dial_zeros(pos as int, dir, t as nat),
            zeros <= t,
        decreases amount - t,
    {
        cur = match dir {
            Direction::Right => if cur == 99 {
                0
            } else {
                cur + 1
            },
            Direction::Left => if cur == 0 {
                99
            } else {
                cur - 1
            },
        };
        if cur == 0 {
            zeros = zeros + 1;
        }
        t = t + 1;
    }
    (cur, zeros)
}

/// The dial position after a whole list of rotations, starting from `pos`.
pub open spec fn dial_after_all(rots: Seq<(Direction, u32)>, pos: int) -> int
    decreases rots.len(),
{
    if rots.len() == 0 {
        pos
    } else {
        dial_after(dial_after_all(rots.drop_last(), pos), rots.last().0, rots.last().1 as nat)
    }
}

/// How often the dial passes zero over a whole list of rotations.
pub open spec fn dial_zeros_all(rots: Seq<(Direction, u32)>, pos: int) -> int
    decreases rots.len(),
{
    if rots.len() == 0 {
        0
    } else {
        dial_zeros_all(rots.drop_last(), pos) + dial_zeros(
            dial_after_all(rots.drop_last(), pos),
            rots.last().0,
            rots.last().1 as nat,
        )
    }
}

proof fn lemma_dial_zeros_bounds(pos: int, dir: Direction, amount: nat)
    ensures
        0 <= dial_zeros(pos, dir, amount) <= amount,
    decreases amount,
{
    if amount > 0 {
        lemma_dial_zeros_bounds(pos, dir, (amount - 1) as nat);
    }
}

proof fn lemma_dial_zeros_all_mono(rots: Seq<(Direction, u32)>, pos: int, t: int)
    requires
        0 <= t <= rots.len(),
    ensures
        0 <= dial_zeros_all(rots.subrange(0, t), pos) <= dial_zeros_all(rots, pos),
    decreases rots.len(),
{
    if rots.len() == 0 {
        assert(rots.subrange(0, t) =~= rots);
    } else if t == rots.len() {
        assert(rots.subrange(0, t) =~= rots);
        lemma_dial_zeros_all_mono(rots.drop_last(), pos, rots.len() - 1);
        assert(rots.drop_last().subrange(0, rots.len() - 1) =~= rots.drop_last());
        lemma_dial_zeros_bounds(
            dial_after_all(rots.drop_last(), pos),
            rots.last().0,
            rots.last().1 as nat,
        );
    } else {
        lemma_dial_zeros_all_mono(rots.drop_last(), pos, t);
        assert(rots.drop_last().subrange(0, t) =~= rots.subrange(0, t));
        lemma_dial_zeros_bounds(
            dial_after_all(rots.drop_last(), pos),
            rots.last().0,
            rots.last().1 as nat,
        );
    }
}

/// Runs all rotations from the starting position 50 and returns the
/// final dial position together with how often the dial passed zero.
pub fn crack_safe(rotations: &Vec<(Direction, u32)>) -> (r: (u32, u64))
    requires
        rotations@.len() <= 0xffff_ffff,
    ensures
        r.0 == dial_after_all(rotations@, 50),
        r.1 == dial_zeros_all(rotations@, 50),
        r.0 < 100,
{
    let mut dial: u32 = 50;
    let mut zeros: u64 = 0;
    let mut t: usize = 0;
    while t < rotations.len()
        invariant
            t <= rotations@.len() <= 0xffff_ffff,
            dial < 100,
            dial == dial_after_all(rotations@.subrange(0, t as int), 50),
            zeros == dial_zeros_all(rotations@.subrange(0, t as int), 50),
            zeros <= (t as int) * 0xffff_ffff,
        decreases rotations@.len() - t,
    {
        let (dir, amount) = rotations[t];
        let step = spin(dial, dir, amount);
        proof {
            assert(rotations@.subrange(0, t + 1).drop_last() =~= rotations@.subrange(
                0,
                t as int,
            ));
            assert(rotations@.subrange(0, t + 1).last() == rotations@[t as int]);
            lemma_dial_zeros_bounds(dial as int, dir, amount as nat);
            assert(((t + 1) as int) * 0xffff_ffff == (t as int) * 0xffff_ffff + 0xffff_ffff)
                by (nonlinear_arith);
        }
        dial = step.0;
        zeros = zeros + (step.1 as u64);
        t = t + 1;
    }
    proof {
        assert(rotations@.subrange(0, rotations@.len() as int) =~= rotations@);
    }
    (dial, zeros)
}

} // verus!
