//! A pointer on a circular dial of fixed size.
//!
//! The dial applies left/right rotation commands and counts, in
//! `zero_hits`, how many times the pointer lands on or sweeps across
//! position zero.

use vstd::prelude::*;
use crate::digits::{parses_as_u64, token_value, parse_u64};

verus! {

pub struct Dial {
    pub position: u64,
    pub size: u64,
    pub zero_hits: u64,
}

#[derive(Debug)]
pub enum DialError {
    InvalidCommand(String),
}

/// Position after rotating `n` steps counter-clockwise from `pos` on a ring
/// of `size` positions.
pub open spec fn pos_after_left(size: int, pos: int, n: int) -> int
    recommends
        0 < size,
        0 <= pos,
        0 <= n,
{
    if pos >= n % size {
        pos - n % size
    } else {
        pos + size - n % size
    }
}

/// Zero crossings of a counter-clockwise rotation: one per full circle, and
/// one more when the partial rotation wraps past zero.
pub open spec fn hits_of_left(size: int, pos: int, n: int) -> int
    recommends
        0 < size,
        0 <= pos,
        0 <= n,
{
    n / size + if pos >= n % size {
        0int
    } else {
        1int
    }
}

/// Position after rotating `n` steps clockwise from `pos` on a ring of
/// `size` positions.
pub open spec fn pos_after_right(size: int, pos: int, n: int) -> int
    recommends
        0 < size,
        0 <= pos,
        0 <= n,
{
    (pos + n) % size
}

/// Zero crossings of a clockwise rotation: one per full circle, and one more
/// when the partial rotation reaches or passes zero.
pub open spec fn hits_of_right(size: int, pos: int, n: int) -> int
    recommends
        0 < size,
        0 <= pos,
        0 <= n,
{
    n / size + if pos + n % size >= size {
        1int
    } else {
        0int
    }
}

/// The distance part of a command: everything after the direction character.
pub open spec fn cmd_body(s: Seq<char>) -> Seq<char> {
    s.subrange(1, s.len() as int)
}

/// The command has a parsable distance after the first character: an
/// optional `+`, then a non-empty digit run whose value fits in a `u64`.
pub open spec fn cmd_has_distance(s: Seq<char>) -> bool {
    s.len() > 0 && parses_as_u64(cmd_body(s))
}

/// The distance a well-formed command asks for.
pub open spec fn cmd_distance(s: Seq<char>) -> int {
    token_value(cmd_body(s))
}

/// A command is valid when it has a parsable distance and starts with `L`
/// or `R`.
pub open spec fn cmd_ok(s: Seq<char>) -> bool {
    cmd_has_distance(s) && (s[0] == 'L' || s[0] == 'R')
}

/// The message a rejected command is reported with.
pub open spec fn invalid_command_message(s: Seq<char>) -> Seq<char> {
    if s.len() == 0 {
        "Empty command"@
    } else if !cmd_has_distance(s) {
        "Invalid distance in command: "@ + s
    } else {
        "Invalid direction in command: "@ + s
    }
}

impl Dial {
    /// The number of positions on the ring (the modulus).
    pub open spec fn spec_size(&self) -> u64 {
        self.size
    }

    /// A dial is well formed when the ring is non-empty and the pointer is
    /// on it.
    pub open spec fn wf(&self) -> bool {
        self.spec_size() > 0 && self.position < self.spec_size()
    }

    /// Creates a dial. The initial position is taken as given: it is not
    /// reduced modulo `size` (while `set` does reduce), so the dial is well
    /// formed only when `position < size`.
    pub fn new(size: u64, position: u64) -> (d: Dial)
        ensures
            d.spec_size() == size,
            d.position == position,
            d.zero_hits == 0,
    {
        Dial { size, position, zero_hits: 0 }
    }

    /// Rotates the pointer `n` steps counter-clockwise, counting zero
    /// crossings. A pointer that starts on the ring stays on it; an
    /// out-of-range position (possible through `new`) is moved by the
    /// remainder but not renormalized.
    pub fn left(&mut self, n: u64)
        requires
            old(self).spec_size() > 0,
            old(self).zero_hits + hits_of_left(
                old(self).spec_size() as int,
                old(self).position as int,
                n as int,
            ) <= u64::MAX,
        ensures
            final(self).spec_size() == old(self).spec_size(),
            final(self).position == pos_after_left(
                old(self).spec_size() as int,
                old(self).position as int,
                n as int,
            ),
            final(self).zero_hits == old(self).zero_hits + hits_of_left(
                old(self).spec_size() as int,
                old(self).position as int,
                n as int,
            ),
            old(self).position < old(self).spec_size() ==> final(self).wf(),
    {
        let rem = n % self.size;
        self.zero_hits = self.zero_hits + n / self.size;
        if self.position >= rem {
            self.position = self.position - rem;
        } else {
            self.position = self.position + (self.size - rem);
            self.zero_hits = self.zero_hits + 1;
        }
    }

    /// Rotates the pointer `n` steps clockwise, counting zero crossings.
    /// The final reduction modulo the size leaves the pointer on the ring
    /// even when it started out of range (possible through `new`).
    pub fn right(&mut self, n: u64)
        requires
            old(self).spec_size() > 0,
            old(self).position + n <= u64::MAX,
            old(self).zero_hits + hits_of_right(
                old(self).spec_size() as int,
                old(self).position as int,
                n as int,
            ) <= u64::MAX,
        ensures
            final(self).spec_size() == old(self).spec_size(),
            final(self).position == pos_after_right(
                old(self).spec_size() as int,
                old(self).position as int,
                n as int,
            ),
            final(self).zero_hits == old(self).zero_hits + hits_of_right(
                old(self).spec_size() as int,
                old(self).position as int,
                n as int,
            ),
            final(self).wf(),
    {
        let truncated = n % self.size;
        proof {
            vstd::arithmetic::div_mod::lemma_mod_decreases(n as nat, self.size as nat);
        }
        self.zero_hits = self.zero_hits + n / self.size;
        if self.position + truncated >= self.size {
            self.zero_hits = self.zero_hits + 1;
        }
        self.position = (self.position + n) % self.size;
    }

    /// Sets the position directly, reduced modulo the ring size; zero hits
    /// are not affected.
    pub fn set(&mut self, position: u64)
        requires
            old(self).spec_size() > 0,
        ensures
            final(self).spec_size() == old(self).spec_size(),
            final(self).zero_hits == old(self).zero_hits,
            final(self).position == position as int % old(self).spec_size() as int,
            final(self).wf(),
    {
        self.position = position % self.size;
    }

    /// Parses a command of the form `<direction><distance>` and applies it.
    ///
    /// Succeeds exactly on valid commands: a leading `L` or `R` followed by
    /// a distance of the shape `u64` parsing accepts (an optional `+`, then
    /// a non-empty run of digits) whose value fits in a `u64`. A rejected
    /// command leaves the dial unchanged and reports why.
    pub fn do_move(&mut self, movement: &str) -> (r: Result<(), DialError>)
        requires
            old(self).spec_size() > 0,
            cmd_ok(movement@) && movement@[0] == 'L' ==> old(self).zero_hits + hits_of_left(
                old(self).spec_size() as int,
                old(self).position as int,
                cmd_distance(movement@),
            ) <= u64::MAX,
            cmd_ok(movement@) && movement@[0] == 'R' ==> old(self).position + cmd_distance(
                movement@,
            ) <= u64::MAX && old(self).zero_hits + hits_of_right(
                old(self).spec_size() as int,
                old(self).position as int,
                cmd_distance(movement@),
            ) <= u64::MAX,
        ensures
            final(self).spec_size() == old(self).spec_size(),
            r is Ok <==> cmd_ok(movement@),
            cmd_ok(movement@) && movement@[0] == 'L' ==> final(self).position == pos_after_left(
                old(self).spec_size() as int,
                old(self).position as int,
                cmd_distance(movement@),
            ) && final(self).zero_hits == old(self).zero_hits + hits_of_left(
                old(self).spec_size() as int,
                old(self).position as int,
                cmd_distance(movement@),
            ),
            cmd_ok(movement@) && movement@[0] == 'R' ==> final(self).position == pos_after_right(
                old(self).spec_size() as int,
                old(self).position as int,
                cmd_distance(movement@),
            ) && final(self).zero_hits == old(self).zero_hits + hits_of_right(
                old(self).spec_size() as int,
                old(self).position as int,
                cmd_distance(movement@),
            ),
            !cmd_ok(movement@) ==> *final(self) == *old(self) && (r matches Err(
                DialError::InvalidCommand(m),
            ) && m@ == invalid_command_message(movement@)),
    {
        let n = movement.unicode_len();
        if n == 0 {
            return Err(DialError::InvalidCommand(String::from_str("Empty command")));
        }
        let rest = movement.substring_char(1, n);
        match parse_u64(rest) {
            None => {
                assert(rest@ == cmd_body(movement@));
                Err(DialError::InvalidCommand(
                    String::from_str("Invalid distance in command: ").concat(movement),
                ))
            },
            Some(distance) => {
                assert(rest@ == cmd_body(movement@));
                let lr = movement.get_char(0);
                if lr == 'L' {
                    self.left(distance);
                    Ok(())
                } else if lr == 'R' {
                    self.right(distance);
                    Ok(())
                } else {
                    Err(DialError::InvalidCommand(
                        String::from_str("Invalid direction in command: ").concat(movement),
                    ))
                }
            },
        }
    }
}

/// Rotating right by `n` and then left by `n` returns the pointer to where
/// it started, whatever the two rotations add to the zero-hit count.
pub proof fn lemma_right_then_left_restores_position(size: int, pos: int, n: int)
    requires
        0 < size,
        0 <= pos < size,
        0 <= n,
    ensures
        pos_after_left(size, pos_after_right(size, pos, n), n) == pos,
{
    let r = n % size;
    vstd::arithmetic::div_mod::lemma_mod_bound(n, size);
    assert((pos + n) % size == (pos + r) % size) by {
        vstd::arithmetic::div_mod::lemma_add_mod_noop_right(pos, n, size);
    }
    if pos + r < size {
        vstd::arithmetic::div_mod::lemma_small_mod((pos + r) as nat, size as nat);
        assert(pos_after_right(size, pos, n) == pos + r);
    } else {
        assert((pos + r) % size == (pos + r - size) % size) by {
            vstd::arithmetic::div_mod::lemma_mod_sub_multiples_vanish(pos + r, size);
        }
        vstd::arithmetic::div_mod::lemma_small_mod((pos + r - size) as nat, size as nat);
        assert(pos_after_right(size, pos, n) == pos + r - size);
    }
}

/// Rotating a whole number of full circles, in either direction, leaves the
/// position unchanged and adds exactly one zero hit per circle.
pub proof fn lemma_full_circles(size: int, pos: int, k: int)
    requires
        0 < size,
        0 <= pos < size,
        0 <= k,
    ensures
        pos_after_right(size, pos, k * size) == pos,
        hits_of_right(size, pos, k * size) == k,
        pos_after_left(size, pos, k * size) == pos,
        hits_of_left(size, pos, k * size) == k,
{
    assert((k * size) % size == 0) by {
        vstd::arithmetic::div_mod::lemma_mod_multiples_basic(k, size);
    }
    assert((k * size) / size == k) by {
        vstd::arithmetic::div_mod::lemma_div_by_multiple(k, size);
    }
    assert((size * k + pos) % size == pos % size) by {
        vstd::arithmetic::div_mod::lemma_mod_multiples_vanish(k, pos, size);
    }
    assert(k * size == size * k) by {
        vstd::arithmetic::mul::lemma_mul_is_commutative(k, size);
    }
    vstd::arithmetic::div_mod::lemma_small_mod(pos as nat, size as nat);
}

} // verus!
