//! The deterministic simulation consumed by the session.
//!
//! Each player owns one ship on a bounded integer grid.  A step moves every
//! ship by its input word: forward and reverse shift it along y, right and
//! left along x, and the result is clamped to the level bounds.  The step is
//! a pure function of the previous state and the inputs, so resimulating the
//! same frames with the same inputs always reproduces the same state.

use vstd::prelude::*;
use crate::input::{INPUT_FORWARD, INPUT_REVERSE, INPUT_LEFT, INPUT_RIGHT};

verus! {

/// Half the level width: x stays within [-HALF_WIDTH, HALF_WIDTH].
pub const HALF_WIDTH: i64 = 600;

/// Half the level height: y stays within [-HALF_HEIGHT, HALF_HEIGHT].
pub const HALF_HEIGHT: i64 = 320;

/// Distance a ship moves per frame along each held axis.
pub const SHIP_SPEED: i64 = 7;

/// Horizontal spacing between the ships' spawn points.
pub const SPAWN_STRIDE: i64 = 5;

#[derive(Clone, Copy, PartialEq, Eq, Structural, Debug)]
pub struct Ship {
    pub x: i64,
    pub y: i64,
}

pub open spec fn clamp_i(v: int, lo: int, hi: int) -> int {
    if v < lo {
        lo
    } else if v > hi {
        hi
    } else {
        v
    }
}

pub open spec fn dx_of(bits: u8) -> int {
    (if crate::input::has_right(bits) {
        1int
    } else {
        0int
    }) - (if crate::input::has_left(bits) {
        1int
    } else {
        0int
    })
}

pub open spec fn dy_of(bits: u8) -> int {
    (if crate::input::has_forward(bits) {
        1int
    } else {
        0int
    }) - (if crate::input::has_reverse(bits) {
        1int
    } else {
        0int
    })
}

pub open spec fn ship_wf(s: Ship) -> bool {
    &&& -HALF_WIDTH <= s.x <= HALF_WIDTH
    &&& -HALF_HEIGHT <= s.y <= HALF_HEIGHT
}

pub open spec fn ships_wf(s: Seq<Ship>) -> bool {
    forall|i: int| 0 <= i < s.len() ==> ship_wf(#[trigger] s[i])
}

/// One ship advanced by one frame of its player's input.
pub open spec fn ship_step(s: Ship, bits: u8) -> Ship {
    Ship {
        x: clamp_i(s.x + dx_of(bits) * SHIP_SPEED, -HALF_WIDTH as int, HALF_WIDTH as int) as i64,
        y: clamp_i(s.y + dy_of(bits) * SHIP_SPEED, -HALF_HEIGHT as int, HALF_HEIGHT as int) as i64,
    }
}

/// The whole state advanced by one frame: ship `i` consumes input word `i`.
pub open spec fn state_step(s: Seq<Ship>, ins: Seq<u8>) -> Seq<Ship> {
    Seq::new(s.len(), |i: int| ship_step(s[i], ins[i]))
}

/// Where ship `i` spawns: spaced along x, clamped into the level.
pub open spec fn spawn_ship(i: int) -> Ship {
    Ship { x: clamp_i(SPAWN_STRIDE * i, -HALF_WIDTH as int, HALF_WIDTH as int) as i64, y: 0 }
}

/// The simulation state at frame 0 for `n` players.
pub open spec fn initial_state(n: int) -> Seq<Ship> {
    Seq::new(n as nat, |i: int| spawn_ship(i))
}

pub proof fn lemma_state_step_wf(s: Seq<Ship>, ins: Seq<u8>)
    ensures
        state_step(s, ins).len() == s.len(),
        ships_wf(state_step(s, ins)),
{
    assert forall|i: int| 0 <= i < s.len() implies ship_wf(#[trigger] state_step(s, ins)[i]) by {
        assert(state_step(s, ins)[i] == ship_step(s[i], ins[i]));
    }
}

pub proof fn lemma_initial_state_wf(n: int)
    requires
        n >= 0,
    ensures
        initial_state(n).len() == n,
        ships_wf(initial_state(n)),
{
}

pub fn step_ship(s: Ship, bits: u8) -> (r: Ship)
    requires
        ship_wf(s),
    ensures
        r == ship_step(s, bits),
        ship_wf(r),
{
    let mut dx: i64 = 0;
    if bits & INPUT_RIGHT != 0 {
        dx = dx + 1;
    }
    if bits & INPUT_LEFT != 0 {
        dx = dx - 1;
    }
    let mut dy: i64 = 0;
    if bits & INPUT_FORWARD != 0 {
        dy = dy + 1;
    }
    if bits & INPUT_REVERSE != 0 {
        dy = dy - 1;
    }
    let mut nx: i64 = s.x + dx * SHIP_SPEED;
    if nx < -HALF_WIDTH {
        nx = -HALF_WIDTH;
    } else if nx > HALF_WIDTH {
        nx = HALF_WIDTH;
    }
    let mut ny: i64 = s.y + dy * SHIP_SPEED;
    if ny < -HALF_HEIGHT {
        ny = -HALF_HEIGHT;
    } else if ny > HALF_HEIGHT {
        ny = HALF_HEIGHT;
    }
    Ship { x: nx, y: ny }
}

/// Advances every ship by one frame.  Input word `i` belongs to player `i`.
pub fn step_ships(prev: &Vec<Ship>, ins: &Vec<u8>) -> (r: Vec<Ship>)
    requires
        prev@.len() == ins@.len(),
        ships_wf(prev@),
    ensures
        r@ == state_step(prev@, ins@),
        r@.len() == prev@.len(),
        ships_wf(r@),
{
    let n = prev.len();
    let mut r: Vec<Ship> = Vec::new();
    let mut i: usize = 0;
    while i < n
        invariant
            i <= n,
            n == prev@.len(),
            n == ins@.len(),
            ships_wf(prev@),
            r@.len() == i,
            forall|k: int| 0 <= k < i ==> r@[k] == ship_step(prev@[k], ins@[k]),
        decreases n - i,
    {
        let s = step_ship(prev[i], ins[i]);
        r.push(s);
        i = i + 1;
    }
    proof {
        assert(r@ =~= state_step(prev@, ins@));
        lemma_state_step_wf(prev@, ins@);
    }
    r
}

} // verus!
