use rollback::input::{pack_inputs, INPUT_FORWARD, INPUT_REVERSE, INPUT_LEFT, INPUT_RIGHT,
    INPUT_FIRE};
use rollback::sim::{step_ship, step_ships, Ship, HALF_WIDTH, HALF_HEIGHT, SHIP_SPEED};

#[test]
fn pack_single_bits() {
    assert_eq!(pack_inputs(true, false, false, false, false), INPUT_FORWARD);
    assert_eq!(pack_inputs(false, true, false, false, false), INPUT_REVERSE);
    assert_eq!(pack_inputs(false, false, true, false, false), INPUT_LEFT);
    assert_eq!(pack_inputs(false, false, false, true, false), INPUT_RIGHT);
    assert_eq!(pack_inputs(false, false, false, false, true), INPUT_FIRE);
}

#[test]
fn pack_combinations() {
    assert_eq!(pack_inputs(false, false, false, false, false), 0);
    assert_eq!(pack_inputs(true, true, true, true, true), 31);
    assert_eq!(pack_inputs(false, true, false, true, true), 2 + 8 + 16);
    assert_eq!(pack_inputs(true, false, true, false, false), 1 + 4);
}

#[test]
fn pack_reserved_bits_zero() {
    for f in [false, true] {
        for r in [false, true] {
            for l in [false, true] {
                for ri in [false, true] {
                    for fi in [false, true] {
                        assert!(pack_inputs(f, r, l, ri, fi) < 32);
                    }
                }
            }
        }
    }
}

#[test]
fn step_moves_along_axes() {
    let origin = Ship { x: 0, y: 0 };
    assert_eq!(step_ship(origin, INPUT_FORWARD), Ship { x: 0, y: SHIP_SPEED });
    assert_eq!(step_ship(origin, INPUT_REVERSE), Ship { x: 0, y: -SHIP_SPEED });
    assert_eq!(step_ship(origin, INPUT_LEFT), Ship { x: -SHIP_SPEED, y: 0 });
    assert_eq!(step_ship(origin, INPUT_RIGHT), Ship { x: SHIP_SPEED, y: 0 });
    assert_eq!(
        step_ship(origin, INPUT_FORWARD | INPUT_RIGHT),
        Ship { x: SHIP_SPEED, y: SHIP_SPEED }
    );
}

#[test]
fn step_opposed_inputs_cancel() {
    let s = Ship { x: 10, y: -10 };
    assert_eq!(step_ship(s, INPUT_LEFT | INPUT_RIGHT), s);
    assert_eq!(step_ship(s, INPUT_FORWARD | INPUT_REVERSE), s);
}

#[test]
fn step_idle_is_identity() {
    let s = Ship { x: 123, y: -45 };
    assert_eq!(step_ship(s, 0), s);
}

#[test]
fn step_clamps_to_bounds() {
    let near_edge = Ship { x: HALF_WIDTH - 3, y: HALF_HEIGHT - 3 };
    let stepped = step_ship(near_edge, INPUT_RIGHT | INPUT_FORWARD);
    assert_eq!(stepped, Ship { x: HALF_WIDTH, y: HALF_HEIGHT });
    let corner = Ship { x: -HALF_WIDTH, y: -HALF_HEIGHT };
    assert_eq!(step_ship(corner, INPUT_LEFT | INPUT_REVERSE), corner);
}

#[test]
fn step_whole_state() {
    let prev = vec![Ship { x: 0, y: 0 }, Ship { x: 5, y: 0 }];
    let ins = vec![INPUT_FORWARD, INPUT_REVERSE];
    let next = step_ships(&prev, &ins);
    assert_eq!(next, vec![Ship { x: 0, y: 7 }, Ship { x: 5, y: -7 }]);
}
