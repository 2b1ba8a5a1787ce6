//! Fixed layouts placed in the physics world.
use vstd::prelude::*;

verus! {

/// Number of segments of the test worm.
pub const WORM_LENGTH: usize = 8;

/// Horizontal distance between two neighbouring worm segments.
pub const WORM_SPACING: i32 = 80;

/// Height at which the worm is laid down.
pub const WORM_HEIGHT: i32 = -200;

/// Half extents of a worm segment along and across the worm.
pub const WORM_UNIT_LENGTH: u32 = 20;
pub const WORM_UNIT_WIDTH: u32 = 10;

/// Lower and upper angle limit of the joint between two segments.
pub const WORM_JOINT_LIMITS: [i32; 2] = [-1, 5];

/// One segment of the worm: its center, half extents, and the revolute joint
/// to the segment before it, if any: anchored at `parent_anchor_x` (along that
/// segment) and `anchor_x` (along this one), with angle limits
/// `joint_limits`, and no contacts between the two jointed segments.
pub struct WormUnit {
    pub x: i32,
    pub y: i32,
    pub half_length: u32,
    pub half_width: u32,
    pub joint_to: Option<usize>,
    pub parent_anchor_x: i32,
    pub anchor_x: i32,
    pub joint_limits: [i32; 2],
    pub contacts_enabled: bool,
}

/// The joint of a worm segment is anchored at the front end of the segment
/// before it and at the back end of its own.
pub open spec fn worm_joint_ok(u: WormUnit) -> bool {
    &&& u.parent_anchor_x == WORM_UNIT_LENGTH as i32
    &&& u.anchor_x == -(WORM_UNIT_LENGTH as i32)
    &&& u.joint_limits@ == WORM_JOINT_LIMITS@
    &&& !u.contacts_enabled
}

/// Lays out a chain of segments in a row, each jointed to the one before it.
pub fn spawn_worm() -> (r: Vec<WormUnit>)
    ensures
        r@.len() == WORM_LENGTH,
        forall|i: int|
            0 <= i < r@.len() ==> {
                &&& (#[trigger] r@[i]).x == WORM_SPACING * i
                &&& r@[i].y == WORM_HEIGHT
                &&& r@[i].half_length == WORM_UNIT_LENGTH
                &&& r@[i].half_width == WORM_UNIT_WIDTH
                &&& r@[i].joint_to == if i > 0 {
                    Some((i - 1) as usize)
                } else {
                    None::<usize>
                }
                &&& worm_joint_ok(r@[i])
            },
{
    let mut units: Vec<WormUnit> = Vec::new();
    let mut i: usize = 0;
    while i < WORM_LENGTH
        invariant
            i <= WORM_LENGTH,
            units@.len() == i,
            forall|k: int|
                0 <= k < i ==> {
                    &&& (#[trigger] units@[k]).x == WORM_SPACING * k
                    &&& units@[k].y == WORM_HEIGHT
                    &&& units@[k].half_length == WORM_UNIT_LENGTH
                    &&& units@[k].half_width == WORM_UNIT_WIDTH
                    &&& units@[k].joint_to == if k > 0 {
                        Some((k - 1) as usize)
                    } else {
                        None::<usize>
                    }
                    &&& worm_joint_ok(units@[k])
                },
        decreases WORM_LENGTH - i,
    {
        let joint_to = if i > 0 {
            Some(i - 1)
        } else {
            None
        };
        units.push(
            WormUnit {
                x: WORM_SPACING * (i as i32),
                y: WORM_HEIGHT,
                half_length: WORM_UNIT_LENGTH,
                half_width: WORM_UNIT_WIDTH,
                joint_to,
                parent_anchor_x: WORM_UNIT_LENGTH as i32,
                anchor_x: -(WORM_UNIT_LENGTH as i32),
                joint_limits: WORM_JOINT_LIMITS,
                contacts_enabled: false,
            },
        );
        i = i + 1;
    }
    units
}

} // verus!
