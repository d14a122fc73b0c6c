//! Random seeding: positions drawn uniformly from a box around a centre.
use crate::position::Position;
use rand::Rng;
use vstd::prelude::*;

verus! {

/// Relies on `rand::thread_rng` and `Rng::gen_range` over `low..=high`: a
/// value of the inclusive range (it panics only on an empty range).
#[verifier::external_body]
fn random_in(low: i32, high: i32) -> (r: i32)
    requires
        low <= high,
    ensures
        low <= r <= high,
{
    rand::thread_rng().gen_range(low..=high)
}

/// `p` lies in the box of half-side `radius` around `center`.
pub open spec fn within(p: Position, center: Position, radius: int) -> bool {
    &&& center.x - radius <= p.x <= center.x + radius
    &&& center.y - radius <= p.y <= center.y + radius
    &&& center.z - radius <= p.z <= center.z + radius
}

/// `amount` random positions, each in the box of half-side `radius` around
/// `center`.
pub fn spawn_noise(center: Position, radius: i32, amount: usize) -> (r: Vec<Position>)
    requires
        radius >= 0,
        i32::MIN <= center.x - radius && center.x + radius <= i32::MAX,
        i32::MIN <= center.y - radius && center.y + radius <= i32::MAX,
        i32::MIN <= center.z - radius && center.z + radius <= i32::MAX,
    ensures
        r@.len() == amount,
        forall|i: int| 0 <= i < amount ==> within(#[trigger] r@[i], center, radius as int),
{
    let mut r: Vec<Position> = Vec::new();
    let mut i: usize = 0;
    while i < amount
        invariant
            i <= amount,
            r@.len() == i,
            radius >= 0,
            i32::MIN <= center.x - radius && center.x + radius <= i32::MAX,
            i32::MIN <= center.y - radius && center.y + radius <= i32::MAX,
            i32::MIN <= center.z - radius && center.z + radius <= i32::MAX,
            forall|j: int| 0 <= j < i ==> within(#[trigger] r@[j], center, radius as int),
        decreases amount - i,
    {
        let x = random_in(center.x - radius, center.x + radius);
        let y = random_in(center.y - radius, center.y + radius);
        let z = random_in(center.z - radius, center.z + radius);
        r.push(Position { x, y, z });
        i = i + 1;
    }
    r
}

/// The half-side of the default seeding box.
pub const NOISE_RADIUS: i32 = 6;

/// The number of positions of the default seeding.
pub const NOISE_AMOUNT: usize = 1728;

/// `spawn_noise` with the default box (half-side 6) and amount (12³).
pub fn spawn_noise_default(center: Position) -> (r: Vec<Position>)
    requires
        i32::MIN <= center.x - NOISE_RADIUS && center.x + NOISE_RADIUS <= i32::MAX,
        i32::MIN <= center.y - NOISE_RADIUS && center.y + NOISE_RADIUS <= i32::MAX,
        i32::MIN <= center.z - NOISE_RADIUS && center.z + NOISE_RADIUS <= i32::MAX,
    ensures
        r@.len() == NOISE_AMOUNT,
        forall|i: int| 0 <= i < NOISE_AMOUNT ==> within(#[trigger] r@[i], center, NOISE_RADIUS as int),
{
    spawn_noise(center, NOISE_RADIUS, NOISE_AMOUNT)
}

} // verus!
