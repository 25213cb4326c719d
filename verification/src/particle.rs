//! The particle record: plain data describing one particle's lifetime,
//! initial kinematics and visual attributes.

use vstd::prelude::*;

verus! {

/// One particle, immutable after creation.
///
/// `spawn_time` and `life_time` are in integer ticks; together they define
/// the absolute expiry instant `spawn_time + life_time`, the only values the
/// buffer manager itself interprets. The remaining fields are opaque 32-bit
/// encodings of the kinematic and visual attributes (position, velocity,
/// rotation, friction, color, fade exponent, size) that the rendering stage
/// extrapolates from; the manager only stores and copies them.
#[derive(Clone, Copy, PartialEq, Eq, Structural, Debug)]
pub struct Particle {
    /// Tick at which the particle was spawned.
    pub spawn_time: u32,
    /// Ticks the particle stays alive after `spawn_time`.
    pub life_time: u32,
    /// Initial position, one 32-bit encoding per axis.
    pub pos_x: u32,
    /// See `pos_x`.
    pub pos_y: u32,
    /// Initial velocity, one 32-bit encoding per axis.
    pub vel_x: u32,
    /// See `vel_x`.
    pub vel_y: u32,
    /// Initial rotation angle.
    pub angle: u32,
    /// Angular velocity.
    pub angular_vel: u32,
    /// Friction coefficient used by the extrapolation model.
    pub friction: u32,
    /// Color, one 32-bit encoding per channel.
    pub color_r: u32,
    /// See `color_r`.
    pub color_g: u32,
    /// See `color_r`.
    pub color_b: u32,
    /// Exponent shaping the alpha fade over the normalized lifetime.
    pub alpha_exp: u32,
    /// Rendered size, one 32-bit encoding per axis.
    pub size_x: u32,
    /// See `size_x`.
    pub size_y: u32,
}

impl Particle {
    /// The absolute tick at which this particle expires.
    pub open spec fn death_time(self) -> int {
        self.spawn_time + self.life_time
    }

    /// Computes the expiry instant `spawn_time + life_time`, widened so the
    /// sum cannot overflow.
    pub fn death(&self) -> (d: u64)
        ensures
            d == self.death_time(),
    {
        self.spawn_time as u64 + self.life_time as u64
    }
}

/// The all-zero particle record that freshly allocated buffer slots hold.
pub open spec fn zero_particle() -> Particle {
    Particle {
        spawn_time: 0,
        life_time: 0,
        pos_x: 0,
        pos_y: 0,
        vel_x: 0,
        vel_y: 0,
        angle: 0,
        angular_vel: 0,
        friction: 0,
        color_r: 0,
        color_g: 0,
        color_b: 0,
        alpha_exp: 0,
        size_x: 0,
        size_y: 0,
    }
}

impl Default for Particle {
    /// The all-zero particle record.
    fn default() -> (p: Self)
        ensures
            p == zero_particle(),
    {
        Particle {
            spawn_time: 0,
            life_time: 0,
            pos_x: 0,
            pos_y: 0,
            vel_x: 0,
            vel_y: 0,
            angle: 0,
            angular_vel: 0,
            friction: 0,
            color_r: 0,
            color_g: 0,
            color_b: 0,
            alpha_exp: 0,
            size_x: 0,
            size_y: 0,
        }
    }
}

} // verus!
