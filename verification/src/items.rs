//! Gun and item kinds carried by pickups that the generator places.

use vstd::prelude::*;

verus! {

#[derive(Clone, Copy, Debug, PartialEq, Eq, Structural)]
pub enum GunType {
    Pistol,
    Shotgun,
}

/// The gameplay-relevant constants of a gun kind.
#[derive(Clone, Copy, Debug, PartialEq, Eq, Structural)]
pub struct GunInfo {
    pub num_projectiles: usize,
    pub max_load: usize,
    pub loads_one_at_a_time: bool,
    pub reload_time_ms: u64,
}

pub open spec fn spec_gun_info(g: GunType) -> GunInfo {
    match g {
        GunType::Pistol => GunInfo {
            num_projectiles: 1,
            max_load: 15,
            loads_one_at_a_time: false,
            reload_time_ms: 2000,
        },
        GunType::Shotgun => GunInfo {
            num_projectiles: 10,
            max_load: 2,
            loads_one_at_a_time: true,
            reload_time_ms: 500,
        },
    }
}

impl GunType {
    pub fn get_info(&self) -> (r: GunInfo)
        ensures
            r == spec_gun_info(*self),
    {
        match self {
            GunType::Pistol => GunInfo {
                num_projectiles: 1,
                max_load: 15,
                loads_one_at_a_time: false,
                reload_time_ms: 2000,
            },
            GunType::Shotgun => GunInfo {
                num_projectiles: 10,
                max_load: 2,
                loads_one_at_a_time: true,
                reload_time_ms: 500,
            },
        }
    }

    /// The gun's display name.
    pub fn name(&self) -> (r: &'static str)
        ensures
            *self == GunType::Pistol ==> r@ == "pistol"@,
            *self == GunType::Shotgun ==> r@ == "shotgun"@,
    {
        match self {
            GunType::Pistol => "pistol",
            GunType::Shotgun => "shotgun",
        }
    }
}

/// A pickup: ammunition for a gun kind, or the gun itself with a load.
#[derive(Clone, Copy, Debug, PartialEq, Eq, Structural)]
pub enum ItemKind {
    Ammo(GunType, usize),
    Gun(GunType, usize),
}

} // verus!
