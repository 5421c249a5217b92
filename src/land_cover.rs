//! Land cover classes and their numeric codes.
use vstd::prelude::*;

verus! {

/// A land cover class. Codes: cobblestone 0, dark asphalt 1, roofs 2,
/// unmanaged grass 5, bare soil 6, water 7, walls 99.
#[derive(Clone, Copy, Debug, PartialEq, Eq, Structural)]
pub enum LandCoverType {
    CobbleStone,
    DarkAsphalt,
    RoofsBuildings,
    GrassUnmanaged,
    BareSoil,
    Water,
    Walls,
}

pub open spec fn land_cover_of(code: u8) -> LandCoverType {
    if code == 0 {
        LandCoverType::CobbleStone
    } else if code == 1 {
        LandCoverType::DarkAsphalt
    } else if code == 2 {
        LandCoverType::RoofsBuildings
    } else if code == 5 {
        LandCoverType::GrassUnmanaged
    } else if code == 6 {
        LandCoverType::BareSoil
    } else if code == 7 {
        LandCoverType::Water
    } else if code == 99 {
        LandCoverType::Walls
    } else {
        LandCoverType::DarkAsphalt
    }
}

pub open spec fn land_cover_code(t: LandCoverType) -> u8 {
    match t {
        LandCoverType::CobbleStone => 0,
        LandCoverType::DarkAsphalt => 1,
        LandCoverType::RoofsBuildings => 2,
        LandCoverType::GrassUnmanaged => 5,
        LandCoverType::BareSoil => 6,
        LandCoverType::Water => 7,
        LandCoverType::Walls => 99,
    }
}

impl LandCoverType {
    /// The class's numeric code.
    pub fn code(&self) -> (r: u8)
        ensures
            r == land_cover_code(*self),
    {
        match self {
            LandCoverType::CobbleStone => 0,
            LandCoverType::DarkAsphalt => 1,
            LandCoverType::RoofsBuildings => 2,
            LandCoverType::GrassUnmanaged => 5,
            LandCoverType::BareSoil => 6,
            LandCoverType::Water => 7,
            LandCoverType::Walls => 99,
        }
    }
}

impl From<u8> for LandCoverType {
    /// The class of a code; unknown codes are read as dark asphalt.
    fn from(code: u8) -> (r: LandCoverType) {
        if code == 0 {
            LandCoverType::CobbleStone
        } else if code == 1 {
            LandCoverType::DarkAsphalt
        } else if code == 2 {
            LandCoverType::RoofsBuildings
        } else if code == 5 {
            LandCoverType::GrassUnmanaged
        } else if code == 6 {
            LandCoverType::BareSoil
        } else if code == 7 {
            LandCoverType::Water
        } else if code == 99 {
            LandCoverType::Walls
        } else {
            LandCoverType::DarkAsphalt
        }
    }
}

impl vstd::std_specs::convert::FromSpecImpl<u8> for LandCoverType {
    open spec fn obeys_from_spec() -> bool {
        true
    }

    open spec fn from_spec(code: u8) -> LandCoverType {
        land_cover_of(code)
    }
}

/// A known code survives the trip to its class and back.
pub proof fn lemma_land_cover_code_round_trip(t: LandCoverType)
    ensures
        land_cover_of(land_cover_code(t)) == t,
{
}

} // verus!
