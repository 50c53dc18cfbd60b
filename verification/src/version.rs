use vstd::prelude::*;

verus! {

/// Format revisions of the region file, in release order.
#[derive(Debug, Clone, Copy, PartialEq, Eq, Structural)]
pub enum Version {
    Zvcr3d0001,
    Zvcr3d0100,
    Zvcr3d0110,
    Zvcr3d0120,
    Zvcr3d0130,
    Zvcr3d0140,
    Zvcr3d1000,
    Zvcr3d1001,
}

impl Version {
    /// The byte that stands for this version in a file header.
    pub open spec fn spec_id(self) -> u8 {
        match self {
            Version::Zvcr3d0001 => 1,
            Version::Zvcr3d0100 => 2,
            Version::Zvcr3d0110 => 3,
            Version::Zvcr3d0120 => 4,
            Version::Zvcr3d0130 => 5,
            Version::Zvcr3d0140 => 6,
            Version::Zvcr3d1000 => 7,
            Version::Zvcr3d1001 => 8,
        }
    }

    pub fn id(&self) -> (r: u8)
        ensures r == self.spec_id(),
    {
        match self {
            Version::Zvcr3d0001 => 1,
            Version::Zvcr3d0100 => 2,
            Version::Zvcr3d0110 => 3,
            Version::Zvcr3d0120 => 4,
            Version::Zvcr3d0130 => 5,
            Version::Zvcr3d0140 => 6,
            Version::Zvcr3d1000 => 7,
            Version::Zvcr3d1001 => 8,
        }
    }

    /// The version's dotted name.
    pub fn name(&self) -> (r: &'static str)
        ensures
            r@ == (match *self {
                Version::Zvcr3d0001 => "0.0.0.1"@,
                Version::Zvcr3d0100 => "0.1.0.0"@,
                Version::Zvcr3d0110 => "0.1.1.0"@,
                Version::Zvcr3d0120 => "0.1.2.0"@,
                Version::Zvcr3d0130 => "0.1.3.0"@,
                Version::Zvcr3d0140 => "0.1.4.0"@,
                Version::Zvcr3d1000 => "1.0.0.0"@,
                Version::Zvcr3d1001 => "1.0.0.1"@,
            }),
    {
        match self {
            Version::Zvcr3d0001 => "0.0.0.1",
            Version::Zvcr3d0100 => "0.1.0.0",
            Version::Zvcr3d0110 => "0.1.1.0",
            Version::Zvcr3d0120 => "0.1.2.0",
            Version::Zvcr3d0130 => "0.1.3.0",
            Version::Zvcr3d0140 => "0.1.4.0",
            Version::Zvcr3d1000 => "1.0.0.0",
            Version::Zvcr3d1001 => "1.0.0.1",
        }
    }

    /// The newest version, which writers use.
    pub fn default() -> (r: Version)
        ensures
            r == Version::Zvcr3d1001,
    {
        Version::Zvcr3d1001
    }

    pub fn from_u8(value: u8) -> (r: Option<Version>)
        ensures
            r is Some <==> 1 <= value <= 8,
            r matches Some(v) ==> v.spec_id() == value,
    {
        match value {
            1 => Some(Version::Zvcr3d0001),
            2 => Some(Version::Zvcr3d0100),
            3 => Some(Version::Zvcr3d0110),
            4 => Some(Version::Zvcr3d0120),
            5 => Some(Version::Zvcr3d0130),
            6 => Some(Version::Zvcr3d0140),
            7 => Some(Version::Zvcr3d1000),
            8 => Some(Version::Zvcr3d1001),
            _ => None,
        }
    }
}

/// The newest version, which writers put in a header.
pub const ZVCR3D_LATEST_VERSION: Version = Version::Zvcr3d1001;

/// A version's byte reads back as that version.
pub proof fn law_version_id_roundtrip(v: Version)
    ensures
        1 <= v.spec_id() <= 8,
        forall|w: Version| #[trigger] w.spec_id() == v.spec_id() ==> w == v,
{
}

} // verus!
