use vstd::prelude::*;

verus! {

/// The world a region belongs to.
#[derive(Debug, Clone, Copy, PartialEq, Eq, Structural)]
pub enum DimensionType {
    Overworld,
    Nether,
    End,
}

impl DimensionType {
    /// The byte that stands for this dimension in a file header and a region id.
    pub open spec fn spec_id(self) -> u8 {
        match self {
            DimensionType::Overworld => 0,
            DimensionType::Nether => 1,
            DimensionType::End => 2,
        }
    }

    pub open spec fn spec_section_count(self) -> usize {
        match self {
            DimensionType::Overworld => 24,
            DimensionType::Nether => 16,
            DimensionType::End => 16,
        }
    }

    pub open spec fn spec_from_u8(value: u8) -> Option<DimensionType> {
        if value == 0 {
            Some(DimensionType::Overworld)
        } else if value == 1 {
            Some(DimensionType::Nether)
        } else if value == 2 {
            Some(DimensionType::End)
        } else {
            None
        }
    }

    pub fn id(&self) -> (r: u8)
        ensures
            r == self.spec_id(),
    {
        match self {
            DimensionType::Overworld => 0,
            DimensionType::Nether => 1,
            DimensionType::End => 2,
        }
    }

    pub fn from_u8(value: u8) -> (r: Option<DimensionType>)
        ensures
            r == Self::spec_from_u8(value),
    {
        match value {
            0 => Some(DimensionType::Overworld),
            1 => Some(DimensionType::Nether),
            2 => Some(DimensionType::End),
            _ => None,
        }
    }

    /// Vertical sections per segment.
    pub fn section_count(&self) -> (r: usize)
        ensures
            r == self.spec_section_count(),
    {
        match self {
            DimensionType::Overworld => 24,
            DimensionType::Nether => 16,
            DimensionType::End => 16,
        }
    }

    /// The directory name of the dimension.
    pub open spec fn spec_name(&self) -> Seq<char> {
        match *self {
            DimensionType::Overworld => "overworld"@,
            DimensionType::Nether => "the_nether"@,
            DimensionType::End => "the_end"@,
        }
    }

    /// The directory name of the dimension.
    pub fn name(&self) -> (r: &'static str)
        ensures
            r@ == self.spec_name(),
    {
        match self {
            DimensionType::Overworld => "overworld",
            DimensionType::Nether => "the_nether",
            DimensionType::End => "the_end",
        }
    }

    pub fn default() -> (r: DimensionType)
        ensures
            r == DimensionType::Overworld,
    {
        DimensionType::Overworld
    }
}

/// A dimension's byte reads back as that dimension.
pub proof fn law_dimension_id_roundtrip(d: DimensionType)
    ensures
        DimensionType::spec_from_u8(d.spec_id()) == Some(d),
{
}

} // verus!
