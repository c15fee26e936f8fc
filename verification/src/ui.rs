use vstd::prelude::*;

verus! {

/// The axis children of a rect are laid out along.
#[derive(Copy, Clone, Debug, PartialEq, Eq, Structural)]
pub enum UiDirection {
    Vertical,
    Horizontal,
}

impl UiDirection {
    /// The index of the axis in a 2D vector: 0 for x, 1 for y.
    pub fn to_axis_idx(self) -> (r: usize)
        ensures
            r == match self {
                UiDirection::Horizontal => 0usize,
                UiDirection::Vertical => 1usize,
            },
    {
        match self {
            UiDirection::Horizontal => 0,
            UiDirection::Vertical => 1,
        }
    }
}

/// How the free space between aligned children is distributed.
#[derive(Copy, Clone, Debug, PartialEq, Eq, Structural)]
pub enum UiSpacing {
    Chunk,
    SpaceBetween,
    SpaceAround,
    SpaceEvenly,
}

/// The unit of a UI length: pixels, or a share of the parent (`P..`) or of the
/// viewport (`V..`) width, height, depth, minimum or maximum.
#[derive(Copy, Clone, Debug, PartialEq, Eq, Structural, PartialOrd, Ord)]
pub enum UiUnit {
    Px,
    Pw,
    Ph,
    Pd,
    Pmin,
    Pmax,
    Vw,
    Vh,
    Vd,
    Vmin,
    Vmax,
}

/// Which extent of a size a UI length scales: width, height, both axes apiece, or
/// the smaller or larger of width and height.
#[derive(Copy, Clone, Debug, PartialEq, Eq, Structural)]
pub enum UiExtent {
    Width,
    Height,
    Both,
    Min,
    Max,
}

/// What a UI length is measured against: nothing (it is in pixels), the parent's
/// size, or the viewport's size.
#[derive(Copy, Clone, Debug, PartialEq, Eq, Structural)]
pub enum UiBasis {
    Pixels,
    Parent(UiExtent),
    View(UiExtent),
}

/// What a length in unit `u` is measured against.
pub open spec fn unit_basis(u: UiUnit) -> UiBasis {
    match u {
        UiUnit::Px => UiBasis::Pixels,
        UiUnit::Pw => UiBasis::Parent(UiExtent::Width),
        UiUnit::Ph => UiBasis::Parent(UiExtent::Height),
        UiUnit::Pd => UiBasis::Parent(UiExtent::Both),
        UiUnit::Pmin => UiBasis::Parent(UiExtent::Min),
        UiUnit::Pmax => UiBasis::Parent(UiExtent::Max),
        UiUnit::Vw => UiBasis::View(UiExtent::Width),
        UiUnit::Vh => UiBasis::View(UiExtent::Height),
        UiUnit::Vd => UiBasis::View(UiExtent::Both),
        UiUnit::Vmin => UiBasis::View(UiExtent::Min),
        UiUnit::Vmax => UiBasis::View(UiExtent::Max),
    }
}

impl UiUnit {
    /// What a length in this unit is measured against.
    pub fn basis(self) -> (r: UiBasis)
        ensures
            r == unit_basis(self),
    {
        match self {
            UiUnit::Px => UiBasis::Pixels,
            UiUnit::Pw => UiBasis::Parent(UiExtent::Width),
            UiUnit::Ph => UiBasis::Parent(UiExtent::Height),
            UiUnit::Pd => UiBasis::Parent(UiExtent::Both),
            UiUnit::Pmin => UiBasis::Parent(UiExtent::Min),
            UiUnit::Pmax => UiBasis::Parent(UiExtent::Max),
            UiUnit::Vw => UiBasis::View(UiExtent::Width),
            UiUnit::Vh => UiBasis::View(UiExtent::Height),
            UiUnit::Vd => UiBasis::View(UiExtent::Both),
            UiUnit::Vmin => UiBasis::View(UiExtent::Min),
            UiUnit::Vmax => UiBasis::View(UiExtent::Max),
        }
    }
}

/// Whether an entity is disabled, as inherited through the hierarchy.
#[derive(Clone, Copy, PartialEq, Eq, Structural, PartialOrd, Ord, Hash, Debug)]
pub struct GlobalDisableableComponent {
    pub is_disabled: bool,
}

impl Default for GlobalDisableableComponent {
    fn default() -> (r: Self)
        ensures
            !r.is_disabled,
    {
        Self { is_disabled: false }
    }
}

/// Whether an entity is disabled on its own.
#[derive(Clone, Copy, PartialEq, Eq, Structural, PartialOrd, Ord, Hash, Debug)]
pub struct LocalDisableableComponent {
    pub is_disabled: bool,
}

impl Default for LocalDisableableComponent {
    fn default() -> (r: Self)
        ensures
            !r.is_disabled,
    {
        Self { is_disabled: false }
    }
}

/// The space render coordinates are given in.
#[derive(Copy, Clone, Debug, PartialEq, Eq, Structural, Hash, PartialOrd, Ord)]
pub enum RenderSpace {
    Clip,
    Window,
    World,
}

/// The handedness and up axis a mesh was authored in.
#[derive(Copy, Clone, Debug, PartialEq, Eq, Structural, PartialOrd, Ord)]
pub enum CoordinateSpaceType {
    LeftHandZForward,
    RightHandZBack,
    RightHandZUp,
}

} // verus!
