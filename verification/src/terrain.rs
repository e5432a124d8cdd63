use vstd::prelude::*;

verus! {

/// Traversal cost of terrain that must never be traversed: the maximum
/// representable cost of the cost type.
pub const FORBIDDEN_COST: i8 = 127;

/// The closed set of terrain categories a grid cell can carry.
///
/// `NotSet` marks a cell whose terrain was never classified; like
/// `OutOfBounds`, impassable vegetation and water it costs the maximum
/// sentinel, so the search only ever walks it as a last resort.
#[derive(Clone, Copy, PartialEq, Eq, Structural, Debug)]
pub enum EGroundType {
    OpenLand,
    RoughMeadow,
    EasyMovementForest,
    SlowRunForest,
    WalkForest,
    ImpassibleVegetation,
    LakeSwampMarsh,
    PavedRoad,
    FootPath,
    OutOfBounds,
    NotSet,
}

impl EGroundType {
    /// The traversal cost of each category, strictly ordered from the paved
    /// road up to the forbidden sentinel.
    pub open spec fn cost_spec(self) -> i8 {
        match self {
            EGroundType::OpenLand => 10,
            EGroundType::RoughMeadow => 15,
            EGroundType::EasyMovementForest => 12,
            EGroundType::SlowRunForest => 20,
            EGroundType::WalkForest => 25,
            EGroundType::ImpassibleVegetation => FORBIDDEN_COST,
            EGroundType::LakeSwampMarsh => FORBIDDEN_COST,
            EGroundType::PavedRoad => 1,
            EGroundType::FootPath => 5,
            EGroundType::OutOfBounds => FORBIDDEN_COST,
            EGroundType::NotSet => FORBIDDEN_COST,
        }
    }

    /// Whether this category is one of the four that must never be traversed.
    pub open spec fn is_forbidden(self) -> bool {
        match self {
            EGroundType::ImpassibleVegetation => true,
            EGroundType::LakeSwampMarsh => true,
            EGroundType::OutOfBounds => true,
            EGroundType::NotSet => true,
            _ => false,
        }
    }

    /// The cost of traversing one cell of this terrain.
    pub fn walk_cost(&self) -> (c: i8)
        ensures
            c == self.cost_spec(),
            0 <= c,
    {
        match *self {
            EGroundType::OpenLand => 10i8,
            EGroundType::RoughMeadow => 15i8,
            EGroundType::EasyMovementForest => 12i8,
            EGroundType::SlowRunForest => 20i8,
            EGroundType::WalkForest => 25i8,
            EGroundType::ImpassibleVegetation => FORBIDDEN_COST,
            EGroundType::LakeSwampMarsh => FORBIDDEN_COST,
            EGroundType::PavedRoad => 1i8,
            EGroundType::FootPath => 5i8,
            EGroundType::OutOfBounds => FORBIDDEN_COST,
            EGroundType::NotSet => FORBIDDEN_COST,
        }
    }
}

/// The cost-model law: every category's traversal cost is a fixed
/// non-negative value, the four forbidden categories all cost exactly the
/// maximum sentinel, every other category costs strictly less, and the
/// walkable categories are strictly ordered from road to dense forest.
pub proof fn lemma_cost_model(t: EGroundType)
    ensures
        0 <= t.cost_spec(),
        t.is_forbidden() <==> t.cost_spec() == FORBIDDEN_COST,
        !t.is_forbidden() ==> t.cost_spec() < FORBIDDEN_COST,
        EGroundType::PavedRoad.cost_spec() < EGroundType::FootPath.cost_spec(),
        EGroundType::FootPath.cost_spec() < EGroundType::OpenLand.cost_spec(),
        EGroundType::OpenLand.cost_spec() < EGroundType::EasyMovementForest.cost_spec(),
        EGroundType::EasyMovementForest.cost_spec() < EGroundType::RoughMeadow.cost_spec(),
        EGroundType::RoughMeadow.cost_spec() < EGroundType::SlowRunForest.cost_spec(),
        EGroundType::SlowRunForest.cost_spec() < EGroundType::WalkForest.cost_spec(),
        EGroundType::WalkForest.cost_spec() < FORBIDDEN_COST,
{
}

/// The terrain classifier: maps one discrete raster color, given as the four
/// channel values of a pixel, to the terrain category drawn in that color.
pub open spec fn color_category_spec(r: u8, g: u8, b: u8, a: u8) -> EGroundType {
    if r == 248 && g == 148 && b == 18 && a == 255 {
        EGroundType::OpenLand
    } else if r == 255 && g == 192 && b == 0 && a == 255 {
        EGroundType::RoughMeadow
    } else if r == 255 && g == 255 && b == 255 && a == 255 {
        EGroundType::EasyMovementForest
    } else if r == 2 && g == 208 && b == 60 && a == 255 {
        EGroundType::SlowRunForest
    } else if r == 2 && g == 136 && b == 40 && a == 255 {
        EGroundType::WalkForest
    } else if r == 5 && g == 73 && b == 24 && a == 255 {
        EGroundType::ImpassibleVegetation
    } else if r == 0 && g == 0 && b == 255 && a == 255 {
        EGroundType::LakeSwampMarsh
    } else if r == 71 && g == 51 && b == 3 && a == 255 {
        EGroundType::PavedRoad
    } else if r == 0 && g == 0 && b == 0 && (a == 255 || a == 0) {
        EGroundType::FootPath
    } else if r == 205 && g == 0 && b == 101 && a == 255 {
        EGroundType::OutOfBounds
    } else {
        EGroundType::NotSet
    }
}

/// Classifies one raster color into a terrain category; a color outside the
/// lookup table leaves the cell at `NotSet`, which is traversal-forbidden.
pub fn color_category(r: u8, g: u8, b: u8, a: u8) -> (t: EGroundType)
    ensures
        t == color_category_spec(r, g, b, a),
{
    if r == 248 && g == 148 && b == 18 && a == 255 {
        EGroundType::OpenLand
    } else if r == 255 && g == 192 && b == 0 && a == 255 {
        EGroundType::RoughMeadow
    } else if r == 255 && g == 255 && b == 255 && a == 255 {
        EGroundType::EasyMovementForest
    } else if r == 2 && g == 208 && b == 60 && a == 255 {
        EGroundType::SlowRunForest
    } else if r == 2 && g == 136 && b == 40 && a == 255 {
        EGroundType::WalkForest
    } else if r == 5 && g == 73 && b == 24 && a == 255 {
        EGroundType::ImpassibleVegetation
    } else if r == 0 && g == 0 && b == 255 && a == 255 {
        EGroundType::LakeSwampMarsh
    } else if r == 71 && g == 51 && b == 3 && a == 255 {
        EGroundType::PavedRoad
    } else if r == 0 && g == 0 && b == 0 && (a == 255 || a == 0) {
        EGroundType::FootPath
    } else if r == 205 && g == 0 && b == 101 && a == 255 {
        EGroundType::OutOfBounds
    } else {
        EGroundType::NotSet
    }
}

} // verus!
