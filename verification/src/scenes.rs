//! The catalogue of numbered demo scenes: scenes 1 to 4 are the required
//! renders, scene 5 is the bonus showcase.

use vstd::prelude::*;

verus! {

/// The scene numbers that the catalogue knows.
pub open spec fn is_known_scene(number: int) -> bool {
    1 <= number <= 5
}

/// The smallest known scene number.
pub const FIRST_SCENE: u32 = 1;

/// The largest known scene number.
pub const LAST_SCENE: u32 = 5;

/// The objects and lights of a demo scene.
#[derive(Clone, Copy, Debug, PartialEq, Eq, Structural)]
pub enum SceneLayout {
    /// A red sphere above a ground plane, with a bright key light.
    Sphere,
    /// A blue cube on a ground plane, lit less brightly.
    PlaneAndCube,
    /// One of every primitive plus a glass sphere.
    AllObjects,
    /// A particle fountain beside a patch of wavy water.
    BonusShowcase,
}

/// The default point of view of a demo scene.
#[derive(Clone, Copy, Debug, PartialEq, Eq, Structural)]
pub enum SceneView {
    /// The camera of the sphere scene.
    SphereView,
    /// The camera of the plane-and-cube scene.
    PlaneAndCubeView,
    /// The front camera of the all-objects layout.
    Front,
    /// The camera on the opposite side of the all-objects layout.
    Alternate,
    /// The camera of the bonus showcase.
    BonusView,
}

/// A numbered demo scene.
#[derive(Clone, Copy, Debug, PartialEq, Eq, Structural)]
pub enum ScenePreset {
    /// Scene 1.
    Sphere,
    /// Scene 2.
    PlaneAndCube,
    /// Scene 3.
    AllObjects,
    /// Scene 4: the objects of scene 3 seen from another camera.
    AllObjectsAlternateView,
    /// Scene 5: the bonus showcase with particles and a fluid surface.
    BonusShowcase,
}

/// The preset that a scene number names.
pub open spec fn preset_of(number: int) -> ScenePreset {
    if number == 1 {
        ScenePreset::Sphere
    } else if number == 2 {
        ScenePreset::PlaneAndCube
    } else if number == 3 {
        ScenePreset::AllObjects
    } else if number == 4 {
        ScenePreset::AllObjectsAlternateView
    } else {
        ScenePreset::BonusShowcase
    }
}

/// The objects and lights of a preset.
pub open spec fn layout_of(preset: ScenePreset) -> SceneLayout {
    match preset {
        ScenePreset::Sphere => SceneLayout::Sphere,
        ScenePreset::PlaneAndCube => SceneLayout::PlaneAndCube,
        ScenePreset::AllObjects => SceneLayout::AllObjects,
        ScenePreset::AllObjectsAlternateView => SceneLayout::AllObjects,
        ScenePreset::BonusShowcase => SceneLayout::BonusShowcase,
    }
}

/// The default camera of a preset.
pub open spec fn view_of(preset: ScenePreset) -> SceneView {
    match preset {
        ScenePreset::Sphere => SceneView::SphereView,
        ScenePreset::PlaneAndCube => SceneView::PlaneAndCubeView,
        ScenePreset::AllObjects => SceneView::Front,
        ScenePreset::AllObjectsAlternateView => SceneView::Alternate,
        ScenePreset::BonusShowcase => SceneView::BonusView,
    }
}

impl ScenePreset {
    /// The preset with the given number; only numbers 1 to 5 name a scene.
    pub fn from_number(number: u32) -> (preset: ScenePreset)
        requires
            is_known_scene(number as int),
        ensures
            preset == preset_of(number as int),
    {
        if number == 1 {
            ScenePreset::Sphere
        } else if number == 2 {
            ScenePreset::PlaneAndCube
        } else if number == 3 {
            ScenePreset::AllObjects
        } else if number == 4 {
            ScenePreset::AllObjectsAlternateView
        } else {
            ScenePreset::BonusShowcase
        }
    }

    /// The objects and lights that the scene builds.
    pub fn layout(&self) -> (layout: SceneLayout)
        ensures
            layout == layout_of(*self),
    {
        match self {
            ScenePreset::Sphere => SceneLayout::Sphere,
            ScenePreset::PlaneAndCube => SceneLayout::PlaneAndCube,
            ScenePreset::AllObjects => SceneLayout::AllObjects,
            ScenePreset::AllObjectsAlternateView => SceneLayout::AllObjects,
            ScenePreset::BonusShowcase => SceneLayout::BonusShowcase,
        }
    }

    /// The camera that the scene uses unless the command line overrides it.
    pub fn default_view(&self) -> (view: SceneView)
        ensures
            view == view_of(*self),
    {
        match self {
            ScenePreset::Sphere => SceneView::SphereView,
            ScenePreset::PlaneAndCube => SceneView::PlaneAndCubeView,
            ScenePreset::AllObjects => SceneView::Front,
            ScenePreset::AllObjectsAlternateView => SceneView::Alternate,
            ScenePreset::BonusShowcase => SceneView::BonusView,
        }
    }
}

/// Scenes 3 and 4 hold the same objects and lights and differ only in the
/// default camera; every other pair of distinct scenes, the bonus showcase
/// included, differs in its objects; no two scenes share a default camera.
pub proof fn lemma_scenes_three_and_four_share_objects(a: int, b: int)
    requires
        is_known_scene(a),
        is_known_scene(b),
    ensures
        layout_of(preset_of(a)) == layout_of(preset_of(b)) <==> (a == b || (3 <= a <= 4 && 3
            <= b <= 4)),
        view_of(preset_of(a)) == view_of(preset_of(b)) <==> a == b,
{
}

/// Scene 5 is the only scene with the bonus layout.
pub proof fn lemma_scene_five_is_the_bonus_showcase(n: int)
    requires
        is_known_scene(n),
    ensures
        layout_of(preset_of(n)) == SceneLayout::BonusShowcase <==> n == 5,
{
}

/// The number of the scene a preset is: the sphere scene is 1, the plane and
/// cube 2, all objects 3, all objects from the other side 4, the bonus 5.
pub open spec fn scene_number(preset: ScenePreset) -> int {
    match preset {
        ScenePreset::Sphere => 1,
        ScenePreset::PlaneAndCube => 2,
        ScenePreset::AllObjects => 3,
        ScenePreset::AllObjectsAlternateView => 4,
        ScenePreset::BonusShowcase => 5,
    }
}

/// The scene a camera was set up for: the sphere camera belongs to scene 1,
/// the plane-and-cube camera to scene 2, the front and the opposite camera of
/// the all-objects layout to scenes 3 and 4, the bonus camera to scene 5.
pub open spec fn camera_owner(view: SceneView) -> int {
    match view {
        SceneView::SphereView => 1,
        SceneView::PlaneAndCubeView => 2,
        SceneView::Front => 3,
        SceneView::Alternate => 4,
        SceneView::BonusView => 5,
    }
}

/// The scenes that build a layout's objects and lights.
pub open spec fn builds_layout(number: int, layout: SceneLayout) -> bool {
    match layout {
        SceneLayout::Sphere => number == 1,
        SceneLayout::PlaneAndCube => number == 2,
        SceneLayout::AllObjects => number == 3 || number == 4,
        SceneLayout::BonusShowcase => number == 5,
    }
}

/// Each scene number selects the preset of that number, builds the objects
/// of its own scene and, unless overridden, looks through its own camera.
pub proof fn lemma_scene_uses_its_own_objects_and_camera(n: int)
    requires
        is_known_scene(n),
    ensures
        scene_number(preset_of(n)) == n,
        builds_layout(n, layout_of(preset_of(n))),
        camera_owner(view_of(preset_of(n))) == n,
{
}

} // verus!
