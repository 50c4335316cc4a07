use rt::scenes::{SceneLayout, ScenePreset, SceneView};

#[test]
fn numbers_name_presets() {
    assert_eq!(ScenePreset::from_number(1), ScenePreset::Sphere);
    assert_eq!(ScenePreset::from_number(2), ScenePreset::PlaneAndCube);
    assert_eq!(ScenePreset::from_number(3), ScenePreset::AllObjects);
    assert_eq!(ScenePreset::from_number(4), ScenePreset::AllObjectsAlternateView);
    assert_eq!(ScenePreset::from_number(5), ScenePreset::BonusShowcase);
}

#[test]
fn scenes_three_and_four_differ_only_in_camera() {
    let three = ScenePreset::from_number(3);
    let four = ScenePreset::from_number(4);
    assert_eq!(three.layout(), SceneLayout::AllObjects);
    assert_eq!(four.layout(), SceneLayout::AllObjects);
    assert_eq!(three.default_view(), SceneView::Front);
    assert_eq!(four.default_view(), SceneView::Alternate);
    assert_eq!(ScenePreset::from_number(1).layout(), SceneLayout::Sphere);
    assert_eq!(ScenePreset::from_number(2).layout(), SceneLayout::PlaneAndCube);
}

#[test]
fn scene_five_is_the_bonus_showcase() {
    let five = ScenePreset::from_number(5);
    assert_eq!(five.layout(), SceneLayout::BonusShowcase);
    assert_eq!(five.default_view(), SceneView::BonusView);
}
