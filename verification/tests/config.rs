use rt::config::{validate_config, ConfigError, DEFAULT_HEIGHT, DEFAULT_SCENE, DEFAULT_WIDTH};

#[test]
fn accepts_every_known_scene() {
    for scene in 1..=5 {
        assert_eq!(validate_config(scene, 800, 600, 4), Ok(()));
    }
    assert_eq!(validate_config(DEFAULT_SCENE, DEFAULT_WIDTH, DEFAULT_HEIGHT, 1), Ok(()));
}

#[test]
fn rejects_unknown_scene_first() {
    assert_eq!(validate_config(0, 800, 600, 4), Err(ConfigError::UnknownScene(0)));
    assert_eq!(validate_config(6, 0, 0, 0), Err(ConfigError::UnknownScene(6)));
}

#[test]
fn rejects_empty_image() {
    assert_eq!(validate_config(1, 0, 600, 4), Err(ConfigError::EmptyImage));
    assert_eq!(validate_config(2, 800, 0, 0), Err(ConfigError::EmptyImage));
}

#[test]
fn rejects_zero_threads() {
    assert_eq!(validate_config(3, 1, 1, 0), Err(ConfigError::NoThreads));
}

#[test]
fn accepts_the_bonus_scene_with_defaults() {
    assert_eq!(validate_config(5, DEFAULT_WIDTH, DEFAULT_HEIGHT, 4), Ok(()));
}
