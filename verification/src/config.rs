//! The limits that the command line puts on a render request.

use vstd::prelude::*;
use crate::scenes::{is_known_scene, FIRST_SCENE, LAST_SCENE};

verus! {

/// The scene rendered when none is named.
pub const DEFAULT_SCENE: u32 = 1;

/// The image width used when none is given.
pub const DEFAULT_WIDTH: usize = 800;

/// The image height used when none is given.
pub const DEFAULT_HEIGHT: usize = 600;

/// The recursion limit for reflected and refracted rays in a command-line render.
pub const CLI_MAX_DEPTH: u32 = 6;

/// The recursion limit of the default render options.
pub const DEFAULT_MAX_DEPTH: u32 = 5;

/// Why a render request was refused.
#[derive(Clone, Copy, Debug, PartialEq, Eq, Structural)]
pub enum ConfigError {
    /// The scene number names no demo scene.
    UnknownScene(u32),
    /// The width or the height is zero.
    EmptyImage,
    /// No worker thread was requested.
    NoThreads,
}

/// The outcome of checking a request: the first limit broken, in the order
/// scene number, image size, worker count.
pub open spec fn config_verdict(scene: u32, width: usize, height: usize, threads: usize) -> Result<
    (),
    ConfigError,
> {
    if !is_known_scene(scene as int) {
        Err(ConfigError::UnknownScene(scene))
    } else if width == 0 || height == 0 {
        Err(ConfigError::EmptyImage)
    } else if threads == 0 {
        Err(ConfigError::NoThreads)
    } else {
        Ok(())
    }
}

/// Checks a render request: the scene must be one of the known scenes, the
/// image must have at least one pixel, and at least one worker must be asked for.
/// The known scenes are 1 to 5.
pub fn validate_config(scene: u32, width: usize, height: usize, threads: usize) -> (r: Result<
    (),
    ConfigError,
>)
    ensures
        r == config_verdict(scene, width, height, threads),
        r is Ok <==> (is_known_scene(scene as int) && width > 0 && height > 0 && threads > 0),
        r is Ok <==> (1 <= scene <= 5 && width > 0 && height > 0 && threads > 0),
        r == Err::<(), ConfigError>(ConfigError::UnknownScene(scene)) <==> !(1 <= scene <= 5),
        r == Err::<(), ConfigError>(ConfigError::EmptyImage) <==> (1 <= scene <= 5 && (width == 0
            || height == 0)),
        r == Err::<(), ConfigError>(ConfigError::NoThreads) <==> (1 <= scene <= 5 && width > 0
            && height > 0 && threads == 0),
{
    if scene < FIRST_SCENE || scene > LAST_SCENE {
        Err(ConfigError::UnknownScene(scene))
    } else if width == 0 || height == 0 {
        Err(ConfigError::EmptyImage)
    } else if threads == 0 {
        Err(ConfigError::NoThreads)
    } else {
        Ok(())
    }
}

} // verus!
