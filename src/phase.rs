//! The phases the game moves through (splash screen, fades between layers,
//! play on a layer) and the decisions each frame takes in them. Times are
//! whole milliseconds since the current phase began.
use vstd::prelude::*;

use crate::color::{accent_2, accent_3, background, Color};

verus! {

/// Length of a full fade between layers, in milliseconds.
pub const PHASE_TRANSITION_MS: u64 = 750;

/// Length of the opening splash screen, in milliseconds.
pub const SPLASH_MS: u64 = 3000;

/// A phase of the game.
#[derive(Clone, Copy, Debug, PartialEq, Eq, Structural)]
pub enum SystemPhase {
    /// Splash screen shown for `duration_ms`.
    Splash { duration_ms: u64 },
    /// Fade out for `out_ms`, then into the layer with index `layer` for
    /// `in_ms`; while fading out, the current layer is drawn when
    /// `draw_current_layer` is set and the splash screen otherwise.
    LayerTransition { out_ms: u64, in_ms: u64, layer: usize, draw_current_layer: bool },
    /// Play on the active layer.
    Layer,
}

/// What a frame draws beneath any fade.
#[derive(Clone, Copy, Debug, PartialEq, Eq, Structural)]
pub enum Backdrop {
    Splash,
    Layer,
}

/// A full-screen fade drawn over the backdrop.
#[derive(Clone, Copy, Debug, PartialEq, Eq, Structural)]
pub enum Fade {
    Off,
    /// Fading out: opacity `elapsed_ms / duration_ms`.
    Out { elapsed_ms: u64, duration_ms: u64 },
    /// Fading in: opacity `remaining_ms / duration_ms`.
    In { remaining_ms: u64, duration_ms: u64 },
}

/// The decisions of one frame.
#[derive(Clone, Copy, Debug, PartialEq, Eq, Structural)]
pub struct FrameStep {
    pub backdrop: Backdrop,
    /// Layer to activate before drawing, if any.
    pub activate: Option<usize>,
    pub fade: Fade,
    /// Phase to enter (restarting the phase clock), if any.
    pub next: Option<SystemPhase>,
}

/// The decisions of a frame `elapsed_ms` into `phase`; `layer_reset` tells
/// whether the target layer of a transition was already activated.
pub open spec fn spec_step(phase: SystemPhase, elapsed_ms: u64, layer_reset: bool) -> FrameStep {
    match phase {
        SystemPhase::Splash { duration_ms } => FrameStep {
            backdrop: Backdrop::Splash,
            activate: None,
            fade: Fade::Off,
            next: if elapsed_ms >= duration_ms {
                Some(
                    SystemPhase::LayerTransition {
                        out_ms: PHASE_TRANSITION_MS,
                        in_ms: PHASE_TRANSITION_MS,
                        layer: 0,
                        draw_current_layer: false,
                    },
                )
            } else {
                None
            },
        },
        SystemPhase::LayerTransition { out_ms, in_ms, layer, draw_current_layer } => {
            if elapsed_ms >= out_ms + in_ms {
                FrameStep {
                    backdrop: Backdrop::Layer,
                    activate: None,
                    fade: Fade::Off,
                    next: Some(SystemPhase::Layer),
                }
            } else if out_ms + in_ms - elapsed_ms <= in_ms {
                FrameStep {
                    backdrop: Backdrop::Layer,
                    activate: if layer_reset {
                        None
                    } else {
                        Some(layer)
                    },
                    fade: Fade::In {
                        remaining_ms: (out_ms + in_ms - elapsed_ms) as u64,
                        duration_ms: in_ms,
                    },
                    next: None,
                }
            } else {
                FrameStep {
                    backdrop: if draw_current_layer {
                        Backdrop::Layer
                    } else {
                        Backdrop::Splash
                    },
                    activate: None,
                    fade: Fade::Out { elapsed_ms, duration_ms: out_ms },
                    next: None,
                }
            }
        },
        SystemPhase::Layer => FrameStep {
            backdrop: Backdrop::Layer,
            activate: None,
            fade: Fade::Off,
            next: None,
        },
    }
}

impl SystemPhase {
    /// The decisions of a frame `elapsed_ms` into this phase (see
    /// [`spec_step`]). During play the next phase is decided after the
    /// layer is drawn, by [`after_layer`].
    pub fn step(self, elapsed_ms: u64, layer_reset: bool) -> (r: FrameStep)
        ensures
            r == spec_step(self, elapsed_ms, layer_reset),
    {
        match self {
            SystemPhase::Splash { duration_ms } => FrameStep {
                backdrop: Backdrop::Splash,
                activate: None,
                fade: Fade::Off,
                next: if elapsed_ms >= duration_ms {
                    Some(
                        SystemPhase::LayerTransition {
                            out_ms: PHASE_TRANSITION_MS,
                            in_ms: PHASE_TRANSITION_MS,
                            layer: 0,
                            draw_current_layer: false,
                        },
                    )
                } else {
                    None
                },
            },
            SystemPhase::LayerTransition { out_ms, in_ms, layer, draw_current_layer } => {
                let total: u128 = out_ms as u128 + in_ms as u128;
                if elapsed_ms as u128 >= total {
                    FrameStep {
                        backdrop: Backdrop::Layer,
                        activate: None,
                        fade: Fade::Off,
                        next: Some(SystemPhase::Layer),
                    }
                } else if total - elapsed_ms as u128 <= in_ms as u128 {
                    FrameStep {
                        backdrop: Backdrop::Layer,
                        activate: if layer_reset {
                            None
                        } else {
                            Some(layer)
                        },
                        fade: Fade::In {
                            remaining_ms: (total - elapsed_ms as u128) as u64,
                            duration_ms: in_ms,
                        },
                        next: None,
                    }
                } else {
                    FrameStep {
                        backdrop: if draw_current_layer {
                            Backdrop::Layer
                        } else {
                            Backdrop::Splash
                        },
                        activate: None,
                        fade: Fade::Out { elapsed_ms, duration_ms: out_ms },
                        next: None,
                    }
                }
            },
            SystemPhase::Layer => FrameStep {
                backdrop: Backdrop::Layer,
                activate: None,
                fade: Fade::Off,
                next: None,
            },
        }
    }
}

/// The phase to enter after a frame of play that ended the layer with
/// `next_layer` (none while play goes on): a fade to that layer, out in a
/// quarter of [`PHASE_TRANSITION_MS`] when the avatar was caught by a
/// threat and in half of it otherwise, then in over the full length.
pub fn after_layer(next_layer: Option<usize>, threatened: bool) -> (r: Option<SystemPhase>)
    ensures
        r == match next_layer {
            None => None,
            Some(layer) => Some(
                SystemPhase::LayerTransition {
                    out_ms: if threatened {
                        PHASE_TRANSITION_MS / 4
                    } else {
                        PHASE_TRANSITION_MS / 2
                    },
                    in_ms: PHASE_TRANSITION_MS,
                    layer,
                    draw_current_layer: true,
                },
            ),
        },
{
    match next_layer {
        None => None,
        Some(layer) => Some(
            SystemPhase::LayerTransition {
                out_ms: if threatened {
                    PHASE_TRANSITION_MS / 4
                } else {
                    PHASE_TRANSITION_MS / 2
                },
                in_ms: PHASE_TRANSITION_MS,
                layer,
                draw_current_layer: true,
            },
        ),
    }
}

/// Whether a frame of play ends the layer, and which tilemap comes next:
/// the same one when objectives remain and the player asked for a reset or
/// was caught by a threat, the following one (wrapping around the
/// `tilemap_count` tilemaps) once no objective remains.
pub fn layer_outcome(
    remaining_objectives: bool,
    reset_requested: bool,
    threatened: bool,
    active_index: usize,
    tilemap_count: usize,
) -> (r: Option<usize>)
    requires
        active_index < tilemap_count,
    ensures
        r == if !remaining_objectives {
            Some(((active_index + 1) % (tilemap_count as int)) as usize)
        } else if reset_requested || threatened {
            Some(active_index)
        } else {
            None
        },
{
    if !remaining_objectives {
        Some((active_index + 1) % tilemap_count)
    } else if reset_requested || threatened {
        Some(active_index)
    } else {
        None
    }
}

/// Fade color and optional tint of a fade out: the threat color when the
/// avatar was caught, the background with the completion tint when
/// objectives remained on a drawn layer, and the background alone
/// otherwise.
pub fn transition_colors(threatened: bool, remaining_objectives: bool, draw_current_layer: bool) -> (r: (
    Option<Color>,
    Color,
))
    ensures
        r == if threatened {
            (None, accent_2())
        } else if remaining_objectives && draw_current_layer {
            (Some(accent_3()), background())
        } else {
            (None, background())
        },
{
    if threatened {
        (None, accent_2())
    } else if remaining_objectives && draw_current_layer {
        (Some(accent_3()), background())
    } else {
        (None, background())
    }
}

} // verus!
