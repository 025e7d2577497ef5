use layered::color::{accent_2, accent_3, background};
use layered::phase::{
    after_layer, layer_outcome, transition_colors, Backdrop, Fade, SystemPhase, PHASE_TRANSITION_MS, SPLASH_MS,
};

#[test]
fn splash_moves_to_first_layer_when_done() {
    let splash = SystemPhase::Splash { duration_ms: SPLASH_MS };
    let early = splash.step(2999, false);
    assert_eq!(early.backdrop, Backdrop::Splash);
    assert_eq!(early.next, None);
    let done = splash.step(3000, false);
    assert_eq!(
        done.next,
        Some(SystemPhase::LayerTransition {
            out_ms: PHASE_TRANSITION_MS,
            in_ms: PHASE_TRANSITION_MS,
            layer: 0,
            draw_current_layer: false,
        })
    );
}

#[test]
fn transition_fades_out_then_activates_and_fades_in() {
    let t = SystemPhase::LayerTransition { out_ms: 375, in_ms: 750, layer: 2, draw_current_layer: true };
    let out = t.step(100, false);
    assert_eq!(out.backdrop, Backdrop::Layer);
    assert_eq!(out.fade, Fade::Out { elapsed_ms: 100, duration_ms: 375 });
    assert_eq!(out.activate, None);
    let into = t.step(375, false);
    assert_eq!(into.activate, Some(2));
    assert_eq!(into.fade, Fade::In { remaining_ms: 750, duration_ms: 750 });
    let again = t.step(1000, true);
    assert_eq!(again.activate, None);
    assert_eq!(again.fade, Fade::In { remaining_ms: 125, duration_ms: 750 });
    let end = t.step(1125, true);
    assert_eq!(end.next, Some(SystemPhase::Layer));
    assert_eq!(end.fade, Fade::Off);
    let first = SystemPhase::LayerTransition { out_ms: 750, in_ms: 750, layer: 0, draw_current_layer: false };
    assert_eq!(first.step(10, false).backdrop, Backdrop::Splash);
}

#[test]
fn play_ends_by_objectives_reset_or_threat() {
    assert_eq!(layer_outcome(true, false, false, 1, 5), None);
    assert_eq!(layer_outcome(true, true, false, 1, 5), Some(1));
    assert_eq!(layer_outcome(true, false, true, 3, 5), Some(3));
    assert_eq!(layer_outcome(false, false, false, 4, 5), Some(0));
    assert_eq!(layer_outcome(false, true, true, 1, 5), Some(2));
    assert_eq!(after_layer(None, true), None);
    assert_eq!(
        after_layer(Some(3), true),
        Some(SystemPhase::LayerTransition { out_ms: 187, in_ms: 750, layer: 3, draw_current_layer: true })
    );
    assert_eq!(
        after_layer(Some(0), false),
        Some(SystemPhase::LayerTransition { out_ms: 375, in_ms: 750, layer: 0, draw_current_layer: true })
    );
    assert_eq!(SystemPhase::Layer.step(99, false).next, None);
}

#[test]
fn fade_colors_follow_the_outcome() {
    assert_eq!(transition_colors(true, true, true), (None, accent_2()));
    assert_eq!(transition_colors(false, true, true), (Some(accent_3()), background()));
    assert_eq!(transition_colors(false, true, false), (None, background()));
    assert_eq!(transition_colors(false, false, true), (None, background()));
}
