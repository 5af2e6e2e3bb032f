use nano_vault::state::{nv_category_t, nv_state_t};
use nano_vault::ui::{nv_button_t, nv_screen_t, nv_ui_effect_t, nv_ui_t, nv_view_t};

fn vault(n: u8) -> nv_state_t {
    let mut state = nv_state_t::new();
    for id in 0..n {
        assert!(state.add_entry(id, nv_category_t::NV_CAT_ASSET, b"entry", id as i64 * 100));
    }
    state
}

fn at(screen: nv_screen_t, idx: usize) -> nv_ui_t {
    nv_ui_t { current_screen: screen, current_idx: idx }
}

#[test]
fn starts_on_overview() {
    let ui = nv_ui_t::new();
    assert_eq!(ui, at(nv_screen_t::NV_SCREEN_OVERVIEW, 0));
    assert_eq!(nv_ui_t::default(), ui);
}

#[test]
fn next_from_overview() {
    let mut ui = at(nv_screen_t::NV_SCREEN_OVERVIEW, 5);
    ui.next(&vault(2));
    assert_eq!(ui, at(nv_screen_t::NV_SCREEN_CAROUSEL, 0));
    let mut ui = at(nv_screen_t::NV_SCREEN_OVERVIEW, 5);
    ui.next(&vault(0));
    assert_eq!(ui, at(nv_screen_t::NV_SCREEN_ABOUT, 5));
}

#[test]
fn next_walks_the_carousel_then_about_then_overview() {
    let state = vault(3);
    let mut ui = at(nv_screen_t::NV_SCREEN_CAROUSEL, 0);
    ui.next(&state);
    assert_eq!(ui, at(nv_screen_t::NV_SCREEN_CAROUSEL, 1));
    ui.next(&state);
    assert_eq!(ui, at(nv_screen_t::NV_SCREEN_CAROUSEL, 2));
    ui.next(&state);
    assert_eq!(ui, at(nv_screen_t::NV_SCREEN_ABOUT, 2));
    ui.next(&state);
    assert_eq!(ui, at(nv_screen_t::NV_SCREEN_OVERVIEW, 2));
}

#[test]
fn next_from_detail_returns_to_carousel() {
    let mut ui = at(nv_screen_t::NV_SCREEN_DETAIL, 1);
    ui.next(&vault(3));
    assert_eq!(ui, at(nv_screen_t::NV_SCREEN_CAROUSEL, 1));
}

#[test]
fn prev_moves_backwards() {
    let state = vault(3);
    let mut ui = at(nv_screen_t::NV_SCREEN_OVERVIEW, 0);
    ui.prev(&state);
    assert_eq!(ui, at(nv_screen_t::NV_SCREEN_ABOUT, 0));
    ui.prev(&state);
    assert_eq!(ui, at(nv_screen_t::NV_SCREEN_CAROUSEL, 2));
    ui.prev(&state);
    assert_eq!(ui, at(nv_screen_t::NV_SCREEN_CAROUSEL, 1));
    ui.prev(&state);
    assert_eq!(ui, at(nv_screen_t::NV_SCREEN_CAROUSEL, 0));
    ui.prev(&state);
    assert_eq!(ui, at(nv_screen_t::NV_SCREEN_OVERVIEW, 0));
}

#[test]
fn prev_from_about_without_entries() {
    let mut ui = at(nv_screen_t::NV_SCREEN_ABOUT, 4);
    ui.prev(&vault(0));
    assert_eq!(ui, at(nv_screen_t::NV_SCREEN_OVERVIEW, 4));
}

#[test]
fn prev_from_detail_returns_to_carousel() {
    let mut ui = at(nv_screen_t::NV_SCREEN_DETAIL, 2);
    ui.prev(&vault(3));
    assert_eq!(ui, at(nv_screen_t::NV_SCREEN_CAROUSEL, 2));
}

#[test]
fn select_opens_and_closes_details() {
    let mut ui = at(nv_screen_t::NV_SCREEN_CAROUSEL, 1);
    ui.select();
    assert_eq!(ui, at(nv_screen_t::NV_SCREEN_DETAIL, 1));
    ui.select();
    assert_eq!(ui, at(nv_screen_t::NV_SCREEN_CAROUSEL, 1));
    let mut ui = at(nv_screen_t::NV_SCREEN_ABOUT, 1);
    ui.select();
    assert_eq!(ui, at(nv_screen_t::NV_SCREEN_ABOUT, 1));
    let mut ui = at(nv_screen_t::NV_SCREEN_OVERVIEW, 0);
    ui.select();
    assert_eq!(ui, at(nv_screen_t::NV_SCREEN_OVERVIEW, 0));
}

#[test]
fn left_undoes_right_and_right_undoes_left() {
    for count in [0u8, 1, 3] {
        let state = vault(count);
        let mut starts = vec![
            at(nv_screen_t::NV_SCREEN_OVERVIEW, 0),
            at(nv_screen_t::NV_SCREEN_ABOUT, 0),
        ];
        for idx in 0..count as usize {
            starts.push(at(nv_screen_t::NV_SCREEN_CAROUSEL, idx));
        }
        for start in starts {
            let mut ui = start;
            ui.next(&state);
            ui.prev(&state);
            assert_eq!(ui.current_screen, start.current_screen);
            if start.current_screen == nv_screen_t::NV_SCREEN_CAROUSEL {
                assert_eq!(ui.current_idx, start.current_idx);
            }
            let mut ui = start;
            ui.prev(&state);
            ui.next(&state);
            assert_eq!(ui.current_screen, start.current_screen);
            if start.current_screen == nv_screen_t::NV_SCREEN_CAROUSEL {
                assert_eq!(ui.current_idx, start.current_idx);
            }
        }
    }
}

#[test]
fn buttons_and_their_effects() {
    let state = vault(2);
    let mut ui = at(nv_screen_t::NV_SCREEN_CAROUSEL, 0);
    assert_eq!(
        ui.handle_button(&state, nv_button_t::NV_BUTTON_LEFT_PRESS),
        nv_ui_effect_t::NV_EFFECT_SHOW_LEFT_ARROW
    );
    assert_eq!(
        ui.handle_button(&state, nv_button_t::NV_BUTTON_RIGHT_PRESS),
        nv_ui_effect_t::NV_EFFECT_SHOW_RIGHT_ARROW
    );
    assert_eq!(
        ui.handle_button(&state, nv_button_t::NV_BUTTON_BOTH_PRESS),
        nv_ui_effect_t::NV_EFFECT_NONE
    );
    assert_eq!(ui, at(nv_screen_t::NV_SCREEN_CAROUSEL, 0));
    assert_eq!(
        ui.handle_button(&state, nv_button_t::NV_BUTTON_RIGHT_RELEASE),
        nv_ui_effect_t::NV_EFFECT_ERASE_RIGHT_ARROW_AND_REDRAW
    );
    assert_eq!(ui, at(nv_screen_t::NV_SCREEN_CAROUSEL, 1));
    assert_eq!(
        ui.handle_button(&state, nv_button_t::NV_BUTTON_BOTH_RELEASE),
        nv_ui_effect_t::NV_EFFECT_REDRAW
    );
    assert_eq!(ui, at(nv_screen_t::NV_SCREEN_DETAIL, 1));
    assert_eq!(
        ui.handle_button(&state, nv_button_t::NV_BUTTON_LEFT_RELEASE),
        nv_ui_effect_t::NV_EFFECT_ERASE_LEFT_ARROW_AND_REDRAW
    );
    assert_eq!(ui, at(nv_screen_t::NV_SCREEN_CAROUSEL, 1));
}

#[test]
fn render_shows_entry_on_carousel() {
    let mut state = vault(3);
    assert!(state.remove_entry(0));
    let mut ui = at(nv_screen_t::NV_SCREEN_CAROUSEL, 1);
    match ui.screen_to_render(&state) {
        nv_view_t::NV_VIEW_CAROUSEL { entry, index, count } => {
            assert_eq!(entry.id, 2);
            assert_eq!(index, 1);
            assert_eq!(count, 2);
        }
        _ => panic!("expected the carousel"),
    }
    assert_eq!(ui, at(nv_screen_t::NV_SCREEN_CAROUSEL, 1));
}

#[test]
fn render_shows_entry_details() {
    let state = vault(3);
    let mut ui = at(nv_screen_t::NV_SCREEN_DETAIL, 2);
    match ui.screen_to_render(&state) {
        nv_view_t::NV_VIEW_DETAIL { entry } => {
            assert_eq!(entry.id, 2);
            assert_eq!(entry.amount_cents, 200);
        }
        _ => panic!("expected the details"),
    }
}

#[test]
fn render_falls_back_to_overview_without_entry() {
    let state = vault(1);
    let mut ui = at(nv_screen_t::NV_SCREEN_CAROUSEL, 3);
    assert!(matches!(ui.screen_to_render(&state), nv_view_t::NV_VIEW_OVERVIEW));
    assert_eq!(ui, at(nv_screen_t::NV_SCREEN_OVERVIEW, 3));
    let mut ui = at(nv_screen_t::NV_SCREEN_DETAIL, 1);
    assert!(matches!(ui.screen_to_render(&state), nv_view_t::NV_VIEW_OVERVIEW));
    assert_eq!(ui, at(nv_screen_t::NV_SCREEN_OVERVIEW, 1));
}

#[test]
fn render_overview_and_about() {
    let state = vault(1);
    let mut ui = at(nv_screen_t::NV_SCREEN_OVERVIEW, 0);
    assert!(matches!(ui.screen_to_render(&state), nv_view_t::NV_VIEW_OVERVIEW));
    let mut ui = at(nv_screen_t::NV_SCREEN_ABOUT, 0);
    assert!(matches!(ui.screen_to_render(&state), nv_view_t::NV_VIEW_ABOUT));
}

#[test]
fn browsing_always_finds_an_entry() {
    let state = vault(4);
    let mut ui = nv_ui_t::new();
    let buttons = [
        nv_button_t::NV_BUTTON_RIGHT_RELEASE,
        nv_button_t::NV_BUTTON_RIGHT_RELEASE,
        nv_button_t::NV_BUTTON_BOTH_RELEASE,
        nv_button_t::NV_BUTTON_LEFT_RELEASE,
        nv_button_t::NV_BUTTON_LEFT_RELEASE,
        nv_button_t::NV_BUTTON_LEFT_RELEASE,
        nv_button_t::NV_BUTTON_LEFT_RELEASE,
        nv_button_t::NV_BUTTON_BOTH_RELEASE,
        nv_button_t::NV_BUTTON_RIGHT_RELEASE,
    ];
    for button in buttons {
        ui.handle_button(&state, button);
        let before = ui;
        let view = ui.screen_to_render(&state);
        assert_eq!(ui, before);
        match before.current_screen {
            nv_screen_t::NV_SCREEN_CAROUSEL => {
                assert!(matches!(view, nv_view_t::NV_VIEW_CAROUSEL { .. }))
            }
            nv_screen_t::NV_SCREEN_DETAIL => {
                assert!(matches!(view, nv_view_t::NV_VIEW_DETAIL { .. }))
            }
            _ => {}
        }
    }
}
