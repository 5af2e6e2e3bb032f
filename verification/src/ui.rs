use vstd::prelude::*;
use vstd::string::StringSliceAdditionalSpecFns;

use crate::state::{MAX_ENTRIES, lemma_nth_active_exists, nth_active, nv_entry_t, nv_state_t};
use crate::utils::{
    amount_text,
    decimal_digits,
    is_ascii_bytes,
    lemma_amount_text_roundtrip,
    lemma_ascii_valid_utf8,
    lemma_decimal_roundtrip,
    lemma_reversed_digits,
    lemma_u64_digits_len,
    nv_format_amount_cents,
    parse_amount_text,
    reversed_digits,
    utf8_str,
    ASCII_ZERO,
};

verus! {

/// The screens of the device's interface.
#[derive(Copy, Clone, PartialEq, Eq, Structural, Debug)]
#[allow(non_camel_case_types)]
pub enum nv_screen_t {
    NV_SCREEN_OVERVIEW,
    NV_SCREEN_CAROUSEL,
    NV_SCREEN_DETAIL,
    NV_SCREEN_ABOUT,
}

/// Where the interface stands: the screen shown and, on the carousel and
/// detail screens, the position of the entry shown among the active ones.
#[derive(Copy, Clone, PartialEq, Eq, Structural, Debug)]
#[allow(non_camel_case_types)]
pub struct nv_ui_t {
    pub current_screen: nv_screen_t,
    pub current_idx: usize,
}

/// A button event of the device.
#[derive(Copy, Clone, PartialEq, Eq, Structural, Debug)]
#[allow(non_camel_case_types)]
pub enum nv_button_t {
    NV_BUTTON_LEFT_PRESS,
    NV_BUTTON_RIGHT_PRESS,
    NV_BUTTON_LEFT_RELEASE,
    NV_BUTTON_RIGHT_RELEASE,
    NV_BUTTON_BOTH_PRESS,
    NV_BUTTON_BOTH_RELEASE,
}

/// What the display has to do after a button event.
#[derive(Copy, Clone, PartialEq, Eq, Structural, Debug)]
#[allow(non_camel_case_types)]
pub enum nv_ui_effect_t {
    /// Nothing; keep waiting for buttons.
    NV_EFFECT_NONE,
    /// Show the small left arrow; keep waiting.
    NV_EFFECT_SHOW_LEFT_ARROW,
    /// Show the small right arrow; keep waiting.
    NV_EFFECT_SHOW_RIGHT_ARROW,
    /// Erase the small left arrow and draw the current screen.
    NV_EFFECT_ERASE_LEFT_ARROW_AND_REDRAW,
    /// Erase the small right arrow and draw the current screen.
    NV_EFFECT_ERASE_RIGHT_ARROW_AND_REDRAW,
    /// Draw the current screen.
    NV_EFFECT_REDRAW,
}

/// What to draw: the screen and the data it shows.
#[derive(Copy, Clone, Debug)]
#[allow(non_camel_case_types)]
pub enum nv_view_t {
    NV_VIEW_OVERVIEW,
    NV_VIEW_CAROUSEL { entry: nv_entry_t, index: usize, count: usize },
    NV_VIEW_DETAIL { entry: nv_entry_t },
    NV_VIEW_ABOUT,
}

/// The interface after the right button: overview leads to the first entry
/// (or to the about screen when there is none), the carousel steps to the
/// next entry and past the last one to the about screen, the detail screen
/// returns to the carousel, the about screen to the overview.
pub open spec fn ui_next(ui: nv_ui_t, count: nat) -> nv_ui_t {
    match ui.current_screen {
        nv_screen_t::NV_SCREEN_OVERVIEW => if count > 0 {
            nv_ui_t { current_screen: nv_screen_t::NV_SCREEN_CAROUSEL, current_idx: 0 }
        } else {
            nv_ui_t { current_screen: nv_screen_t::NV_SCREEN_ABOUT, ..ui }
        },
        nv_screen_t::NV_SCREEN_CAROUSEL => if ui.current_idx + 1 < count {
            nv_ui_t { current_idx: (ui.current_idx + 1) as usize, ..ui }
        } else {
            nv_ui_t { current_screen: nv_screen_t::NV_SCREEN_ABOUT, ..ui }
        },
        nv_screen_t::NV_SCREEN_DETAIL => nv_ui_t {
            current_screen: nv_screen_t::NV_SCREEN_CAROUSEL,
            ..ui
        },
        nv_screen_t::NV_SCREEN_ABOUT => nv_ui_t {
            current_screen: nv_screen_t::NV_SCREEN_OVERVIEW,
            ..ui
        },
    }
}

/// The interface after the left button: overview leads to the about screen,
/// the carousel steps back and before the first entry to the overview, the
/// detail screen returns to the carousel, the about screen leads to the last
/// entry (or to the overview when there is none).
pub open spec fn ui_prev(ui: nv_ui_t, count: nat) -> nv_ui_t {
    match ui.current_screen {
        nv_screen_t::NV_SCREEN_OVERVIEW => nv_ui_t {
            current_screen: nv_screen_t::NV_SCREEN_ABOUT,
            ..ui
        },
        nv_screen_t::NV_SCREEN_CAROUSEL => if ui.current_idx > 0 {
            nv_ui_t { current_idx: (ui.current_idx - 1) as usize, ..ui }
        } else {
            nv_ui_t { current_screen: nv_screen_t::NV_SCREEN_OVERVIEW, ..ui }
        },
        nv_screen_t::NV_SCREEN_DETAIL => nv_ui_t {
            current_screen: nv_screen_t::NV_SCREEN_CAROUSEL,
            ..ui
        },
        nv_screen_t::NV_SCREEN_ABOUT => if count > 0 {
            nv_ui_t {
                current_screen: nv_screen_t::NV_SCREEN_CAROUSEL,
                current_idx: (count - 1) as usize,
            }
        } else {
            nv_ui_t { current_screen: nv_screen_t::NV_SCREEN_OVERVIEW, ..ui }
        },
    }
}

/// The interface after both buttons: the carousel opens the entry's details
/// and the details close back to the carousel; other screens stay.
pub open spec fn ui_select(ui: nv_ui_t) -> nv_ui_t {
    match ui.current_screen {
        nv_screen_t::NV_SCREEN_CAROUSEL => nv_ui_t {
            current_screen: nv_screen_t::NV_SCREEN_DETAIL,
            ..ui
        },
        nv_screen_t::NV_SCREEN_DETAIL => nv_ui_t {
            current_screen: nv_screen_t::NV_SCREEN_CAROUSEL,
            ..ui
        },
        _ => ui,
    }
}

/// The right button can be handled: on the carousel the index can be
/// stepped without overflow.
pub open spec fn can_step_next(ui: nv_ui_t) -> bool {
    ui.current_screen == nv_screen_t::NV_SCREEN_CAROUSEL ==> ui.current_idx < usize::MAX
}

/// The interface after a button event.
pub open spec fn ui_after_button(ui: nv_ui_t, count: nat, button: nv_button_t) -> nv_ui_t {
    match button {
        nv_button_t::NV_BUTTON_LEFT_RELEASE => ui_prev(ui, count),
        nv_button_t::NV_BUTTON_RIGHT_RELEASE => ui_next(ui, count),
        nv_button_t::NV_BUTTON_BOTH_RELEASE => ui_select(ui),
        _ => ui,
    }
}

/// What the display does after a button event.
pub open spec fn button_effect(button: nv_button_t) -> nv_ui_effect_t {
    match button {
        nv_button_t::NV_BUTTON_LEFT_PRESS => nv_ui_effect_t::NV_EFFECT_SHOW_LEFT_ARROW,
        nv_button_t::NV_BUTTON_RIGHT_PRESS => nv_ui_effect_t::NV_EFFECT_SHOW_RIGHT_ARROW,
        nv_button_t::NV_BUTTON_LEFT_RELEASE => nv_ui_effect_t::NV_EFFECT_ERASE_LEFT_ARROW_AND_REDRAW,
        nv_button_t::NV_BUTTON_RIGHT_RELEASE => nv_ui_effect_t::NV_EFFECT_ERASE_RIGHT_ARROW_AND_REDRAW,
        nv_button_t::NV_BUTTON_BOTH_PRESS => nv_ui_effect_t::NV_EFFECT_NONE,
        nv_button_t::NV_BUTTON_BOTH_RELEASE => nv_ui_effect_t::NV_EFFECT_REDRAW,
    }
}

/// On the carousel and detail screens the index points at one of the
/// `count` entries.
pub open spec fn ui_wf(ui: nv_ui_t, count: nat) -> bool {
    (ui.current_screen == nv_screen_t::NV_SCREEN_CAROUSEL || ui.current_screen
        == nv_screen_t::NV_SCREEN_DETAIL) ==> ui.current_idx < count
}

impl nv_ui_t {
    /// The overview screen.
    pub fn new() -> (ui: Self)
        ensures
            ui.current_screen == nv_screen_t::NV_SCREEN_OVERVIEW,
            ui.current_idx == 0,
    {
        Self { current_screen: nv_screen_t::NV_SCREEN_OVERVIEW, current_idx: 0 }
    }

    /// Moves as the right button asks (see `ui_next`).
    pub fn next(&mut self, state: &nv_state_t)
        requires
            can_step_next(*old(self)),
        ensures
            *final(self) == ui_next(*old(self), state.entry_count as nat),
    {
        match self.current_screen {
            nv_screen_t::NV_SCREEN_OVERVIEW => {
                if state.entry_count > 0 {
                    self.current_screen = nv_screen_t::NV_SCREEN_CAROUSEL;
                    self.current_idx = 0;
                } else {
                    self.current_screen = nv_screen_t::NV_SCREEN_ABOUT;
                }
            },
            nv_screen_t::NV_SCREEN_CAROUSEL => {
                if self.current_idx + 1 < state.entry_count as usize {
                    self.current_idx += 1;
                } else {
                    self.current_screen = nv_screen_t::NV_SCREEN_ABOUT;
                }
            },
            nv_screen_t::NV_SCREEN_DETAIL => {
                self.current_screen = nv_screen_t::NV_SCREEN_CAROUSEL;
            },
            nv_screen_t::NV_SCREEN_ABOUT => {
                self.current_screen = nv_screen_t::NV_SCREEN_OVERVIEW;
            },
        }
    }

    /// Moves as the left button asks (see `ui_prev`).
    pub fn prev(&mut self, state: &nv_state_t)
        ensures
            *final(self) == ui_prev(*old(self), state.entry_count as nat),
    {
        match self.current_screen {
            nv_screen_t::NV_SCREEN_OVERVIEW => {
                self.current_screen = nv_screen_t::NV_SCREEN_ABOUT;
            },
            nv_screen_t::NV_SCREEN_CAROUSEL => {
                if self.current_idx > 0 {
                    self.current_idx -= 1;
                } else {
                    self.current_screen = nv_screen_t::NV_SCREEN_OVERVIEW;
                }
            },
            nv_screen_t::NV_SCREEN_DETAIL => {
                self.current_screen = nv_screen_t::NV_SCREEN_CAROUSEL;
            },
            nv_screen_t::NV_SCREEN_ABOUT => {
                if state.entry_count > 0 {
                    self.current_screen = nv_screen_t::NV_SCREEN_CAROUSEL;
                    self.current_idx = state.entry_count as usize - 1;
                } else {
                    self.current_screen = nv_screen_t::NV_SCREEN_OVERVIEW;
                }
            },
        }
    }

    /// Opens or closes an entry's details (see `ui_select`).
    pub fn select(&mut self)
        ensures
            *final(self) == ui_select(*old(self)),
    {
        match self.current_screen {
            nv_screen_t::NV_SCREEN_CAROUSEL => {
                self.current_screen = nv_screen_t::NV_SCREEN_DETAIL;
            },
            nv_screen_t::NV_SCREEN_DETAIL => {
                self.current_screen = nv_screen_t::NV_SCREEN_CAROUSEL;
            },
            _ => {},
        }
    }

    /// Handles one button event: presses show an arrow, releases move through
    /// the screens and ask for a redraw.
    pub fn handle_button(&mut self, state: &nv_state_t, button: nv_button_t) -> (effect:
        nv_ui_effect_t)
        requires
            button == nv_button_t::NV_BUTTON_RIGHT_RELEASE ==> can_step_next(*old(self)),
        ensures
            effect == button_effect(button),
            *final(self) == ui_after_button(*old(self), state.entry_count as nat, button),
            button == nv_button_t::NV_BUTTON_LEFT_RELEASE ==> *final(self) == ui_prev(
                *old(self),
                state.entry_count as nat,
            ),
            button == nv_button_t::NV_BUTTON_RIGHT_RELEASE ==> *final(self) == ui_next(
                *old(self),
                state.entry_count as nat,
            ),
            button == nv_button_t::NV_BUTTON_BOTH_RELEASE ==> *final(self) == ui_select(*old(self)),
            (button == nv_button_t::NV_BUTTON_LEFT_PRESS || button
                == nv_button_t::NV_BUTTON_RIGHT_PRESS || button
                == nv_button_t::NV_BUTTON_BOTH_PRESS) ==> *final(self) == *old(self),
            button == nv_button_t::NV_BUTTON_LEFT_RELEASE && old(self).current_screen
                == nv_screen_t::NV_SCREEN_CAROUSEL && old(self).current_idx > 0 ==> *final(self)
                == (nv_ui_t {
                current_screen: nv_screen_t::NV_SCREEN_CAROUSEL,
                current_idx: (old(self).current_idx - 1) as usize,
            }),
            button == nv_button_t::NV_BUTTON_RIGHT_RELEASE && old(self).current_screen
                == nv_screen_t::NV_SCREEN_CAROUSEL && old(self).current_idx + 1
                < state.entry_count ==> *final(self) == (nv_ui_t {
                current_screen: nv_screen_t::NV_SCREEN_CAROUSEL,
                current_idx: (old(self).current_idx + 1) as usize,
            }),
            button == nv_button_t::NV_BUTTON_BOTH_RELEASE && old(self).current_screen
                == nv_screen_t::NV_SCREEN_CAROUSEL ==> *final(self) == (nv_ui_t {
                current_screen: nv_screen_t::NV_SCREEN_DETAIL,
                current_idx: old(self).current_idx,
            }),
    {
        match button {
            nv_button_t::NV_BUTTON_LEFT_PRESS => nv_ui_effect_t::NV_EFFECT_SHOW_LEFT_ARROW,
            nv_button_t::NV_BUTTON_RIGHT_PRESS => nv_ui_effect_t::NV_EFFECT_SHOW_RIGHT_ARROW,
            nv_button_t::NV_BUTTON_LEFT_RELEASE => {
                self.prev(state);
                nv_ui_effect_t::NV_EFFECT_ERASE_LEFT_ARROW_AND_REDRAW
            },
            nv_button_t::NV_BUTTON_RIGHT_RELEASE => {
                self.next(state);
                nv_ui_effect_t::NV_EFFECT_ERASE_RIGHT_ARROW_AND_REDRAW
            },
            nv_button_t::NV_BUTTON_BOTH_PRESS => nv_ui_effect_t::NV_EFFECT_NONE,
            nv_button_t::NV_BUTTON_BOTH_RELEASE => {
                self.select();
                nv_ui_effect_t::NV_EFFECT_REDRAW
            },
        }
    }

    /// Decides what to draw. On the carousel and detail screens the entry at
    /// the current position is shown; when there is none, the interface falls
    /// back to the overview.
    pub fn screen_to_render(&mut self, state: &nv_state_t) -> (view: nv_view_t)
        ensures
            ({
                let k = nth_active(state.entries@, old(self).current_idx as nat);
                match old(self).current_screen {
                    nv_screen_t::NV_SCREEN_OVERVIEW => view is NV_VIEW_OVERVIEW && *final(self)
                        == *old(self),
                    nv_screen_t::NV_SCREEN_ABOUT => view is NV_VIEW_ABOUT && *final(self) == *old(
                        self,
                    ),
                    nv_screen_t::NV_SCREEN_CAROUSEL => if k < MAX_ENTRIES {
                        &&& view == (nv_view_t::NV_VIEW_CAROUSEL {
                            entry: state.entries@[k],
                            index: old(self).current_idx,
                            count: state.entry_count as usize,
                        })
                        &&& *final(self) == *old(self)
                    } else {
                        &&& view is NV_VIEW_OVERVIEW
                        &&& *final(self) == (nv_ui_t {
                            current_screen: nv_screen_t::NV_SCREEN_OVERVIEW,
                            ..*old(self)
                        })
                    },
                    nv_screen_t::NV_SCREEN_DETAIL => if k < MAX_ENTRIES {
                        &&& view == (nv_view_t::NV_VIEW_DETAIL { entry: state.entries@[k] })
                        &&& *final(self) == *old(self)
                    } else {
                        &&& view is NV_VIEW_OVERVIEW
                        &&& *final(self) == (nv_ui_t {
                            current_screen: nv_screen_t::NV_SCREEN_OVERVIEW,
                            ..*old(self)
                        })
                    },
                }
            }),
    {
        match self.current_screen {
            nv_screen_t::NV_SCREEN_OVERVIEW => nv_view_t::NV_VIEW_OVERVIEW,
            nv_screen_t::NV_SCREEN_CAROUSEL => {
                match state.entry_at(self.current_idx) {
                    Some(entry) => nv_view_t::NV_VIEW_CAROUSEL {
                        entry: *entry,
                        index: self.current_idx,
                        count: state.entry_count as usize,
                    },
                    None => {
                        self.current_screen = nv_screen_t::NV_SCREEN_OVERVIEW;
                        nv_view_t::NV_VIEW_OVERVIEW
                    },
                }
            },
            nv_screen_t::NV_SCREEN_DETAIL => {
                match state.entry_at(self.current_idx) {
                    Some(entry) => nv_view_t::NV_VIEW_DETAIL { entry: *entry },
                    None => {
                        self.current_screen = nv_screen_t::NV_SCREEN_OVERVIEW;
                        nv_view_t::NV_VIEW_OVERVIEW
                    },
                }
            },
            nv_screen_t::NV_SCREEN_ABOUT => nv_view_t::NV_VIEW_ABOUT,
        }
    }
}

/// Each button release moves the interface by its own transition: left by
/// `ui_prev`, right by `ui_next`, both by `ui_select`; presses leave it as it
/// is.
pub proof fn lemma_buttons_dispatch(ui: nv_ui_t, count: nat)
    ensures
        ui_after_button(ui, count, nv_button_t::NV_BUTTON_LEFT_RELEASE) == ui_prev(ui, count),
        ui_after_button(ui, count, nv_button_t::NV_BUTTON_RIGHT_RELEASE) == ui_next(ui, count),
        ui_after_button(ui, count, nv_button_t::NV_BUTTON_BOTH_RELEASE) == ui_select(ui),
        ui_after_button(ui, count, nv_button_t::NV_BUTTON_LEFT_PRESS) == ui,
        ui_after_button(ui, count, nv_button_t::NV_BUTTON_RIGHT_PRESS) == ui,
        ui_after_button(ui, count, nv_button_t::NV_BUTTON_BOTH_PRESS) == ui,
{
}

/// The left step: on the carousel it goes to the previous entry, from the
/// first entry to the overview; the overview goes to the about screen, the
/// about screen to the last entry (or the overview when there is none), the
/// detail screen back to its carousel entry.
pub proof fn lemma_left_step(ui: nv_ui_t, count: u8)
    ensures
        ui.current_screen == nv_screen_t::NV_SCREEN_CAROUSEL && ui.current_idx > 0 ==> ui_prev(
            ui,
            count as nat,
        ) == (nv_ui_t {
            current_screen: nv_screen_t::NV_SCREEN_CAROUSEL,
            current_idx: (ui.current_idx - 1) as usize,
        }),
        ui.current_screen == nv_screen_t::NV_SCREEN_CAROUSEL && ui.current_idx == 0 ==> ui_prev(
            ui,
            count as nat,
        ).current_screen == nv_screen_t::NV_SCREEN_OVERVIEW,
        ui.current_screen == nv_screen_t::NV_SCREEN_OVERVIEW ==> ui_prev(
            ui,
            count as nat,
        ).current_screen == nv_screen_t::NV_SCREEN_ABOUT,
        ui.current_screen == nv_screen_t::NV_SCREEN_ABOUT && count > 0 ==> ui_prev(
            ui,
            count as nat,
        ) == (nv_ui_t {
            current_screen: nv_screen_t::NV_SCREEN_CAROUSEL,
            current_idx: (count - 1) as usize,
        }),
        ui.current_screen == nv_screen_t::NV_SCREEN_ABOUT && count == 0 ==> ui_prev(
            ui,
            count as nat,
        ).current_screen == nv_screen_t::NV_SCREEN_OVERVIEW,
        ui.current_screen == nv_screen_t::NV_SCREEN_DETAIL ==> ui_prev(ui, count as nat) == (
        nv_ui_t { current_screen: nv_screen_t::NV_SCREEN_CAROUSEL, current_idx: ui.current_idx }),
{
}

/// The right step: on the carousel it goes to the next entry, past the last
/// one to the about screen; the overview goes to the first entry (or the
/// about screen when there is none), the about screen to the overview, the
/// detail screen back to its carousel entry.
pub proof fn lemma_right_step(ui: nv_ui_t, count: u8)
    requires
        can_step_next(ui),
    ensures
        ui.current_screen == nv_screen_t::NV_SCREEN_CAROUSEL && ui.current_idx + 1 < count
            ==> ui_next(ui, count as nat) == (nv_ui_t {
            current_screen: nv_screen_t::NV_SCREEN_CAROUSEL,
            current_idx: (ui.current_idx + 1) as usize,
        }),
        ui.current_screen == nv_screen_t::NV_SCREEN_CAROUSEL && ui.current_idx + 1 >= count
            ==> ui_next(ui, count as nat).current_screen == nv_screen_t::NV_SCREEN_ABOUT,
        ui.current_screen == nv_screen_t::NV_SCREEN_OVERVIEW && count > 0 ==> ui_next(
            ui,
            count as nat,
        ) == (nv_ui_t { current_screen: nv_screen_t::NV_SCREEN_CAROUSEL, current_idx: 0 }),
        ui.current_screen == nv_screen_t::NV_SCREEN_OVERVIEW && count == 0 ==> ui_next(
            ui,
            count as nat,
        ).current_screen == nv_screen_t::NV_SCREEN_ABOUT,
        ui.current_screen == nv_screen_t::NV_SCREEN_ABOUT ==> ui_next(
            ui,
            count as nat,
        ).current_screen == nv_screen_t::NV_SCREEN_OVERVIEW,
        ui.current_screen == nv_screen_t::NV_SCREEN_DETAIL ==> ui_next(ui, count as nat) == (
        nv_ui_t { current_screen: nv_screen_t::NV_SCREEN_CAROUSEL, current_idx: ui.current_idx }),
{
}

/// Both buttons open the details of the carousel entry and close them back
/// to the same entry; on the overview and about screens they change nothing.
pub proof fn lemma_select_step(ui: nv_ui_t)
    ensures
        ui.current_screen == nv_screen_t::NV_SCREEN_CAROUSEL ==> ui_select(ui) == (nv_ui_t {
            current_screen: nv_screen_t::NV_SCREEN_DETAIL,
            current_idx: ui.current_idx,
        }),
        ui.current_screen == nv_screen_t::NV_SCREEN_DETAIL ==> ui_select(ui) == (nv_ui_t {
            current_screen: nv_screen_t::NV_SCREEN_CAROUSEL,
            current_idx: ui.current_idx,
        }),
        (ui.current_screen == nv_screen_t::NV_SCREEN_OVERVIEW || ui.current_screen
            == nv_screen_t::NV_SCREEN_ABOUT) ==> ui_select(ui) == ui,
{
}

/// Right after left brings the interface back to the same screen, and on
/// the carousel to the same entry (from any screen but the detail screen,
/// with the carousel index on an entry).
pub proof fn lemma_prev_undoes_next(ui: nv_ui_t, count: u8)
    requires
        ui.current_screen != nv_screen_t::NV_SCREEN_DETAIL,
        ui_wf(ui, count as nat),
    ensures
        can_step_next(ui),
        ui_prev(ui_next(ui, count as nat), count as nat).current_screen == ui.current_screen,
        ui.current_screen == nv_screen_t::NV_SCREEN_CAROUSEL ==> ui_prev(
            ui_next(ui, count as nat),
            count as nat,
        ).current_idx == ui.current_idx,
{
}

/// Left after right brings the interface back to the same screen, and on
/// the carousel to the same entry (from any screen but the detail screen,
/// with the carousel index on an entry).
pub proof fn lemma_next_undoes_prev(ui: nv_ui_t, count: u8)
    requires
        ui.current_screen != nv_screen_t::NV_SCREEN_DETAIL,
        ui_wf(ui, count as nat),
    ensures
        can_step_next(ui_prev(ui, count as nat)),
        ui_next(ui_prev(ui, count as nat), count as nat).current_screen == ui.current_screen,
        ui.current_screen == nv_screen_t::NV_SCREEN_CAROUSEL ==> ui_next(
            ui_prev(ui, count as nat),
            count as nat,
        ).current_idx == ui.current_idx,
{
}

/// Both buttons twice leave the interface as it was.
pub proof fn lemma_select_twice(ui: nv_ui_t)
    ensures
        ui_select(ui_select(ui)) == ui,
{
}

/// Every button event keeps the carousel and detail index on one of the
/// entries, and the right button can always be handled from such a state.
pub proof fn lemma_buttons_keep_ui_wf(ui: nv_ui_t, count: u8, button: nv_button_t)
    requires
        ui_wf(ui, count as nat),
    ensures
        can_step_next(ui),
        ui_wf(ui_after_button(ui, count as nat, button), count as nat),
{
}

/// In a well-formed vault, an interface whose index is on one of the entries
/// always finds the entry it shows: the fall-back to the overview never
/// happens.
pub proof fn lemma_shown_entry_exists(ui: nv_ui_t, state: nv_state_t)
    requires
        state.wf(),
        ui_wf(ui, state.entry_count as nat),
    ensures
        (ui.current_screen == nv_screen_t::NV_SCREEN_CAROUSEL || ui.current_screen
            == nv_screen_t::NV_SCREEN_DETAIL) ==> nth_active(state.entries@, ui.current_idx as nat)
            < MAX_ENTRIES,
{
    lemma_nth_active_exists(state.entries@, ui.current_idx as nat, 0);
}

/// The suffix after the count of entries.
pub open spec fn entry_count_suffix(count: nat) -> Seq<u8> {
    if count == 1 {
        seq![32u8, 69u8, 78u8, 84u8, 82u8, 89u8]
    } else {
        seq![32u8, 69u8, 78u8, 84u8, 82u8, 73u8, 69u8, 83u8]
    }
}

/// The singular " ENTRY" is used for exactly one entry; every other count,
/// zero included, takes the plural " ENTRIES".
pub proof fn lemma_entry_count_suffix(count: nat)
    ensures
        count == 1 <==> entry_count_suffix(count) == seq![32u8, 69u8, 78u8, 84u8, 82u8, 89u8],
        count != 1 <==> entry_count_suffix(count) == seq![
            32u8,
            69u8,
            78u8,
            84u8,
            82u8,
            73u8,
            69u8,
            83u8,
        ],
{
    let one = seq![32u8, 69u8, 78u8, 84u8, 82u8, 89u8];
    let many = seq![32u8, 69u8, 78u8, 84u8, 82u8, 73u8, 69u8, 83u8];
    assert(one.len() != many.len());
}

proof fn lemma_digits_ascii(n: nat)
    ensures
        is_ascii_bytes(decimal_digits(n)),
        decimal_digits(n).len() >= 1,
{
    lemma_decimal_roundtrip(n);
    assert forall|i: int| 0 <= i < decimal_digits(n).len() implies #[trigger] decimal_digits(
        n,
    )[i] < 128 by {
        assert(48 <= decimal_digits(n)[i] <= 57);
    }
}

/// Writes the decimal digits of `value` at the start of `buffer` and returns
/// how many were written; the rest of `buffer` is left as it was.
pub fn format_unsigned(value: usize, buffer: &mut [u8]) -> (length: usize)
    requires
        decimal_digits(value as nat).len() <= old(buffer)@.len(),
    ensures
        length == decimal_digits(value as nat).len(),
        final(buffer)@ == decimal_digits(value as nat) + old(buffer)@.subrange(
            length as int,
            old(buffer)@.len() as int,
        ),
{
    proof {
        lemma_u64_digits_len(value as u64);
    }
    let mut digits = [0u8; 20];
    let mut length: usize = 0;
    if value == 0 {
        buffer[0] = ASCII_ZERO;
        assert(buffer@ =~= decimal_digits(0) + old(buffer)@.subrange(1, old(buffer)@.len() as int));
        return 1;
    }
    let ghost low = reversed_digits(value as nat);
    let mut rest: usize = value;
    assert(digits@.subrange(0, 0) + low =~= low);
    while rest != 0
        invariant
            low == reversed_digits(value as nat),
            low.len() <= 20,
            length + reversed_digits(rest as nat).len() == low.len(),
            digits@.subrange(0, length as int) + reversed_digits(rest as nat) == low,
        decreases rest,
    {
        let ghost before = digits@;
        let ghost d = crate::utils::digit_byte((rest % 10) as int);
        assert(rest as nat == (rest as nat / 10) * 10 + rest as nat % 10) by (nonlinear_arith);
        assert(reversed_digits(rest as nat) == seq![d] + reversed_digits((rest / 10) as nat));
        digits[length] = ASCII_ZERO + (rest % 10) as u8;
        assert(digits@.subrange(0, length + 1) =~= before.subrange(0, length as int).push(d));
        assert(digits@.subrange(0, length + 1) + reversed_digits((rest / 10) as nat)
            =~= before.subrange(0, length as int) + (seq![d] + reversed_digits(
            (rest / 10) as nat,
        )));
        length += 1;
        rest = rest / 10;
    }
    assert(digits@.subrange(0, length as int) =~= low);
    proof {
        lemma_reversed_digits(value as nat);
    }
    let ghost init = buffer@;
    let ghost wanted = decimal_digits(value as nat);
    let mut index: usize = 0;
    while index < length
        invariant
            index <= length,
            length == low.len(),
            length <= 20,
            wanted == low.reverse(),
            length <= init.len(),
            buffer@.len() == init.len(),
            forall|j: int| 0 <= j < length ==> digits@[j] == low[j],
            forall|j: int| 0 <= j < index ==> buffer@[j] == wanted[j],
            forall|j: int| index <= j < init.len() ==> buffer@[j] == init[j],
        decreases length - index,
    {
        buffer[index] = digits[length - index - 1];
        index += 1;
    }
    assert(buffer@ =~= wanted + init.subrange(length as int, init.len() as int));
    length
}

/// The text of an amount, written into `buffer`.
pub fn format_amount(amount_cents: i64, buffer: &mut [u8; 32]) -> (text: &str)
    ensures
        text.spec_bytes() == amount_text(amount_cents as int),
        (text.spec_bytes()[0] == 45u8) <==> amount_cents < 0,
        parse_amount_text(text.spec_bytes()) == amount_cents,
        final(buffer)@ == amount_text(amount_cents as int) + old(buffer)@.subrange(
            amount_text(amount_cents as int).len() as int,
            32,
        ),
{
    let ghost a = amount_cents as int;
    let ghost m: nat = if a < 0 {
        (-a) as nat
    } else {
        a as nat
    };
    proof {
        assert(m / 100 <= u64::MAX);
        lemma_u64_digits_len((m / 100) as u64);
        lemma_digits_ascii(m / 100);
        assert(amount_text(a).len() <= 32);
    }
    let length = nv_format_amount_cents(amount_cents, buffer);
    proof {
        let t = amount_text(a);
        assert(buffer@.subrange(0, length as int) =~= t);
        assert forall|i: int| 0 <= i < t.len() implies #[trigger] t[i] < 128 by {
            let p: int = if a < 0 {
                2
            } else {
                1
            };
            if p <= i < p + decimal_digits(m / 100).len() {
                assert(t[i] == decimal_digits(m / 100)[i - p]);
            }
        }
        lemma_ascii_valid_utf8(t);
        lemma_amount_text_roundtrip(a);
    }
    utf8_str(&buffer[0..length]).unwrap_or("?")
}

/// The text `index/count`, written into `buffer`.
pub fn format_position(index: usize, count: usize, buffer: &mut [u8; 8]) -> (text: &str)
    requires
        decimal_digits(index as nat).len() + 1 + decimal_digits(count as nat).len() <= 8,
    ensures
        text.spec_bytes() == decimal_digits(index as nat) + seq![47u8] + decimal_digits(
            count as nat,
        ),
        final(buffer)@ == text.spec_bytes() + old(buffer)@.subrange(
            text.spec_bytes().len() as int,
            8,
        ),
{
    let ghost d1 = decimal_digits(index as nat);
    let ghost d2 = decimal_digits(count as nat);
    let mut pos: usize = 0;
    {
        let whole: &mut [u8] = buffer;
        let (_, rest) = whole.split_at_mut(pos);
        pos += format_unsigned(index, rest);
    }
    assert(buffer@.subrange(0, pos as int) =~= d1);
    buffer[pos] = 47;
    pos += 1;
    assert(buffer@.subrange(0, pos as int) =~= d1 + seq![47u8]);
    let ghost mid = buffer@;
    {
        let whole: &mut [u8] = buffer;
        let (_, rest) = whole.split_at_mut(pos);
        pos += format_unsigned(count, rest);
    }
    proof {
        let t = d1 + seq![47u8] + d2;
        assert(buffer@.subrange(0, pos as int) =~= t);
        lemma_digits_ascii(index as nat);
        lemma_digits_ascii(count as nat);
        assert forall|i: int| 0 <= i < t.len() implies #[trigger] t[i] < 128 by {
            if i < d1.len() {
                assert(t[i] == d1[i]);
            } else if i > d1.len() {
                assert(t[i] == d2[i - d1.len() - 1]);
            }
        }
        lemma_ascii_valid_utf8(t);
    }
    utf8_str(&buffer[0..pos]).unwrap_or("?")
}

/// The text `N ENTRY` or `N ENTRIES` for `count` entries, written into
/// `buffer`.
pub fn format_entry_count(count: usize, buffer: &mut [u8; 16]) -> (text: &str)
    requires
        decimal_digits(count as nat).len() + entry_count_suffix(count as nat).len() <= 16,
    ensures
        text.spec_bytes() == decimal_digits(count as nat) + entry_count_suffix(count as nat),
        count == 1 ==> text.spec_bytes() == decimal_digits(count as nat) + seq![
            32u8,
            69u8,
            78u8,
            84u8,
            82u8,
            89u8,
        ],
        count != 1 ==> text.spec_bytes() == decimal_digits(count as nat) + seq![
            32u8,
            69u8,
            78u8,
            84u8,
            82u8,
            73u8,
            69u8,
            83u8,
        ],
        final(buffer)@ == text.spec_bytes() + old(buffer)@.subrange(
            text.spec_bytes().len() as int,
            16,
        ),
{
    let length = format_unsigned(count, buffer);
    let singular: [u8; 6] = [32, 69, 78, 84, 82, 89];
    let plural: [u8; 8] = [32, 69, 78, 84, 82, 73, 69, 83];
    let suffix: &[u8] = if count == 1 {
        &singular
    } else {
        &plural
    };
    let ghost wanted_suffix = entry_count_suffix(count as nat);
    assert(suffix@ =~= wanted_suffix);
    let ghost init = buffer@;
    let mut k: usize = 0;
    while k < suffix.len()
        invariant
            k <= suffix@.len(),
            suffix@ == wanted_suffix,
            length + suffix@.len() <= 16,
            buffer@.len() == 16,
            init.len() == 16,
            forall|j: int| 0 <= j < length ==> buffer@[j] == init[j],
            forall|j: int| 0 <= j < k ==> buffer@[length + j] == suffix@[j],
            forall|j: int| length + k <= j < 16 ==> buffer@[j] == init[j],
        decreases suffix@.len() - k,
    {
        buffer[length + k] = suffix[k];
        k += 1;
    }
    let total = length + suffix.len();
    proof {
        let d = decimal_digits(count as nat);
        let t = d + wanted_suffix;
        assert(init.subrange(0, length as int) =~= d);
        assert(buffer@.subrange(0, total as int) =~= t);
        assert forall|j: int| total <= j < 16 implies buffer@[j] == old(buffer)@[j] by {
            assert(init[j] == (d + old(buffer)@.subrange(length as int, 16))[j]);
        }
        assert(buffer@ =~= t + old(buffer)@.subrange(total as int, 16));
        lemma_digits_ascii(count as nat);
        assert forall|i: int| 0 <= i < t.len() implies #[trigger] t[i] < 128 by {
            if i < d.len() {
                assert(t[i] == d[i]);
            }
        }
        lemma_ascii_valid_utf8(t);
    }
    utf8_str(&buffer[0..total]).unwrap_or("?")
}

impl Default for nv_ui_t {
    fn default() -> (ui: Self)
        ensures
            ui.current_screen == nv_screen_t::NV_SCREEN_OVERVIEW,
            ui.current_idx == 0,
    {
        Self::new()
    }
}

} // verus!
