//! Interface widgets' state logic: the button state machine and the action
//! a menu hands back to the game-state manager.
//!
//! Input polling and drawing belong to the surrounding application; the
//! button takes the pointer position and pressed flag as plain values.

use vstd::prelude::*;

verus! {

use crate::geom::Vec2i;

/// What a menu asks the game-state manager to do after an update.
#[derive(Clone, Debug, PartialEq, Eq)]
pub enum MenuAction {
    /// Nothing this frame.
    Idle,
    /// Switch to the named game state.
    ChangeState(String),
    /// Quit the application.
    Quit,
}

/// Visual and interactive state of a button.
#[derive(Clone, Copy, Debug, PartialEq, Eq, Structural)]
pub enum ButtonState {
    Normal,
    Hovered,
    Pressed,
    Disabled,
}

/// An axis-aligned screen rectangle: origin and extent in screen units.
#[derive(Clone, Copy, Debug, PartialEq, Eq, Structural)]
pub struct ScreenRect {
    pub x: i64,
    pub y: i64,
    pub w: i64,
    pub h: i64,
}

/// True when the point lies inside the rectangle (closed on the low edges,
/// open on the high ones).
pub open spec fn spec_rect_contains(r: ScreenRect, p: Vec2i) -> bool {
    r.x <= p.x < r.x + r.w && r.y <= p.y < r.y + r.h
}

/// Mathematical content of a [`Button`].
pub ghost struct ButtonView {
    pub text: Seq<char>,
    pub bounds: ScreenRect,
    pub state: ButtonState,
    pub visible: bool,
    pub was_pressed: bool,
}

/// One step of the button state machine for a pointer at `hovered` with the
/// primary button `pressed`: the next state, and whether a full click
/// (press then release over the button) completed.
pub open spec fn spec_button_step(s: ButtonState, hovered: bool, pressed: bool) -> (
    ButtonState,
    bool,
) {
    match s {
        ButtonState::Normal => if hovered && pressed {
            (ButtonState::Pressed, false)
        } else if hovered {
            (ButtonState::Hovered, false)
        } else {
            (ButtonState::Normal, false)
        },
        ButtonState::Pressed => if !pressed {
            if hovered {
                (ButtonState::Hovered, true)
            } else {
                (ButtonState::Normal, false)
            }
        } else {
            (ButtonState::Pressed, false)
        },
        ButtonState::Hovered => if hovered && pressed {
            (ButtonState::Pressed, false)
        } else if !hovered {
            (ButtonState::Normal, false)
        } else {
            (ButtonState::Hovered, false)
        },
        ButtonState::Disabled => (ButtonState::Disabled, false),
    }
}

/// A clickable button.
pub struct Button {
    pub text: String,
    pub bounds: ScreenRect,
    pub state: ButtonState,
    pub visible: bool,
    pub was_pressed: bool,
}

impl View for Button {
    type V = ButtonView;

    open spec fn view(&self) -> ButtonView {
        ButtonView {
            text: self.text@,
            bounds: self.bounds,
            state: self.state,
            visible: self.visible,
            was_pressed: self.was_pressed,
        }
    }
}

impl Button {
    /// A fresh, visible button in the `Normal` state.
    pub fn new(text: &str, bounds: ScreenRect) -> (r: Button)
        ensures
            r@ == (ButtonView {
                text: text@,
                bounds,
                state: ButtonState::Normal,
                visible: true,
                was_pressed: false,
            }),
    {
        Button {
            text: crate::text::str_to_owned(text),
            bounds,
            state: ButtonState::Normal,
            visible: true,
            was_pressed: false,
        }
    }

    /// Replaces the button's label.
    pub fn set_text(&mut self, text: &str)
        ensures
            final(self)@ == (ButtonView { text: text@, ..old(self)@ }),
    {
        self.text = crate::text::str_to_owned(text);
    }

    /// The button's label.
    pub fn text(&self) -> (r: &str)
        ensures
            r@ == self@.text,
    {
        self.text.as_str()
    }

    /// The button's screen rectangle.
    pub fn bounds(&self) -> (r: ScreenRect)
        ensures
            r == self@.bounds,
    {
        self.bounds
    }

    /// True when the point lies within the button's rectangle.
    pub fn contains(&self, point: Vec2i) -> (r: bool)
        ensures
            r == spec_rect_contains(self@.bounds, point),
    {
        self.bounds.x <= point.x && (point.x as i128) < (self.bounds.x as i128) + (
        self.bounds.w as i128) && self.bounds.y <= point.y && (point.y as i128) < (
        self.bounds.y as i128) + (self.bounds.h as i128)
    }

    /// Moves the button.
    pub fn set_position(&mut self, position: Vec2i)
        ensures
            final(self)@ == (ButtonView {
                bounds: ScreenRect {
                    x: position.x,
                    y: position.y,
                    ..old(self)@.bounds
                },
                ..old(self)@
            }),
    {
        self.bounds = ScreenRect { x: position.x, y: position.y, w: self.bounds.w, h: self.bounds.h };
    }

    /// Resizes the button.
    pub fn set_size(&mut self, size: Vec2i)
        ensures
            final(self)@ == (ButtonView {
                bounds: ScreenRect { w: size.x, h: size.y, ..old(self)@.bounds },
                ..old(self)@
            }),
    {
        self.bounds = ScreenRect { x: self.bounds.x, y: self.bounds.y, w: size.x, h: size.y };
    }

    /// Shows or hides the button.
    pub fn set_visible(&mut self, visible: bool)
        ensures
            final(self)@ == (ButtonView { visible, ..old(self)@ }),
    {
        self.visible = visible;
    }

    /// True when the button is visible.
    pub fn is_visible(&self) -> (r: bool)
        ensures
            r == self@.visible,
    {
        self.visible
    }

    /// True when a full click completed since the last reset; a hidden or
    /// disabled button never reports one.
    pub fn was_clicked(&self) -> (r: bool)
        ensures
            r == (self@.visible && self@.state != ButtonState::Disabled && self@.was_pressed),
    {
        if !self.visible || matches!(self.state, ButtonState::Disabled) {
            return false;
        }
        self.was_pressed
    }

    /// Forgets a completed click.
    pub fn reset_click(&mut self)
        ensures
            final(self)@ == (ButtonView { was_pressed: false, ..old(self)@ }),
    {
        if self.was_pressed {
            self.was_pressed = false;
        }
        proof {
            assert(self@ =~= (ButtonView { was_pressed: false, ..old(self)@ }));
        }
    }

    /// Advances the button state machine one frame, given the pointer
    /// position and whether the primary button is held.  Returns whether
    /// the visual state changed.  A hidden or disabled button ignores
    /// input.
    pub fn update(&mut self, mouse_pos: Vec2i, mouse_pressed: bool) -> (changed: bool)
        ensures
            ({
                let hovered = spec_rect_contains(old(self)@.bounds, mouse_pos);
                if !old(self)@.visible || old(self)@.state == ButtonState::Disabled {
                    final(self)@ == old(self)@ && changed == false
                } else {
                    let step = spec_button_step(old(self)@.state, hovered, mouse_pressed);
                    &&& final(self)@.state == step.0
                    &&& final(self)@.was_pressed == (old(self)@.was_pressed || step.1)
                    &&& final(self)@.text == old(self)@.text
                    &&& final(self)@.bounds == old(self)@.bounds
                    &&& final(self)@.visible == old(self)@.visible
                    &&& changed == (old(self)@.state != step.0)
                }
            }),
    {
        if !self.visible || matches!(self.state, ButtonState::Disabled) {
            return false;
        }
        let is_hovered = self.contains(mouse_pos);
        let is_pressed = mouse_pressed;
        let old_state = self.state;
        let mut state_changed = false;
        match self.state {
            ButtonState::Normal => {
                if is_hovered && is_pressed {
                    self.state = ButtonState::Pressed;
                    state_changed = true;
                } else if is_hovered {
                    self.state = ButtonState::Hovered;
                    state_changed = true;
                }
            },
            ButtonState::Pressed => {
                if !is_pressed {
                    if is_hovered {
                        self.was_pressed = true;
                        self.state = ButtonState::Hovered;
                    } else {
                        self.state = ButtonState::Normal;
                    }
                    state_changed = true;
                }
            },
            ButtonState::Hovered => {
                if is_hovered && is_pressed {
                    self.state = ButtonState::Pressed;
                    state_changed = true;
                } else if !is_hovered {
                    self.state = ButtonState::Normal;
                    state_changed = true;
                }
            },
            ButtonState::Disabled => {},
        }
        proof {
            let step = spec_button_step(old(self)@.state, spec_rect_contains(old(self)@.bounds, mouse_pos), mouse_pressed);
            assert(self@.state == step.0);
        }
        state_changed
    }
}

} // verus!
