//! Keyboard handling: which operation a key press performs on the tree.
use vstd::prelude::*;
use crate::node::{NodeKind, KindView, node_view};
use crate::state::{TreeState, EditMode, VisibleNode, vn_views, edit_view};
use crate::text::{byte_len, char_width};

verus! {

/// The keys the editor tells apart.
#[derive(Clone, Copy, Debug, PartialEq, Eq, Structural)]
pub enum KeyCode {
    Up,
    Down,
    Left,
    Right,
    Enter,
    Esc,
    Backspace,
    Delete,
    Home,
    End,
    Char(char),
    /// Any other key.
    Other,
}

/// A key press with the modifiers that matter here.
#[derive(Clone, Copy, Debug, PartialEq, Eq, Structural)]
pub struct KeyPress {
    pub code: KeyCode,
    pub control: bool,
    pub alt: bool,
}

/// What handling a key did.
#[derive(Clone, Copy, Debug, PartialEq, Eq, Structural)]
pub enum EventResult {
    /// The key was used; `value_changed` tells whether a value of the
    /// configuration changed.
    Consumed { value_changed: bool },
    Ignored,
}

/// The operation a key performs outside edit mode.
#[derive(Clone, Copy, Debug, PartialEq, Eq, Structural)]
pub enum KeyAction {
    Ignore,
    SelectPrev,
    SelectNext,
    Expand,
    Collapse,
    ToggleExpand,
    ToggleBool,
    /// Make an absent scalar optional present, then edit it.
    OpenAndEdit,
    Edit,
    ToggleOption,
    SelectRadio,
    ToggleCheckbox,
}

/// Nodes that Enter and Space expand or collapse, whatever the filter.
pub open spec fn is_branch(k: KindView) -> bool {
    k is Struct || k is RadioGroup || k is Checkboxes
}

/// What Enter does on a node of kind `k`; `enabled` tells whether the
/// filter lets the node change.
pub open spec fn enter_action(k: KindView, enabled: bool) -> KeyAction {
    if is_branch(k) {
        KeyAction::ToggleExpand
    } else if !enabled {
        KeyAction::Ignore
    } else {
        match k {
            KindView::Bool => KeyAction::ToggleBool,
            KindView::Option { is_some, inner_kind: Some(_) } => if is_some {
                KeyAction::Edit
            } else {
                KeyAction::OpenAndEdit
            },
            KindView::Option { .. } => KeyAction::ToggleOption,
            KindView::String | KindView::Integer | KindView::Float => KeyAction::Edit,
            KindView::RadioItem { .. } => KeyAction::SelectRadio,
            KindView::CheckboxItem { .. } => KeyAction::ToggleCheckbox,
            _ => KeyAction::Ignore,
        }
    }
}

/// What Space does on a node of kind `k`.
pub open spec fn space_action(k: KindView, enabled: bool) -> KeyAction {
    if is_branch(k) {
        KeyAction::ToggleExpand
    } else if !enabled {
        KeyAction::Ignore
    } else {
        match k {
            KindView::Bool => KeyAction::ToggleBool,
            KindView::Option { .. } => KeyAction::ToggleOption,
            KindView::RadioItem { .. } => KeyAction::SelectRadio,
            KindView::CheckboxItem { .. } => KeyAction::ToggleCheckbox,
            _ => KeyAction::Ignore,
        }
    }
}

/// What Delete and Backspace do: make a present, enabled optional absent.
pub open spec fn clear_action(k: KindView, enabled: bool) -> KeyAction {
    if k matches KindView::Option { is_some: true, .. } && enabled {
        KeyAction::ToggleOption
    } else {
        KeyAction::Ignore
    }
}

/// The operation `key` performs outside edit mode. Keys with Control or
/// Alt held are ignored; `hjkl` move like the arrows.
pub open spec fn normal_action(s: TreeState, key: KeyPress) -> KeyAction {
    let code = key.code;
    let on_selected = |f: spec_fn(KindView, bool) -> KeyAction|
        match s.selected_entry() {
            Some(e) => f(e.0.kind, s.allows(e.1)),
            None => KeyAction::Ignore,
        };
    if key.control || key.alt {
        KeyAction::Ignore
    } else if code == KeyCode::Up || code == KeyCode::Char('k') {
        KeyAction::SelectPrev
    } else if code == KeyCode::Down || code == KeyCode::Char('j') {
        KeyAction::SelectNext
    } else if code == KeyCode::Right || code == KeyCode::Char('l') {
        KeyAction::Expand
    } else if code == KeyCode::Left || code == KeyCode::Char('h') {
        KeyAction::Collapse
    } else if code == KeyCode::Enter {
        on_selected(|k: KindView, en: bool| enter_action(k, en))
    } else if code == KeyCode::Char(' ') {
        on_selected(|k: KindView, en: bool| space_action(k, en))
    } else if code == KeyCode::Delete || code == KeyCode::Backspace {
        on_selected(|k: KindView, en: bool| clear_action(k, en))
    } else {
        KeyAction::Ignore
    }
}

impl TreeState {
    /// Nothing changed between `self` and `new`.
    pub open spec fn unchanged(&self, new: TreeState) -> bool {
        &&& new.nodes@ == self.nodes@
        &&& new.expanded@ == self.expanded@
        &&& new.edit_mode == self.edit_mode
        &&& new.same_frame(self)
    }

    /// What a key press outside edit mode does: the operation that
    /// `normal_action` names, and the result that goes with it.
    pub open spec fn handles_normal_key(&self, new: TreeState, key: KeyPress, r: EventResult) -> bool {
        let unchanged_value = EventResult::Consumed { value_changed: false };
        let changed_value = EventResult::Consumed { value_changed: true };
        match normal_action(*self, key) {
            KeyAction::Ignore => r == EventResult::Ignored && self.unchanged(new),
            KeyAction::SelectPrev => r == unchanged_value && self.selects_prev(new),
            KeyAction::SelectNext => r == unchanged_value && self.selects_next(new),
            KeyAction::Expand => r == unchanged_value && self.expands_selected(new),
            KeyAction::Collapse => r == unchanged_value && self.collapses_selected(new),
            KeyAction::ToggleExpand => r == unchanged_value && self.toggles_expand(new),
            KeyAction::ToggleBool => r == changed_value && self.toggles_bool(new),
            KeyAction::OpenAndEdit => r == changed_value && exists|mid: TreeState|
                #[trigger] self.toggles_option(mid) && mid.wf() && mid.starts_edit(new),
            KeyAction::Edit => r == unchanged_value && self.starts_edit(new),
            KeyAction::ToggleOption => r == changed_value && self.toggles_option(new),
            KeyAction::SelectRadio => r matches EventResult::Consumed { value_changed } && self.selects_radio(
                new,
                value_changed,
            ),
            KeyAction::ToggleCheckbox => r == changed_value && self.toggles_checkbox(new),
        }
    }

    /// What a key press in edit mode does. Enter stores the buffer's
    /// value (`float_reading` as in `confirm_edit`), Esc drops it, the
    /// editing keys change the buffer or move the cursor, and any
    /// character is typed.
    pub open spec fn handles_editing_key(
        &self,
        new: TreeState,
        key: KeyPress,
        float_reading: Option<Seq<char>>,
        r: EventResult,
    ) -> bool {
        let no_change = EventResult::Consumed { value_changed: false };
        match key.code {
            KeyCode::Esc => r == no_change && self.cancels_edit(new),
            KeyCode::Enter => r matches EventResult::Consumed { value_changed } && self.confirms_edit(
                new,
                float_reading,
                value_changed,
            ),
            KeyCode::Backspace => r == no_change && self.backspaces(new),
            KeyCode::Delete => r == no_change && self.deletes(new),
            KeyCode::Left => r == no_change && self.moves_left(new),
            KeyCode::Right => r == no_change && self.moves_right(new),
            KeyCode::Home => r == no_change && self.moves_home(new),
            KeyCode::End => r == no_change && self.moves_end(new),
            KeyCode::Char(c) => r == no_change && self.types_char(new, c),
            _ => r == EventResult::Ignored && self.unchanged(new),
        }
    }

    /// A character typed now fits in a `String`.
    pub open spec fn can_type(&self, key: KeyPress) -> bool {
        match (edit_view(self.edit_mode), key.code) {
            (Some(e), KeyCode::Char(c)) => byte_len(e.0) + char_width(c) <= isize::MAX,
            _ => true,
        }
    }
}

/// The operation `event` performs outside edit mode (see `normal_action`).
pub fn normal_key_action(state: &TreeState, event: &KeyPress) -> (a: KeyAction)
    requires
        state.wf(),
    ensures
        a == normal_action(*state, *event),
{
    if event.control || event.alt {
        return KeyAction::Ignore;
    }
    match event.code {
        KeyCode::Up | KeyCode::Char('k') => KeyAction::SelectPrev,
        KeyCode::Down | KeyCode::Char('j') => KeyAction::SelectNext,
        KeyCode::Right | KeyCode::Char('l') => KeyAction::Expand,
        KeyCode::Left | KeyCode::Char('h') => KeyAction::Collapse,
        KeyCode::Enter | KeyCode::Char(' ') | KeyCode::Delete | KeyCode::Backspace => {
            let visible = state.visible_nodes();
            if state.selected >= visible.len() {
                return KeyAction::Ignore;
            }
            let vn: &VisibleNode = &visible[state.selected];
            proof {
                assert(vn_views(visible@)[state.selected as int] == (node_view(*vn.node), vn.path@));
                assert(state.selected_entry() == Some((node_view(*vn.node), vn.path@)));
            }
            let kind = &vn.node.kind;
            let branch = match kind {
                NodeKind::Struct { .. } | NodeKind::RadioGroup { .. } | NodeKind::Checkboxes { .. } => true,
                _ => false,
            };
            let enabled = state.is_enabled(vn.path.as_str());
            match event.code {
                KeyCode::Enter => {
                    if branch {
                        KeyAction::ToggleExpand
                    } else if !enabled {
                        KeyAction::Ignore
                    } else {
                        match kind {
                            NodeKind::Bool => KeyAction::ToggleBool,
                            NodeKind::Option { is_some, inner_kind: Some(_) } => if *is_some {
                                KeyAction::Edit
                            } else {
                                KeyAction::OpenAndEdit
                            },
                            NodeKind::Option { .. } => KeyAction::ToggleOption,
                            NodeKind::String | NodeKind::Integer | NodeKind::Float => KeyAction::Edit,
                            NodeKind::RadioItem { .. } => KeyAction::SelectRadio,
                            NodeKind::CheckboxItem { .. } => KeyAction::ToggleCheckbox,
                            _ => KeyAction::Ignore,
                        }
                    }
                },
                KeyCode::Char(' ') => {
                    if branch {
                        KeyAction::ToggleExpand
                    } else if !enabled {
                        KeyAction::Ignore
                    } else {
                        match kind {
                            NodeKind::Bool => KeyAction::ToggleBool,
                            NodeKind::Option { .. } => KeyAction::ToggleOption,
                            NodeKind::RadioItem { .. } => KeyAction::SelectRadio,
                            NodeKind::CheckboxItem { .. } => KeyAction::ToggleCheckbox,
                            _ => KeyAction::Ignore,
                        }
                    }
                },
                _ => {
                    let is_some_option = match kind {
                        NodeKind::Option { is_some: true, .. } => true,
                        _ => false,
                    };
                    if is_some_option && enabled {
                        KeyAction::ToggleOption
                    } else {
                        KeyAction::Ignore
                    }
                },
            }
        },
        _ => KeyAction::Ignore,
    }
}

/// Handles a key press outside edit mode.
pub fn handle_normal_key(state: &mut TreeState, event: KeyPress) -> (r: EventResult)
    requires
        old(state).wf(),
    ensures
        final(state).wf(),
        old(state).handles_normal_key(*final(state), event, r),
{
    let unchanged_value = EventResult::Consumed { value_changed: false };
    let changed_value = EventResult::Consumed { value_changed: true };
    match normal_key_action(state, &event) {
        KeyAction::Ignore => EventResult::Ignored,
        KeyAction::SelectPrev => {
            state.select_prev();
            unchanged_value
        },
        KeyAction::SelectNext => {
            state.select_next();
            unchanged_value
        },
        KeyAction::Expand => {
            state.expand_selected();
            unchanged_value
        },
        KeyAction::Collapse => {
            state.collapse_selected();
            unchanged_value
        },
        KeyAction::ToggleExpand => {
            state.toggle_expand();
            unchanged_value
        },
        KeyAction::ToggleBool => {
            state.toggle_bool();
            changed_value
        },
        KeyAction::OpenAndEdit => {
            let ghost before = *state;
            state.toggle_option();
            let ghost mid = *state;
            state.start_edit();
            proof {
                assert(before.toggles_option(mid) && mid.wf() && mid.starts_edit(*state));
            }
            changed_value
        },
        KeyAction::Edit => {
            state.start_edit();
            unchanged_value
        },
        KeyAction::ToggleOption => {
            state.toggle_option();
            changed_value
        },
        KeyAction::SelectRadio => {
            let changed = state.select_radio();
            EventResult::Consumed { value_changed: changed }
        },
        KeyAction::ToggleCheckbox => {
            state.toggle_checkbox();
            changed_value
        },
    }
}

/// Handles a key press in edit mode.
pub fn handle_editing_key(state: &mut TreeState, event: KeyPress, float_reading: Option<String>) -> (r: EventResult)
    requires
        old(state).wf(),
        old(state).can_type(event),
    ensures
        final(state).wf(),
        old(state).handles_editing_key(*final(state), event, crate::node::opt_str_view(float_reading), r),
{
    let no_change = EventResult::Consumed { value_changed: false };
    match event.code {
        KeyCode::Esc => {
            state.cancel_edit();
            no_change
        },
        KeyCode::Enter => {
            let changed = state.confirm_edit(float_reading);
            EventResult::Consumed { value_changed: changed }
        },
        KeyCode::Backspace => {
            state.edit_backspace();
            no_change
        },
        KeyCode::Delete => {
            state.edit_delete();
            no_change
        },
        KeyCode::Left => {
            state.edit_cursor_left();
            no_change
        },
        KeyCode::Right => {
            state.edit_cursor_right();
            no_change
        },
        KeyCode::Home => {
            state.edit_cursor_home();
            no_change
        },
        KeyCode::End => {
            state.edit_cursor_end();
            no_change
        },
        KeyCode::Char(c) => {
            state.edit_insert_char(c);
            no_change
        },
        _ => EventResult::Ignored,
    }
}

/// Handles a key press: in edit mode as an editing key, else as a
/// navigation or toggle key. `float_reading` is the display text of the
/// finite `f64` that the edit buffer reads as, if it reads as one.
pub fn handle_key_event(state: &mut TreeState, event: KeyPress, float_reading: Option<String>) -> (r: EventResult)
    requires
        old(state).wf(),
        old(state).can_type(event),
    ensures
        final(state).wf(),
        match old(state).edit_mode {
            EditMode::Editing { .. } => old(state).handles_editing_key(
                *final(state),
                event,
                crate::node::opt_str_view(float_reading),
                r,
            ),
            EditMode::Normal => old(state).handles_normal_key(*final(state), event, r),
        },
{
    match &state.edit_mode {
        EditMode::Editing { .. } => handle_editing_key(state, event, float_reading),
        EditMode::Normal => handle_normal_key(state, event),
    }
}

} // verus!
