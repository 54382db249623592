use vstd::prelude::*;

verus! {

/// Screen direction of a key action.
#[derive(Debug, PartialEq, Eq, Copy, Clone, Structural)]
pub enum Direction {
    Left,
    Right,
    Up,
    Down,
}

impl Direction {
    pub open spec fn inverted(self) -> Direction {
        match self {
            Direction::Left => Direction::Right,
            Direction::Right => Direction::Left,
            Direction::Up => Direction::Down,
            Direction::Down => Direction::Up,
        }
    }

    /// The opposite direction.
    pub fn invert(&self) -> (r: Direction)
        ensures
            r == self.inverted(),
    {
        match self {
            Direction::Left => Direction::Right,
            Direction::Right => Direction::Left,
            Direction::Up => Direction::Down,
            Direction::Down => Direction::Up,
        }
    }
}

/// Key-binding mode: resize bindings act only in `Resize` mode.
#[derive(Debug, Copy, Clone, PartialEq, Eq, Structural)]
pub enum Mode {
    Normal,
    Resize,
}

impl Default for Mode {
    fn default() -> (r: Mode)
        ensures
            r == Mode::Normal,
    {
        Mode::Normal
    }
}

/// Whether a resize makes the focused window smaller or larger.
#[derive(Debug, Copy, Clone, PartialEq, Eq, Structural)]
pub enum ResizeType {
    Shrink,
    Grow,
}

/// The axis a resize acts on.
#[derive(Debug, Copy, Clone, PartialEq, Eq, Structural)]
pub enum ResizeDirection {
    Height,
    Width,
}

/// A modifier key of a binding.
#[derive(Debug, Copy, Clone, PartialEq, Eq, Hash, Structural)]
pub enum Modifier {
    Ctrl,
    Alt,
    Shift,
    Logo,
    CapsLock,
    NumLock,
}

/// An environment variable handed to a spawned command.
#[derive(Debug, Clone, PartialEq, Eq, Hash)]
pub struct EnvVar {
    key: String,
    value: String,
}

/// An action as the configuration names it.
#[derive(Debug, Clone, PartialEq, Eq)]
pub enum Action {
    MoveWindowLeft,
    MoveWindowRight,
    MoveWindowDown,
    MoveWindowUp,
    MoveContainerLeft,
    MoveContainerRight,
    MoveContainerDown,
    MoveContainerUp,
    MoveFocusLeft,
    ToggleFullScreenWindow,
    ToggleFullScreenContainer,
    MoveFocusRight,
    MoveFocusDown,
    MoveFocusUp,
    MoveToWorkspace(u8),
    LayoutVertical,
    LayoutHorizontal,
    ToggleSwitchLayout,
    ToggleFloating,
    ToggleResize,
    Resize(ResizeDirection, ResizeType, u32),
    Run { env: Vec<(String, String)>, command: String },
    CloseWindow,
    Quit,
}

/// An action as the compositor performs it.
#[derive(Debug, PartialEq, Eq)]
pub enum KeyAction {
    ScaleUp,
    ScaleDown,
    RotateOutput,
    Screen(usize),
    ToggleTint,
    TogglePreview,
    ToggleFullScreenWindow,
    ToggleFullScreenContainer,
    MoveWindow(Direction),
    MoveContainer(Direction),
    MoveFocus(Direction),
    Run(String, Vec<(String, String)>),
    MoveToWorkspace(u8),
    ToggleSwitchLayout,
    LayoutVertical,
    LayoutHorizontal,
    ToggleFloating,
    VtSwitch(i32),
    CloseWindow,
    Quit,
    NoOp,
    ToggleResize,
    Resize(ResizeType, ResizeDirection, u32),
}

/// What a configured action becomes: directional actions carry their
/// direction, a run carries its command and environment, a resize its type,
/// axis and amount.
pub open spec fn key_action_of(a: Action) -> KeyAction {
    match a {
        Action::MoveWindowLeft => KeyAction::MoveWindow(Direction::Left),
        Action::MoveWindowRight => KeyAction::MoveWindow(Direction::Right),
        Action::MoveWindowDown => KeyAction::MoveWindow(Direction::Down),
        Action::MoveWindowUp => KeyAction::MoveWindow(Direction::Up),
        Action::MoveContainerLeft => KeyAction::MoveContainer(Direction::Left),
        Action::MoveContainerRight => KeyAction::MoveContainer(Direction::Right),
        Action::MoveContainerDown => KeyAction::MoveContainer(Direction::Down),
        Action::MoveContainerUp => KeyAction::MoveContainer(Direction::Up),
        Action::MoveFocusLeft => KeyAction::MoveFocus(Direction::Left),
        Action::MoveFocusRight => KeyAction::MoveFocus(Direction::Right),
        Action::MoveFocusDown => KeyAction::MoveFocus(Direction::Down),
        Action::MoveFocusUp => KeyAction::MoveFocus(Direction::Up),
        Action::MoveToWorkspace(num) => KeyAction::MoveToWorkspace(num),
        Action::LayoutVertical => KeyAction::LayoutVertical,
        Action::LayoutHorizontal => KeyAction::LayoutHorizontal,
        Action::ToggleFloating => KeyAction::ToggleFloating,
        Action::Run { command, env } => KeyAction::Run(command, env),
        Action::CloseWindow => KeyAction::CloseWindow,
        Action::Quit => KeyAction::Quit,
        Action::ToggleFullScreenWindow => KeyAction::ToggleFullScreenWindow,
        Action::ToggleFullScreenContainer => KeyAction::ToggleFullScreenContainer,
        Action::ToggleResize => KeyAction::ToggleResize,
        Action::Resize(direction, kind, amount) => KeyAction::Resize(kind, direction, amount),
        Action::ToggleSwitchLayout => KeyAction::ToggleSwitchLayout,
    }
}

impl From<Action> for KeyAction {
    fn from(val: Action) -> (r: KeyAction)
        ensures
            r == key_action_of(val),
    {
        match val {
            Action::MoveWindowLeft => KeyAction::MoveWindow(Direction::Left),
            Action::MoveWindowRight => KeyAction::MoveWindow(Direction::Right),
            Action::MoveWindowDown => KeyAction::MoveWindow(Direction::Down),
            Action::MoveWindowUp => KeyAction::MoveWindow(Direction::Up),
            Action::MoveContainerLeft => KeyAction::MoveContainer(Direction::Left),
            Action::MoveContainerRight => KeyAction::MoveContainer(Direction::Right),
            Action::MoveContainerDown => KeyAction::MoveContainer(Direction::Down),
            Action::MoveContainerUp => KeyAction::MoveContainer(Direction::Up),
            Action::MoveFocusLeft => KeyAction::MoveFocus(Direction::Left),
            Action::MoveFocusRight => KeyAction::MoveFocus(Direction::Right),
            Action::MoveFocusDown => KeyAction::MoveFocus(Direction::Down),
            Action::MoveFocusUp => KeyAction::MoveFocus(Direction::Up),
            Action::MoveToWorkspace(num) => KeyAction::MoveToWorkspace(num),
            Action::LayoutVertical => KeyAction::LayoutVertical,
            Action::LayoutHorizontal => KeyAction::LayoutHorizontal,
            Action::ToggleFloating => KeyAction::ToggleFloating,
            Action::Run { command, env } => KeyAction::Run(command, env),
            Action::CloseWindow => KeyAction::CloseWindow,
            Action::Quit => KeyAction::Quit,
            Action::ToggleFullScreenWindow => KeyAction::ToggleFullScreenWindow,
            Action::ToggleFullScreenContainer => KeyAction::ToggleFullScreenContainer,
            Action::ToggleResize => KeyAction::ToggleResize,
            Action::Resize(direction, kind, amount) => KeyAction::Resize(kind, direction, amount),
            Action::ToggleSwitchLayout => KeyAction::ToggleSwitchLayout,
        }
    }
}

impl vstd::std_specs::convert::FromSpecImpl<Action> for KeyAction {
    open spec fn obeys_from_spec() -> bool {
        true
    }

    open spec fn from_spec(v: Action) -> KeyAction {
        key_action_of(v)
    }
}

} // verus!
