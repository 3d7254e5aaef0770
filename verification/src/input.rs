use vstd::prelude::*;

verus! {

/// Directions the camera can be moved in, one flag each.
#[derive(Copy, Clone, PartialEq, Eq, Structural)]
pub enum CameraMove {
    Forward,
    Backward,
    Left,
    Right,
    Up,
    Down,
}

/// Position of a direction's flag.
pub open spec fn move_index(m: CameraMove) -> nat {
    match m {
        CameraMove::Forward => 0,
        CameraMove::Backward => 1,
        CameraMove::Left => 2,
        CameraMove::Right => 3,
        CameraMove::Up => 4,
        CameraMove::Down => 5,
    }
}

impl CameraMove {
    /// Position of this direction's flag.
    pub fn index(&self) -> (r: usize)
        ensures
            r == move_index(*self),
    {
        match self {
            CameraMove::Forward => 0,
            CameraMove::Backward => 1,
            CameraMove::Left => 2,
            CameraMove::Right => 3,
            CameraMove::Up => 4,
            CameraMove::Down => 5,
        }
    }
}

/// The physical keys the viewer reacts to.
#[derive(Copy, Clone, PartialEq, Eq, Structural)]
pub enum Key {
    KeyW,
    ArrowUp,
    KeyS,
    ArrowDown,
    KeyA,
    ArrowLeft,
    KeyD,
    ArrowRight,
    KeyF,
    Other,
}

/// The direction a key moves the camera in, if it moves it.
pub open spec fn key_direction(key: Key) -> Option<CameraMove> {
    match key {
        Key::KeyW | Key::ArrowUp => Some(CameraMove::Forward),
        Key::KeyS | Key::ArrowDown => Some(CameraMove::Backward),
        Key::KeyA | Key::ArrowLeft => Some(CameraMove::Left),
        Key::KeyD | Key::ArrowRight => Some(CameraMove::Right),
        _ => None,
    }
}

/// Movement along one axis from the keys held for its two directions: 1, -1 or 0.
pub open spec fn axis(positive: bool, negative: bool) -> int {
    (if positive { 1int } else { 0int }) - (if negative { 1int } else { 0int })
}

/// The viewer's input state: which movement keys are held and whether mouse
/// movement turns the camera.
pub struct InputState {
    pressed_directions: [bool; 16],
    mouse_look: bool,
}

/// What an [`InputState`] records.
pub struct InputModel {
    pub pressed: Seq<bool>,
    pub mouse_look: bool,
}

impl View for InputState {
    type V = InputModel;

    closed spec fn view(&self) -> InputModel {
        InputModel { pressed: self.pressed_directions@, mouse_look: self.mouse_look }
    }
}

impl InputModel {
    /// Whether the key for direction `m` is held.
    pub open spec fn held(self, m: CameraMove) -> bool {
        self.pressed[move_index(m) as int]
    }

    /// The state after `key` was pressed (`pressed`) or released: a movement key
    /// sets its direction's flag to whether it is held, a press of F switches
    /// mouse look, and other keys change nothing.
    pub open spec fn after_key(self, key: Key, pressed: bool) -> InputModel {
        match key_direction(key) {
            Some(m) => InputModel { pressed: self.pressed.update(move_index(m) as int, pressed), ..self },
            None => if key == Key::KeyF && pressed {
                InputModel { mouse_look: !self.mouse_look, ..self }
            } else {
                self
            },
        }
    }
}

impl InputState {
    /// Nothing held, mouse look off.
    pub fn new() -> (r: Self)
        ensures
            r@.pressed.len() == 16,
            forall|i: int| 0 <= i < 16 ==> !#[trigger] r@.pressed[i],
            !r@.mouse_look,
    {
        InputState { pressed_directions: [false; 16], mouse_look: false }
    }

    /// Takes in a key press or release (see [`InputModel::after_key`]).
    pub fn handle_key(&mut self, key: Key, pressed: bool)
        ensures
            final(self)@ == old(self)@.after_key(key, pressed),
    {
        let dir = match key {
            Key::KeyW | Key::ArrowUp => Some(CameraMove::Forward),
            Key::KeyS | Key::ArrowDown => Some(CameraMove::Backward),
            Key::KeyA | Key::ArrowLeft => Some(CameraMove::Left),
            Key::KeyD | Key::ArrowRight => Some(CameraMove::Right),
            _ => None,
        };
        match dir {
            Some(m) => {
                self.pressed_directions[m.index()] = pressed;
            },
            None => {
                match key {
                    Key::KeyF => {
                        if pressed {
                            self.mouse_look = !self.mouse_look;
                        }
                    },
                    _ => {},
                }
            },
        }
    }

    /// Whether the key for direction `m` is held.
    pub fn is_held(&self, m: CameraMove) -> (r: bool)
        ensures
            r == self@.held(m),
    {
        self.pressed_directions[m.index()]
    }

    /// Whether mouse movement turns the camera; otherwise it only records the
    /// cursor position.
    pub fn mouse_look(&self) -> (r: bool)
        ensures
            r == self@.mouse_look,
    {
        self.mouse_look
    }

    /// Movement along the camera's x (right), y (up) and z (backwards) axes from
    /// the keys held, each 1, -1 or 0.
    pub fn move_axes(&self) -> (r: (i8, i8, i8))
        ensures
            r.0 == axis(self@.held(CameraMove::Right), self@.held(CameraMove::Left)),
            r.1 == axis(self@.held(CameraMove::Up), self@.held(CameraMove::Down)),
            r.2 == axis(self@.held(CameraMove::Backward), self@.held(CameraMove::Forward)),
    {
        let x = dir_move(self.is_held(CameraMove::Right), self.is_held(CameraMove::Left));
        let y = dir_move(self.is_held(CameraMove::Up), self.is_held(CameraMove::Down));
        let z = dir_move(self.is_held(CameraMove::Backward), self.is_held(CameraMove::Forward));
        (x, y, z)
    }
}

/// 1 when only `forward` is held, -1 when only `backward` is, 0 otherwise.
pub fn dir_move(forward: bool, backward: bool) -> (r: i8)
    ensures
        r == axis(forward, backward),
{
    let f: i8 = if forward { 1 } else { 0 };
    let b: i8 = if backward { 1 } else { 0 };
    f - b
}

/// Pressing and then releasing a movement key leaves its direction not held;
/// pressing F twice gives mouse look back its setting.
pub proof fn lemma_press_release(s: InputModel, key: Key)
    requires
        s.pressed.len() == 16,
    ensures
        key_direction(key) is Some ==> !s.after_key(key, true).after_key(key, false).held(
            key_direction(key)->Some_0,
        ),
        key_direction(key) is Some ==> s.after_key(key, true).held(key_direction(key)->Some_0),
        s.after_key(Key::KeyF, true).after_key(Key::KeyF, true) == s,
        s.after_key(Key::KeyF, false) == s,
{
}

} // verus!
