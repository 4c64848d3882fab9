//! Pointer and keyboard state between frames: button edges (pressed this
//! frame or held), and the pointer position at the start of the frame.

use vstd::prelude::*;

use crate::geometry::Pixel;

verus! {

/// A mouse button's state, with the press and release edges kept apart for
/// the frame on which they happen.
#[derive(PartialEq, Eq, Clone, Copy, Structural, Debug)]
pub enum MouseButtonState {
    Pressed,
    Released,
    JustPressed,
    JustReleased,
}

/// The button is down (held, or went down this frame).
pub open spec fn pressed(s: MouseButtonState) -> bool {
    s == MouseButtonState::Pressed || s == MouseButtonState::JustPressed
}

/// A button's state once a new frame begins: edges become steady states.
pub open spec fn settled(s: MouseButtonState) -> MouseButtonState {
    match s {
        MouseButtonState::JustPressed => MouseButtonState::Pressed,
        MouseButtonState::JustReleased => MouseButtonState::Released,
        other => other,
    }
}

impl MouseButtonState {
    pub fn is_pressed(&self) -> (r: bool)
        ensures
            r == pressed(*self),
    {
        match self {
            MouseButtonState::JustPressed => true,
            MouseButtonState::Pressed => true,
            MouseButtonState::JustReleased => false,
            MouseButtonState::Released => false,
        }
    }

    pub fn settle(&self) -> (r: MouseButtonState)
        ensures
            r == settled(*self),
    {
        match self {
            MouseButtonState::JustPressed => MouseButtonState::Pressed,
            MouseButtonState::JustReleased => MouseButtonState::Released,
            other => *other,
        }
    }
}

/// A mouse button.
#[derive(PartialEq, Eq, Clone, Copy, Structural, Debug)]
pub enum MouseButton {
    Left,
    Right,
    Middle,
    Other(u16),
}

/// Button states and pointer position, updated from window events and
/// settled once per frame.
pub struct MouseManager {
    buttons: Vec<(MouseButton, MouseButtonState)>,
    position: Pixel,
    last_position: Pixel,
    new_frame: bool,
}

impl MouseManager {
    pub closed spec fn wf(&self) -> bool {
        forall|i: int, j: int|
            0 <= i < j < self.buttons@.len() ==> #[trigger] self.buttons@[i].0 != #[trigger] self.buttons@[j].0
    }

    /// The state of `b`: released until an event says otherwise.
    pub closed spec fn state_of(&self, b: MouseButton) -> MouseButtonState {
        if exists|k: int| 0 <= k < self.buttons@.len() && #[trigger] self.buttons@[k].0 == b {
            self.buttons@[choose|k: int| 0 <= k < self.buttons@.len() && #[trigger] self.buttons@[k].0 == b].1
        } else {
            MouseButtonState::Released
        }
    }

    pub closed spec fn pos(&self) -> Pixel {
        self.position
    }

    pub closed spec fn last_pos(&self) -> Pixel {
        self.last_position
    }

    /// No pointer sample has been taken since the frame began.
    pub closed spec fn awaiting_sample(&self) -> bool {
        self.new_frame
    }

    proof fn lemma_state_at(&self, k: int)
        requires
            self.wf(),
            0 <= k < self.buttons@.len(),
        ensures
            self.state_of(self.buttons@[k].0) == self.buttons@[k].1,
    {
        let b = self.buttons@[k].0;
        let j = choose|j: int| 0 <= j < self.buttons@.len() && #[trigger] self.buttons@[j].0 == b;
        if j != k {
            if j < k {
                assert(self.buttons@[j].0 != self.buttons@[k].0);
            } else {
                assert(self.buttons@[k].0 != self.buttons@[j].0);
            }
        }
    }

    /// A manager with every button released, before any pointer sample; the
    /// pointer reads as the origin until then.
    pub fn new() -> (m: MouseManager)
        ensures
            m.wf(),
            forall|b: MouseButton| m.state_of(b) == MouseButtonState::Released,
            m.pos() == (0i32, 0i32),
            m.last_pos() == (0i32, 0i32),
            m.awaiting_sample(),
    {
        MouseManager { buttons: Vec::new(), position: (0, 0), last_position: (0, 0), new_frame: true }
    }

    fn find(&self, b: MouseButton) -> (r: Option<usize>)
        ensures
            r matches Some(k) ==> k < self.buttons@.len() && self.buttons@[k as int].0 == b,
            r is None ==> forall|k: int| 0 <= k < self.buttons@.len() ==> self.buttons@[k].0 != b,
    {
        let mut i: usize = 0;
        while i < self.buttons.len()
            invariant
                i <= self.buttons@.len(),
                forall|k: int| 0 <= k < i ==> self.buttons@[k].0 != b,
            decreases self.buttons@.len() - i,
        {
            if self.buttons[i].0 == b {
                return Some(i);
            }
            i = i + 1;
        }
        None
    }

    /// Records a button event: the button went down (`pressed`) or up this
    /// frame.
    pub fn update(&mut self, button: MouseButton, pressed: bool)
        requires
            old(self).wf(),
        ensures
            final(self).wf(),
            forall|b: MouseButton|
                #[trigger] final(self).state_of(b) == if b == button {
                    if pressed {
                        MouseButtonState::JustPressed
                    } else {
                        MouseButtonState::JustReleased
                    }
                } else {
                    old(self).state_of(b)
                },
            final(self).pos() == old(self).pos(),
            final(self).last_pos() == old(self).last_pos(),
            final(self).awaiting_sample() == old(self).awaiting_sample(),
    {
        let s = if pressed {
            MouseButtonState::JustPressed
        } else {
            MouseButtonState::JustReleased
        };
        let ghost old_self = *self;
        match self.find(button) {
            Some(k) => {
                self.buttons.set(k, (button, s));
                proof {
                    assert forall|i: int, j: int|
                        0 <= i < j < self.buttons@.len() implies #[trigger] self.buttons@[i].0
                        != #[trigger] self.buttons@[j].0 by {
                        assert(old_self.buttons@[i].0 != old_self.buttons@[j].0);
                    }
                    assert forall|b: MouseButton| #[trigger] self.state_of(b) == if b == button {
                        s
                    } else {
                        old_self.state_of(b)
                    } by {
                        if b == button {
                            self.lemma_state_at(k as int);
                        } else if exists|j: int| 0 <= j < self.buttons@.len() && #[trigger] self.buttons@[j].0 == b {
                            let j = choose|j: int| 0 <= j < self.buttons@.len() && #[trigger] self.buttons@[j].0 == b;
                            self.lemma_state_at(j);
                            old_self.lemma_state_at(j);
                        } else {
                            assert forall|j: int| 0 <= j < old_self.buttons@.len() implies old_self.buttons@[j].0 != b by {
                                assert(self.buttons@[j].0 != b);
                            }
                        }
                    }
                }
            },
            None => {
                self.buttons.push((button, s));
                proof {
                    let n = old_self.buttons@.len() as int;
                    assert forall|i: int, j: int|
                        0 <= i < j < self.buttons@.len() implies #[trigger] self.buttons@[i].0
                        != #[trigger] self.buttons@[j].0 by {
                        if j < n {
                            assert(old_self.buttons@[i].0 != old_self.buttons@[j].0);
                        } else {
                            assert(old_self.buttons@[i].0 != button);
                        }
                    }
                    assert forall|b: MouseButton| #[trigger] self.state_of(b) == if b == button {
                        s
                    } else {
                        old_self.state_of(b)
                    } by {
                        if b == button {
                            self.lemma_state_at(n);
                        } else if exists|j: int| 0 <= j < self.buttons@.len() && #[trigger] self.buttons@[j].0 == b {
                            let j = choose|j: int| 0 <= j < self.buttons@.len() && #[trigger] self.buttons@[j].0 == b;
                            self.lemma_state_at(j);
                            old_self.lemma_state_at(j);
                        } else {
                            assert forall|j: int| 0 <= j < old_self.buttons@.len() implies old_self.buttons@[j].0 != b by {
                                assert(self.buttons@[j].0 != b);
                            }
                        }
                    }
                }
            },
        }
    }

    /// Records a pointer sample; the first sample of a frame also moves the
    /// previous position to where the pointer was when the frame began.
    pub fn update_position(&mut self, position: Pixel)
        requires
            old(self).wf(),
        ensures
            final(self).wf(),
            forall|b: MouseButton| #[trigger] final(self).state_of(b) == old(self).state_of(b),
            final(self).pos() == position,
            final(self).last_pos() == if old(self).awaiting_sample() {
                old(self).pos()
            } else {
                old(self).last_pos()
            },
            !final(self).awaiting_sample(),
    {
        if self.new_frame {
            self.last_position = self.position;
            self.new_frame = false;
        }
        self.position = position;
    }

    /// Begins a new frame: press and release edges become held and released.
    pub fn on_new_frame(&mut self)
        requires
            old(self).wf(),
        ensures
            final(self).wf(),
            forall|b: MouseButton| #[trigger] final(self).state_of(b) == settled(old(self).state_of(b)),
            final(self).pos() == old(self).pos(),
            final(self).last_pos() == old(self).last_pos(),
            final(self).awaiting_sample(),
    {
        self.new_frame = true;
        let ghost old_self = *self;
        let mut i: usize = 0;
        while i < self.buttons.len()
            invariant
                self.buttons@.len() == old_self.buttons@.len(),
                i <= self.buttons@.len(),
                forall|k: int| 0 <= k < self.buttons@.len() ==> #[trigger] self.buttons@[k].0 == old_self.buttons@[k].0,
                forall|k: int| 0 <= k < i ==> #[trigger] self.buttons@[k].1 == settled(old_self.buttons@[k].1),
                forall|k: int| i <= k < self.buttons@.len() ==> #[trigger] self.buttons@[k].1 == old_self.buttons@[k].1,
                self.position == old_self.position,
                self.last_position == old_self.last_position,
                self.new_frame,
            decreases self.buttons@.len() - i,
        {
            let (b, s) = self.buttons[i];
            let t = s.settle();
            self.buttons.set(i, (b, t));
            i = i + 1;
        }
        proof {
            assert forall|i: int, j: int|
                0 <= i < j < self.buttons@.len() implies #[trigger] self.buttons@[i].0
                != #[trigger] self.buttons@[j].0 by {
                assert(old_self.buttons@[i].0 != old_self.buttons@[j].0);
            }
            assert forall|b: MouseButton| #[trigger] self.state_of(b) == settled(old_self.state_of(b)) by {
                if exists|j: int| 0 <= j < self.buttons@.len() && #[trigger] self.buttons@[j].0 == b {
                    let j = choose|j: int| 0 <= j < self.buttons@.len() && #[trigger] self.buttons@[j].0 == b;
                    self.lemma_state_at(j);
                    old_self.lemma_state_at(j);
                } else {
                    assert forall|j: int| 0 <= j < old_self.buttons@.len() implies old_self.buttons@[j].0 != b by {
                        assert(self.buttons@[j].0 != b);
                    }
                }
            }
        }
    }

    /// The button is down (held, or went down this frame).
    pub fn is_pressed(&self, button: MouseButton) -> (r: bool)
        requires
            self.wf(),
        ensures
            r == pressed(self.state_of(button)),
    {
        self.button_state(button).is_pressed()
    }

    pub fn button_state(&self, button: MouseButton) -> (s: MouseButtonState)
        requires
            self.wf(),
        ensures
            s == self.state_of(button),
    {
        match self.find(button) {
            Some(k) => {
                proof {
                    self.lemma_state_at(k as int);
                }
                self.buttons[k].1
            },
            None => MouseButtonState::Released,
        }
    }

    /// Where the pointer was when the current frame began.
    pub fn last_position(&self) -> (p: Pixel)
        ensures
            p == self.last_pos(),
    {
        self.last_position
    }

    pub fn position(&self) -> (p: Pixel)
        ensures
            p == self.pos(),
    {
        self.position
    }
}

/// Which keys are held, by key code.
pub struct KeyboardManager {
    keys: Vec<(u32, bool)>,
}

impl KeyboardManager {
    pub closed spec fn wf(&self) -> bool {
        forall|i: int, j: int|
            0 <= i < j < self.keys@.len() ==> #[trigger] self.keys@[i].0 != #[trigger] self.keys@[j].0
    }

    /// Whether key `k` is held: not until an event says so.
    pub closed spec fn held(&self, k: u32) -> bool {
        if exists|i: int| 0 <= i < self.keys@.len() && #[trigger] self.keys@[i].0 == k {
            self.keys@[choose|i: int| 0 <= i < self.keys@.len() && #[trigger] self.keys@[i].0 == k].1
        } else {
            false
        }
    }

    proof fn lemma_held_at(&self, i: int)
        requires
            self.wf(),
            0 <= i < self.keys@.len(),
        ensures
            self.held(self.keys@[i].0) == self.keys@[i].1,
    {
        let k = self.keys@[i].0;
        let j = choose|j: int| 0 <= j < self.keys@.len() && #[trigger] self.keys@[j].0 == k;
        if j != i {
            if j < i {
                assert(self.keys@[j].0 != self.keys@[i].0);
            } else {
                assert(self.keys@[i].0 != self.keys@[j].0);
            }
        }
    }

    pub fn new() -> (m: KeyboardManager)
        ensures
            m.wf(),
            forall|k: u32| !m.held(k),
    {
        KeyboardManager { keys: Vec::new() }
    }

    fn find(&self, key: u32) -> (r: Option<usize>)
        ensures
            r matches Some(i) ==> i < self.keys@.len() && self.keys@[i as int].0 == key,
            r is None ==> forall|i: int| 0 <= i < self.keys@.len() ==> self.keys@[i].0 != key,
    {
        let mut i: usize = 0;
        while i < self.keys.len()
            invariant
                i <= self.keys@.len(),
                forall|j: int| 0 <= j < i ==> self.keys@[j].0 != key,
            decreases self.keys@.len() - i,
        {
            if self.keys[i].0 == key {
                return Some(i);
            }
            i = i + 1;
        }
        None
    }

    /// Records a key event; an event without a key code changes nothing.
    pub fn update(&mut self, key: Option<u32>, pressed: bool)
        requires
            old(self).wf(),
        ensures
            final(self).wf(),
            forall|k: u32|
                #[trigger] final(self).held(k) == if key == Some(k) {
                    pressed
                } else {
                    old(self).held(k)
                },
    {
        let ghost old_self = *self;
        if let Some(key) = key {
            match self.find(key) {
                Some(i) => {
                    self.keys.set(i, (key, pressed));
                    proof {
                        assert forall|a: int, b: int|
                            0 <= a < b < self.keys@.len() implies #[trigger] self.keys@[a].0
                            != #[trigger] self.keys@[b].0 by {
                            assert(old_self.keys@[a].0 != old_self.keys@[b].0);
                        }
                        assert forall|k: u32| #[trigger] self.held(k) == if k == key {
                            pressed
                        } else {
                            old_self.held(k)
                        } by {
                            if k == key {
                                self.lemma_held_at(i as int);
                            } else if exists|j: int| 0 <= j < self.keys@.len() && #[trigger] self.keys@[j].0 == k {
                                let j = choose|j: int| 0 <= j < self.keys@.len() && #[trigger] self.keys@[j].0 == k;
                                self.lemma_held_at(j);
                                old_self.lemma_held_at(j);
                            } else {
                                assert forall|j: int| 0 <= j < old_self.keys@.len() implies old_self.keys@[j].0 != k by {
                                    assert(self.keys@[j].0 != k);
                                }
                            }
                        }
                    }
                },
                None => {
                    self.keys.push((key, pressed));
                    proof {
                        let n = old_self.keys@.len() as int;
                        assert forall|a: int, b: int|
                            0 <= a < b < self.keys@.len() implies #[trigger] self.keys@[a].0
                            != #[trigger] self.keys@[b].0 by {
                            if b < n {
                                assert(old_self.keys@[a].0 != old_self.keys@[b].0);
                            } else {
                                assert(old_self.keys@[a].0 != key);
                            }
                        }
                        assert forall|k: u32| #[trigger] self.held(k) == if k == key {
                            pressed
                        } else {
                            old_self.held(k)
                        } by {
                            if k == key {
                                self.lemma_held_at(n);
                            } else if exists|j: int| 0 <= j < self.keys@.len() && #[trigger] self.keys@[j].0 == k {
                                let j = choose|j: int| 0 <= j < self.keys@.len() && #[trigger] self.keys@[j].0 == k;
                                self.lemma_held_at(j);
                                old_self.lemma_held_at(j);
                            } else {
                                assert forall|j: int| 0 <= j < old_self.keys@.len() implies old_self.keys@[j].0 != k by {
                                    assert(self.keys@[j].0 != k);
                                }
                            }
                        }
                    }
                },
            }
        }
    }

    pub fn is_pressed(&self, key: u32) -> (r: bool)
        requires
            self.wf(),
        ensures
            r == self.held(key),
    {
        match self.find(key) {
            Some(i) => {
                proof {
                    self.lemma_held_at(i as int);
                }
                self.keys[i].1
            },
            None => false,
        }
    }
}

} // verus!
