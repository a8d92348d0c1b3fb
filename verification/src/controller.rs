use vstd::prelude::*;

verus! {

/// The keys the player controls react to.
#[derive(Clone, Copy, Debug, PartialEq, Eq, Structural)]
pub enum Key {
    A,
    D,
    W,
    Other,
}

/// Mouse buttons.
#[derive(Clone, Copy, Debug, PartialEq, Eq, Structural)]
pub enum MouseButton {
    Left,
    Right,
    Middle,
    Other,
}

/// A player input event: a key or a mouse button going down (`pressed`) or up.
#[derive(Clone, Copy, Debug, PartialEq, Eq, Structural)]
pub enum Input {
    Key { key: Key, pressed: bool },
    Mouse { button: MouseButton, pressed: bool },
}

/// Which way the player wants to move and whether it wants to jump.
#[derive(Clone, Copy, Debug, PartialEq, Eq, Structural)]
pub struct PlayerMovement {
    pub left: bool,
    pub right: bool,
    pub jumping: bool,
}

impl Default for PlayerMovement {
    fn default() -> (m: PlayerMovement)
        ensures
            m == (PlayerMovement { left: false, right: false, jumping: false }),
    {
        PlayerMovement { left: false, right: false, jumping: false }
    }
}

/// What handling an input led to.
#[derive(Clone, Copy, Debug, PartialEq, Eq, Structural)]
pub enum InputEffect {
    /// The input changed the movement state and is used up.
    Consumed,
    /// A left click: the game fires a projectile, and the input is used up.
    SpawnProjectile,
    /// The input means nothing to the player; it stays queued.
    Ignored,
}

/// The movement state and effect that handling `input` in state `m` gives: A, D and W set
/// left, right and jumping to whether the key is down; a left-button press fires.
pub open spec fn input_result(m: PlayerMovement, input: Input) -> (PlayerMovement, InputEffect) {
    match input {
        Input::Key { key, pressed } => match key {
            Key::A => (PlayerMovement { left: pressed, ..m }, InputEffect::Consumed),
            Key::D => (PlayerMovement { right: pressed, ..m }, InputEffect::Consumed),
            Key::W => (PlayerMovement { jumping: pressed, ..m }, InputEffect::Consumed),
            Key::Other => (m, InputEffect::Ignored),
        },
        Input::Mouse { button, pressed } => {
            if button == MouseButton::Left && pressed {
                (m, InputEffect::SpawnProjectile)
            } else {
                (m, InputEffect::Ignored)
            }
        },
    }
}

impl PlayerMovement {
    /// Updates the movement state from one input and says what the input led to.
    pub fn apply_input(&mut self, input: &Input) -> (effect: InputEffect)
        ensures
            (*final(self), effect) == input_result(*old(self), *input),
    {
        match *input {
            Input::Key { key, pressed } => {
                match key {
                    Key::A => {
                        self.left = pressed;
                        InputEffect::Consumed
                    },
                    Key::D => {
                        self.right = pressed;
                        InputEffect::Consumed
                    },
                    Key::W => {
                        self.jumping = pressed;
                        InputEffect::Consumed
                    },
                    Key::Other => InputEffect::Ignored,
                }
            },
            Input::Mouse { button, pressed } => {
                if button == MouseButton::Left && pressed {
                    InputEffect::SpawnProjectile
                } else {
                    InputEffect::Ignored
                }
            },
        }
    }
}

/// A key event sets the flag of its key to whether the key is down and leaves the other
/// flags alone: A steers left, D right, W jumps; any other key changes nothing and stays
/// queued. The flag follows the last event of its key only, so releasing a key clears its
/// flag whatever came before.
pub proof fn lemma_key_sets_its_flag(m: PlayerMovement, key: Key, pressed: bool, earlier: bool)
    ensures
        ({
            let (after, effect) = input_result(m, Input::Key { key, pressed });
            &&& key == Key::A ==> after.left == pressed && after.right == m.right && after.jumping
                == m.jumping && effect == InputEffect::Consumed
            &&& key == Key::D ==> after.right == pressed && after.left == m.left && after.jumping
                == m.jumping && effect == InputEffect::Consumed
            &&& key == Key::W ==> after.jumping == pressed && after.left == m.left && after.right
                == m.right && effect == InputEffect::Consumed
            &&& key == Key::Other ==> after == m && effect == InputEffect::Ignored
        }),
        input_result(
            input_result(m, Input::Key { key, pressed: earlier }).0,
            Input::Key { key, pressed },
        ).0 == input_result(m, Input::Key { key, pressed }).0,
{
}

/// A mouse event never changes the movement flags; a left-button press fires and is used up,
/// anything else stays queued.
pub proof fn lemma_mouse_keeps_flags(m: PlayerMovement, button: MouseButton, pressed: bool)
    ensures
        input_result(m, Input::Mouse { button, pressed }).0 == m,
        input_result(m, Input::Mouse { button, pressed }).1 == (if button == MouseButton::Left
            && pressed {
            InputEffect::SpawnProjectile
        } else {
            InputEffect::Ignored
        }),
{
}

/// The queue left after one round of input handling: inputs that were handled or whose
/// time ran out are dropped, and every other input keeps its place with one tick less.
pub open spec fn aged_inputs(inputs: Seq<(Input, u32)>, handled: Seq<bool>) -> Seq<(Input, u32)>
    decreases inputs.len(),
{
    if inputs.len() == 0 {
        seq![]
    } else {
        let n = inputs.len() - 1;
        let rest = aged_inputs(inputs.take(n), handled.take(n));
        if handled[n] || inputs[n].1 == 0 {
            rest
        } else {
            rest.push((inputs[n].0, (inputs[n].1 - 1) as u32))
        }
    }
}

/// The rounds the inputs of a queue may still wait in all: each input counts its time
/// plus one.
pub open spec fn queue_weight(inputs: Seq<(Input, u32)>) -> int
    decreases inputs.len(),
{
    if inputs.len() == 0 {
        0
    } else {
        queue_weight(inputs.drop_last()) + inputs.last().1 + 1
    }
}

/// Every round of input handling uses up at least one unit of weight per queued input, so
/// an input leaves the queue after at most its time plus one rounds, and the queue never
/// grows.
pub proof fn lemma_handling_drains_queue(inputs: Seq<(Input, u32)>, handled: Seq<bool>)
    requires
        handled.len() == inputs.len(),
    ensures
        aged_inputs(inputs, handled).len() <= inputs.len(),
        queue_weight(aged_inputs(inputs, handled)) + inputs.len() <= queue_weight(inputs),
    decreases inputs.len(),
{
    if inputs.len() > 0 {
        let n = inputs.len() - 1;
        lemma_handling_drains_queue(inputs.take(n), handled.take(n));
        assert(inputs.drop_last() =~= inputs.take(n));
        let rest = aged_inputs(inputs.take(n), handled.take(n));
        if !(handled[n] || inputs[n].1 == 0) {
            let pushed = rest.push((inputs[n].0, (inputs[n].1 - 1) as u32));
            assert(pushed.drop_last() =~= rest);
        }
    }
}

/// Queued inputs, each with the number of rounds it may still wait to be handled.
pub struct PlayerController {
    pub inputs: Vec<(Input, u32)>,
}

impl PlayerController {
    /// A controller with no queued input.
    pub fn new() -> (c: PlayerController)
        ensures
            c.inputs@ == Seq::<(Input, u32)>::empty(),
    {
        PlayerController { inputs: Vec::new() }
    }

    /// One round of input handling, given for each queued input whether the game's input
    /// handler used it up: handled or expired inputs leave the queue, the others wait one
    /// round less.
    pub fn handle_inputs(&mut self, handled: &Vec<bool>)
        requires
            handled.len() == old(self).inputs.len(),
        ensures
            final(self).inputs@ == aged_inputs(old(self).inputs@, handled@),
    {
        let mut kept: Vec<(Input, u32)> = Vec::new();
        let mut i: usize = 0;
        while i < self.inputs.len()
            invariant
                i <= self.inputs.len(),
                handled.len() == self.inputs.len(),
                self.inputs@ == old(self).inputs@,
                kept@ == aged_inputs(self.inputs@.take(i as int), handled@.take(i as int)),
            decreases self.inputs.len() - i,
        {
            let (input, time) = self.inputs[i];
            proof {
                let t = self.inputs@.take(i + 1);
                let h = handled@.take(i + 1);
                assert(t.take(i as int) =~= self.inputs@.take(i as int));
                assert(h.take(i as int) =~= handled@.take(i as int));
                assert(t[i as int] == self.inputs@[i as int]);
                assert(h[i as int] == handled@[i as int]);
            }
            if !(handled[i] || time == 0) {
                kept.push((input, time - 1));
            }
            i += 1;
        }
        assert(self.inputs@.take(self.inputs.len() as int) =~= self.inputs@);
        assert(handled@.take(handled.len() as int) =~= handled@);
        self.inputs = kept;
    }
}

} // verus!
