//! The camera actions, the keys bound to them, and which of them a frame applies.

use vstd::prelude::*;
use crate::key::{key_pressing, KeyState, KeyStateMap};

verus! {

pub const KEY_MOVE_UP: &'static str = "w";

pub const KEY_MOVE_DOWN: &'static str = "s";

pub const KEY_MOVE_FORWARD: &'static str = "e";

pub const KEY_MOVE_BACKWARD: &'static str = "q";

pub const KEY_MOVE_RIGHT: &'static str = "d";

pub const KEY_MOVE_LEFT: &'static str = "a";

pub const KEY_ROTATE_UP: &'static str = "i";

pub const KEY_ROTATE_DOWN: &'static str = "k";

pub const KEY_ROTATE_RIGHT: &'static str = "l";

pub const KEY_ROTATE_LEFT: &'static str = "j";

/// One motion of the goal camera frame, applied once per frame while its key is held.
#[derive(Debug, Clone, Copy, PartialEq, Eq, Structural)]
pub enum CameraAction {
    MoveForward,
    MoveBackward,
    MoveUp,
    MoveDown,
    MoveRight,
    MoveLeft,
    RotateRight,
    RotateLeft,
    RotateUp,
    RotateDown,
}

impl CameraAction {
    /// The key bound to the action.
    pub open spec fn spec_key(&self) -> Seq<char> {
        match *self {
            CameraAction::MoveForward => KEY_MOVE_FORWARD@,
            CameraAction::MoveBackward => KEY_MOVE_BACKWARD@,
            CameraAction::MoveUp => KEY_MOVE_UP@,
            CameraAction::MoveDown => KEY_MOVE_DOWN@,
            CameraAction::MoveRight => KEY_MOVE_RIGHT@,
            CameraAction::MoveLeft => KEY_MOVE_LEFT@,
            CameraAction::RotateRight => KEY_ROTATE_RIGHT@,
            CameraAction::RotateLeft => KEY_ROTATE_LEFT@,
            CameraAction::RotateUp => KEY_ROTATE_UP@,
            CameraAction::RotateDown => KEY_ROTATE_DOWN@,
        }
    }

    pub fn key(&self) -> (r: &'static str)
        ensures
            r@ == self.spec_key(),
    {
        match *self {
            CameraAction::MoveForward => KEY_MOVE_FORWARD,
            CameraAction::MoveBackward => KEY_MOVE_BACKWARD,
            CameraAction::MoveUp => KEY_MOVE_UP,
            CameraAction::MoveDown => KEY_MOVE_DOWN,
            CameraAction::MoveRight => KEY_MOVE_RIGHT,
            CameraAction::MoveLeft => KEY_MOVE_LEFT,
            CameraAction::RotateRight => KEY_ROTATE_RIGHT,
            CameraAction::RotateLeft => KEY_ROTATE_LEFT,
            CameraAction::RotateUp => KEY_ROTATE_UP,
            CameraAction::RotateDown => KEY_ROTATE_DOWN,
        }
    }
}

/// The fixed order in which the actions of one frame are applied.
pub open spec fn action_order() -> Seq<CameraAction> {
    seq![
        CameraAction::MoveForward,
        CameraAction::MoveBackward,
        CameraAction::MoveUp,
        CameraAction::MoveDown,
        CameraAction::MoveRight,
        CameraAction::MoveLeft,
        CameraAction::RotateRight,
        CameraAction::RotateLeft,
        CameraAction::RotateUp,
        CameraAction::RotateDown,
    ]
}

/// The actions of `acts` whose key is pressed in `m`, in the order of `acts`.
pub open spec fn pressed_among(m: Map<Seq<char>, KeyState>, acts: Seq<CameraAction>) -> Seq<
    CameraAction,
>
    decreases acts.len(),
{
    if acts.len() == 0 {
        Seq::empty()
    } else {
        let rest = pressed_among(m, acts.drop_last());
        if key_pressing(m, acts.last().spec_key()) {
            rest.push(acts.last())
        } else {
            rest
        }
    }
}

fn all_actions() -> (r: Vec<CameraAction>)
    ensures
        r@ == action_order(),
{
    let mut r: Vec<CameraAction> = Vec::new();
    r.push(CameraAction::MoveForward);
    r.push(CameraAction::MoveBackward);
    r.push(CameraAction::MoveUp);
    r.push(CameraAction::MoveDown);
    r.push(CameraAction::MoveRight);
    r.push(CameraAction::MoveLeft);
    r.push(CameraAction::RotateRight);
    r.push(CameraAction::RotateLeft);
    r.push(CameraAction::RotateUp);
    r.push(CameraAction::RotateDown);
    assert(r@ =~= action_order());
    r
}

/// The actions whose keys are down in this frame, in the fixed action order.
/// Keys bound to no action are ignored.
pub fn pressed_actions(keys: &KeyStateMap) -> (r: Vec<CameraAction>)
    requires
        keys.wf(),
    ensures
        r@ == pressed_among(keys@, action_order()),
{
    let all = all_actions();
    let mut r: Vec<CameraAction> = Vec::new();
    let mut i: usize = 0;
    while i < all.len()
        invariant
            keys.wf(),
            all@ == action_order(),
            i <= all@.len(),
            r@ == pressed_among(keys@, all@.take(i as int)),
        decreases all@.len() - i,
    {
        let action = all[i];
        assert(all@.take(i + 1).drop_last() =~= all@.take(i as int));
        if keys.is_pressing(action.key()) {
            r.push(action);
        }
        i = i + 1;
    }
    assert(all@.take(all@.len() as int) =~= all@);
    r
}

} // verus!
