//! A small character-movement domain: an example consumer of the engine.

use vstd::prelude::*;

use crate::engine::States;

verus! {

/// The movement states of the example character.
#[derive(Clone, Copy, Debug, PartialEq, Eq, Structural)]
pub enum CharacterStates {
    Idle,
    Walk,
    Run,
    Jump,
    Fall,
}

/// The events the example character reacts to.
#[derive(Clone, Copy, Debug, PartialEq, Eq, Structural)]
pub enum CharacterEvents {
    WishDirection,
    Jump,
}

/// The shared context of the example character; this domain needs none.
#[derive(Clone, Copy, Debug, PartialEq, Eq, Structural)]
pub struct CharacterExtended {}

impl States for CharacterStates {
    type Events = CharacterEvents;

    type Extended = CharacterExtended;

    open spec fn next_spec(self, ev: CharacterEvents, ex: CharacterExtended) -> Option<
        CharacterStates,
    > {
        match self {
            CharacterStates::Idle => match ev {
                CharacterEvents::WishDirection => Some(CharacterStates::Walk),
                CharacterEvents::Jump => Some(CharacterStates::Jump),
            },
            CharacterStates::Walk => match ev {
                CharacterEvents::WishDirection => Some(CharacterStates::Run),
                CharacterEvents::Jump => Some(CharacterStates::Jump),
            },
            CharacterStates::Run => match ev {
                CharacterEvents::Jump => Some(CharacterStates::Jump),
                _ => None,
            },
            _ => None,
        }
    }

    fn next(&self, ev: &CharacterEvents, ex: &CharacterExtended) -> (r: Option<CharacterStates>) {
        match self {
            CharacterStates::Idle => match ev {
                CharacterEvents::WishDirection => Some(CharacterStates::Walk),
                CharacterEvents::Jump => Some(CharacterStates::Jump),
            },
            CharacterStates::Walk => match ev {
                CharacterEvents::WishDirection => Some(CharacterStates::Run),
                CharacterEvents::Jump => Some(CharacterStates::Jump),
            },
            CharacterStates::Run => match ev {
                CharacterEvents::Jump => Some(CharacterStates::Jump),
                CharacterEvents::WishDirection => None,
            },
            CharacterStates::Jump => None,
            CharacterStates::Fall => None,
        }
    }
}

} // verus!
