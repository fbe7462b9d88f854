//! Game phases and the transitions between them.

use vstd::prelude::*;

verus! {

/// Identifier of an entity of the game world (its bit representation).
pub type EntityId = u64;

/// Top-level application phase.
#[allow(non_camel_case_types, clippy::upper_case_acronyms)]
#[derive(Clone, Copy, Debug, PartialEq, Eq, Hash, Structural)]
pub enum AppState {
    /// Asset loading and level transition.
    LOADING,
    /// Characters move.
    RUNNING,
    /// Menu.
    PAUSE,
    /// Exit.
    EXIT,
}

impl Default for AppState {
    fn default() -> (s: Self)
        ensures
            s == AppState::RUNNING,
    {
        AppState::RUNNING
    }
}

/// Phase of a running level.
#[allow(non_camel_case_types, clippy::upper_case_acronyms)]
#[derive(Clone, Copy, Debug, PartialEq, Eq, Hash, Structural)]
pub enum InGameState {
    PAUSED,
    RUNNING,
    DEFEAT,
}

impl Default for InGameState {
    fn default() -> (s: Self)
        ensures
            s == InGameState::RUNNING,
    {
        InGameState::RUNNING
    }
}

/// Phase of the game flow driven by aggregated game-state messages.
#[allow(non_camel_case_types, clippy::upper_case_acronyms)]
#[derive(Clone, Copy, Debug, PartialEq, Eq, Hash, Structural)]
pub enum GameState {
    START,
    RUNNING,
    PAUSE,
    STOP,
}

impl Default for GameState {
    fn default() -> (s: Self)
        ensures
            s == GameState::START,
    {
        GameState::START
    }
}

/// What a game-state message reports.
#[derive(Clone, Copy, Debug, PartialEq, Eq, Structural)]
pub enum GameStateEnum {
    PlayerDeath,
    StartGame,
}

/// A message that drives the game-state machine.
pub struct GameStateMessage {
    kind: GameStateEnum,
}

impl GameStateMessage {
    pub fn new(kind: GameStateEnum) -> (m: Self)
        ensures
            m.kind() == kind,
    {
        GameStateMessage { kind }
    }

    pub closed spec fn kind(&self) -> GameStateEnum {
        self.kind
    }

    pub fn get_kind(&self) -> (k: GameStateEnum)
        ensures
            k == self.kind(),
    {
        self.kind
    }
}

/// Request to start the game.
pub struct StartGameMessage;

impl<'a> From<&'a StartGameMessage> for GameStateEnum {
    fn from(_message: &'a StartGameMessage) -> (k: Self) {
        GameStateEnum::StartGame
    }
}

impl<'a> vstd::std_specs::convert::FromSpecImpl<&'a StartGameMessage> for GameStateEnum {
    open spec fn obeys_from_spec() -> bool {
        true
    }

    open spec fn from_spec(v: &'a StartGameMessage) -> Self {
        GameStateEnum::StartGame
    }
}

/// Request to leave the game.
#[derive(Clone, Copy, Debug)]
pub struct ExitGameEvent;

/// Request to leave the game, sent as a message.
pub struct ExitGameMessage;

/// Start values of the player.
#[derive(Clone, Copy)]
pub struct PlayerResource {
    pub max_health: u32,
}

/// Start values of an enemy.
#[derive(Clone, Copy)]
pub struct EnemyResource {
    pub max_health: u32,
}

/// A character died: `source` fired the killing shot at `target`.
#[derive(Clone, Copy, Debug, PartialEq, Eq, Structural)]
pub struct CharacterDeathMessage {
    pub source: EntityId,
    pub target: EntityId,
}

/// The state a single message asks for, if it applies in `state`.
pub open spec fn transition(kind: GameStateEnum, state: GameState) -> Option<GameState> {
    match (kind, state) {
        (GameStateEnum::PlayerDeath, GameState::RUNNING) => Some(GameState::STOP),
        (GameStateEnum::StartGame, GameState::START) => Some(GameState::RUNNING),
        _ => None,
    }
}

/// The state requested after reading `kinds` in order while the current state
/// is `current`: the last applicable request wins, and `None` means that no
/// message applied.
pub open spec fn requested_state(current: GameState, kinds: Seq<GameStateEnum>) -> Option<
    GameState,
>
    decreases kinds.len(),
{
    if kinds.len() == 0 {
        None
    } else {
        match transition(kinds.last(), current) {
            Some(next) => Some(next),
            None => requested_state(current, kinds.drop_last()),
        }
    }
}

/// The state a single message asks for in `state`.
pub fn transition_for(kind: GameStateEnum, state: GameState) -> (r: Option<GameState>)
    ensures
        r == transition(kind, state),
{
    match (kind, state) {
        (GameStateEnum::PlayerDeath, GameState::RUNNING) => Some(GameState::STOP),
        (GameStateEnum::StartGame, GameState::START) => Some(GameState::RUNNING),
        _ => None,
    }
}

/// Reads the pending game-state messages while the game is in `current` and
/// returns the state to switch to, or `None` when none of them applies.
pub fn state_machine_system(current: GameState, messages: &Vec<GameStateMessage>) -> (next: Option<
    GameState,
>)
    ensures
        next == requested_state(current, messages@.map_values(|m: GameStateMessage| m.kind())),
{
    let ghost kinds = messages@.map_values(|m: GameStateMessage| m.kind());
    let mut next: Option<GameState> = None;
    let mut i: usize = 0;
    while i < messages.len()
        invariant
            i <= messages.len(),
            kinds == messages@.map_values(|m: GameStateMessage| m.kind()),
            next == requested_state(current, kinds.take(i as int)),
        decreases messages.len() - i,
    {
        let kind = messages[i].get_kind();
        if let Some(s) = transition_for(kind, current) {
            next = Some(s);
        }
        assert(kinds.take(i + 1).drop_last() =~= kinds.take(i as int));
        i += 1;
    }
    assert(kinds.take(messages.len() as int) =~= kinds);
    next
}

/// Wraps each message kind into a game-state message, in order.
pub fn aggregate_message_system(kinds: &Vec<GameStateEnum>) -> (out: Vec<GameStateMessage>)
    ensures
        out@.map_values(|m: GameStateMessage| m.kind()) == kinds@,
{
    let mut out: Vec<GameStateMessage> = Vec::new();
    let mut i: usize = 0;
    while i < kinds.len()
        invariant
            i <= kinds.len(),
            out.len() == i,
            out@.map_values(|m: GameStateMessage| m.kind()) == kinds@.take(i as int),
        decreases kinds.len() - i,
    {
        let ghost prev = out@;
        let m = GameStateMessage::new(kinds[i]);
        out.push(m);
        assert forall|j: int| 0 <= j < i + 1 implies #[trigger] out@[j].kind() == kinds@[j] by {
            if j < i {
                assert(out@[j] == prev[j]);
                assert(prev.map_values(|m: GameStateMessage| m.kind())[j] == kinds@.take(
                    i as int,
                )[j]);
            }
        }
        assert(out@.map_values(|m: GameStateMessage| m.kind()) =~= kinds@.take(i + 1));
        i += 1;
    }
    assert(kinds@.take(kinds.len() as int) =~= kinds@);
    out
}

/// Law: the game-state machine only leaves `START` towards `RUNNING` and only
/// leaves `RUNNING` towards `STOP`; in any other state no message applies.
pub proof fn lemma_requested_state_follows_transitions(
    current: GameState,
    kinds: Seq<GameStateEnum>,
)
    ensures
        requested_state(current, kinds) matches Some(next) ==> (
            (current == GameState::START && next == GameState::RUNNING
                && kinds.contains(GameStateEnum::StartGame))
            || (current == GameState::RUNNING && next == GameState::STOP
                && kinds.contains(GameStateEnum::PlayerDeath))),
        (current == GameState::PAUSE || current == GameState::STOP) ==> requested_state(
            current,
            kinds,
        ) is None,
    decreases kinds.len(),
{
    if kinds.len() > 0 {
        lemma_requested_state_follows_transitions(current, kinds.drop_last());
        if transition(kinds.last(), current) is Some {
            assert(kinds[kinds.len() - 1] == kinds.last());
        } else if requested_state(current, kinds.drop_last()) is Some {
            let k = if current == GameState::START {
                GameStateEnum::StartGame
            } else {
                GameStateEnum::PlayerDeath
            };
            let j = choose|j: int| 0 <= j < kinds.drop_last().len() && kinds.drop_last()[j] == k;
            assert(kinds[j] == k);
        }
    }
}

/// Law: a start request in `START`, or a death report in `RUNNING`, always
/// yields a state change, whatever the other messages are.
pub proof fn lemma_applicable_message_changes_state(
    current: GameState,
    kinds: Seq<GameStateEnum>,
    i: int,
)
    requires
        0 <= i < kinds.len(),
        transition(kinds[i], current) is Some,
    ensures
        requested_state(current, kinds) == Some(transition(kinds[i], current)->0),
    decreases kinds.len(),
{
    if i < kinds.len() - 1 {
        assert(kinds.drop_last()[i] == kinds[i]);
        lemma_applicable_message_changes_state(current, kinds.drop_last(), i);
        if transition(kinds.last(), current) is Some {
            assert(kinds.last() == kinds[kinds.len() - 1]);
        }
    } else {
        assert(kinds.last() == kinds[i]);
    }
}

} // verus!
