//! Levels and the steps of loading one: request, scene swap, and the report
//! that the level's root node entered the scene tree.

use vstd::prelude::*;
use crate::gamestate::EntityId;

verus! {

/// A level of the game.
#[derive(Clone, Copy, Debug, PartialEq, Eq, Hash, Structural)]
pub enum LevelId {
    Level0,
    Level1,
}

impl Default for LevelId {
    fn default() -> (l: Self)
        ensures
            l == LevelId::Level1,
    {
        LevelId::Level1
    }
}

/// The scene file of the level.
pub open spec fn scene_path_of(level: LevelId) -> Seq<char> {
    match level {
        LevelId::Level0 => "scenes/levels/Level0.tscn"@,
        LevelId::Level1 => "scenes/levels/Level1.tscn"@,
    }
}

/// The path of the level's root node in the scene tree.
pub open spec fn root_node_path_of(level: LevelId) -> Seq<char> {
    match level {
        LevelId::Level0 => "/root/Level0"@,
        LevelId::Level1 => "/root/Level1"@,
    }
}

/// The name shown to the player.
pub open spec fn display_name_of(level: LevelId) -> Seq<char> {
    match level {
        LevelId::Level0 => "Level 0"@,
        LevelId::Level1 => "Level 1"@,
    }
}

impl LevelId {
    /// The Godot scene path of this level.
    pub fn scene_path(&self) -> (p: &'static str)
        ensures
            p@ == scene_path_of(*self),
    {
        match self {
            LevelId::Level0 => "scenes/levels/Level0.tscn",
            LevelId::Level1 => "scenes/levels/Level1.tscn",
        }
    }

    /// The path of the level's root node once it is in the scene tree.
    pub fn root_node_path(&self) -> (p: &'static str)
        ensures
            p@ == root_node_path_of(*self),
    {
        match self {
            LevelId::Level0 => "/root/Level0",
            LevelId::Level1 => "/root/Level1",
        }
    }

    /// The display name for the user interface.
    pub fn display_name(&self) -> (p: &'static str)
        ensures
            p@ == display_name_of(*self),
    {
        match self {
            LevelId::Level0 => "Level 0",
            LevelId::Level1 => "Level 1",
        }
    }
}

/// The path of the score label of a level.
pub fn score_label_path(level: LevelId) -> (p: String)
    ensures
        p@ == root_node_path_of(level) + "/ScoreLabel"@,
{
    let mut p = String::from_str(level.root_node_path());
    p.append("/ScoreLabel");
    p
}

/// The level in play.
pub struct CurrentLevel {
    pub level_id: LevelId,
    /// The entity that holds the spawned scene of the level.
    pub entity: Option<EntityId>,
}

impl Default for CurrentLevel {
    fn default() -> (c: Self)
        ensures
            c.level_id == LevelId::Level1,
            c.entity is None,
    {
        CurrentLevel { level_id: LevelId::Level1, entity: None }
    }
}

impl CurrentLevel {
    /// Sets the current level.
    pub fn set(&mut self, level_id: LevelId)
        ensures
            final(self).level_id == level_id,
            final(self).entity == old(self).entity,
    {
        self.level_id = level_id;
    }

    /// Clears the current level state.
    pub fn clear(&mut self)
        ensures
            final(self).level_id == LevelId::Level0,
            final(self).entity is None,
    {
        self.level_id = LevelId::Level0;
        self.entity = None;
    }

    /// Records the entity of the scene that was spawned for the level.
    pub fn attach(&mut self, entity: EntityId)
        ensures
            final(self).level_id == old(self).level_id,
            final(self).entity == Some(entity),
    {
        self.entity = Some(entity);
    }
}

/// A level whose scene was spawned and whose root node is awaited.
pub struct PendingLevel {
    pub level_id: Option<LevelId>,
}

impl Default for PendingLevel {
    fn default() -> (p: Self)
        ensures
            p.level_id is None,
    {
        PendingLevel { level_id: None }
    }
}

/// The loading of a level scene.
pub struct LevelLoadingState {
    /// A scene asset was requested and not spawned yet.
    pub loading: bool,
    /// The menu scene that the game starts with was removed.
    pub menu_cleared: bool,
}

impl Default for LevelLoadingState {
    fn default() -> (s: Self)
        ensures
            !s.loading,
            !s.menu_cleared,
    {
        LevelLoadingState { loading: false, menu_cleared: false }
    }
}

/// What to do in the scene tree to show a loaded level.
#[derive(Clone, Copy, Debug, PartialEq, Eq, Structural)]
pub struct SceneSwap {
    /// The scene entity of the previous level, to remove.
    pub despawn: Option<EntityId>,
    /// Remove the menu scene that the game starts with.
    pub clear_menu: bool,
    /// The level to spawn.
    pub level_id: LevelId,
}

/// What a level request does: the scene asset starts loading and the
/// requested level becomes the current one; the rest stays.
pub open spec fn request_effect(
    level_id: LevelId,
    loading: LevelLoadingState,
    current: CurrentLevel,
    loading_after: LevelLoadingState,
    current_after: CurrentLevel,
) -> bool {
    &&& loading_after.loading
    &&& loading_after.menu_cleared == loading.menu_cleared
    &&& current_after.level_id == level_id
    &&& current_after.entity == current.entity
}

/// A level was requested: its scene asset starts loading and it becomes the
/// current level.
pub fn on_load_level_request(
    level_id: LevelId,
    loading: &mut LevelLoadingState,
    current: &mut CurrentLevel,
)
    ensures
        request_effect(level_id, *old(loading), *old(current), *final(loading), *final(current)),
{
    loading.loading = true;
    current.set(level_id);
}

/// What the scene change does. While no scene is loading or the asset is not
/// ready, nothing changes and no swap is planned. Otherwise the swap removes
/// the previous level scene, removes the start menu the first time, and
/// spawns the current level, which becomes pending; loading ends.
pub open spec fn scene_change_effect(
    asset_ready: bool,
    current: CurrentLevel,
    loading: LevelLoadingState,
    pending: PendingLevel,
    swap: Option<SceneSwap>,
    current_after: CurrentLevel,
    loading_after: LevelLoadingState,
    pending_after: PendingLevel,
) -> bool {
    &&& current_after.level_id == current.level_id
    &&& if loading.loading && asset_ready {
        &&& swap == Some(
            SceneSwap {
                despawn: current.entity,
                clear_menu: !loading.menu_cleared,
                level_id: current.level_id,
            },
        )
        &&& !loading_after.loading
        &&& loading_after.menu_cleared
        &&& current_after.entity is None
        &&& pending_after.level_id == Some(current.level_id)
    } else {
        &&& swap is None
        &&& loading_after == loading
        &&& current_after.entity == current.entity
        &&& pending_after.level_id == pending.level_id
    }
}

/// Once the requested scene asset is ready, plans the swap: the previous
/// level scene goes, the start menu goes the first time, and the current
/// level becomes pending until its root node appears. Nothing happens while
/// no scene is loading or the asset is not ready.
pub fn handle_level_scene_change(
    asset_ready: bool,
    current: &mut CurrentLevel,
    loading: &mut LevelLoadingState,
    pending: &mut PendingLevel,
) -> (swap: Option<SceneSwap>)
    ensures
        scene_change_effect(
            asset_ready,
            *old(current),
            *old(loading),
            *old(pending),
            swap,
            *final(current),
            *final(loading),
            *final(pending),
        ),
{
    if !loading.loading || !asset_ready {
        return None;
    }
    let despawn = current.entity;
    current.entity = None;
    let clear_menu = !loading.menu_cleared;
    loading.menu_cleared = true;
    pending.level_id = Some(current.level_id);
    loading.loading = false;
    Some(SceneSwap { despawn, clear_menu, level_id: current.level_id })
}

/// What reading the paths of the nodes that entered the scene tree does: when
/// the root node of the pending level is among them, that level is reported
/// loaded and is no longer pending; otherwise nothing is reported and nothing
/// changes.
pub open spec fn loaded_effect(
    pending: PendingLevel,
    added_paths: Seq<Seq<char>>,
    loaded: Option<LevelId>,
    pending_after: PendingLevel,
) -> bool {
    match pending.level_id {
        Some(l) => if added_paths.contains(root_node_path_of(l)) {
            loaded == Some(l) && pending_after.level_id is None
        } else {
            loaded is None && pending_after.level_id == Some(l)
        },
        None => loaded is None && pending_after.level_id is None,
    }
}

/// Reads the paths of the nodes that entered the scene tree: when the root
/// node of the pending level is among them, the level is loaded and no
/// longer pending.
pub fn level_loaded(pending: &mut PendingLevel, added_paths: &Vec<String>) -> (loaded: Option<
    LevelId,
>)
    ensures
        loaded_effect(
            *old(pending),
            added_paths@.map_values(|p: String| p@),
            loaded,
            *final(pending),
        ),
{
    let level = match pending.level_id {
        Some(l) => l,
        None => {
            return None;
        },
    };
    let expected = String::from_str(level.root_node_path());
    let ghost paths = added_paths@.map_values(|p: String| p@);
    let mut i: usize = 0;
    while i < added_paths.len()
        invariant
            i <= added_paths.len(),
            paths == added_paths@.map_values(|p: String| p@),
            old(pending).level_id == Some(level),
            pending.level_id == Some(level),
            expected@ == root_node_path_of(level),
            forall|j: int| 0 <= j < i ==> paths[j] != expected@,
        decreases added_paths.len() - i,
    {
        assert(paths[i as int] == added_paths@[i as int]@);
        if added_paths[i].eq(&expected) {
            assert(paths[i as int] == expected@);
            assert(paths.contains(root_node_path_of(level)));
            pending.level_id = None;
            return Some(level);
        }
        i += 1;
    }
    proof {
        if paths.contains(root_node_path_of(level)) {
            let j = choose|j: int| 0 <= j < paths.len() && paths[j] == root_node_path_of(level);
            assert(paths[j] != expected@);
        }
    }
    None
}

/// Law: a requested level, once its scene asset is ready, is swapped in in
/// place of the previous level scene, and is reported loaded as soon as its
/// root node enters the scene tree.
pub proof fn lemma_requested_level_is_loaded(
    level_id: LevelId,
    loading: LevelLoadingState,
    current: CurrentLevel,
    pending: PendingLevel,
    loading_requested: LevelLoadingState,
    current_requested: CurrentLevel,
    swap: Option<SceneSwap>,
    loading_swapped: LevelLoadingState,
    current_swapped: CurrentLevel,
    pending_swapped: PendingLevel,
    added_paths: Seq<Seq<char>>,
    loaded: Option<LevelId>,
    pending_loaded: PendingLevel,
)
    requires
        request_effect(level_id, loading, current, loading_requested, current_requested),
        scene_change_effect(
            true,
            current_requested,
            loading_requested,
            pending,
            swap,
            current_swapped,
            loading_swapped,
            pending_swapped,
        ),
        loaded_effect(pending_swapped, added_paths, loaded, pending_loaded),
        added_paths.contains(root_node_path_of(level_id)),
    ensures
        swap == Some(
            SceneSwap {
                despawn: current.entity,
                clear_menu: !loading.menu_cleared,
                level_id,
            },
        ),
        current_swapped.level_id == level_id,
        !loading_swapped.loading,
        loaded == Some(level_id),
        pending_loaded.level_id is None,
{
}

} // verus!
