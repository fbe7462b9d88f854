use bullets_on_wheels::combat::{
    handle_character_zero_health, resolve_projectile_hit, CollisionStartedDomain, ContactFacts,
    HitOutcome,
};
use bullets_on_wheels::ctrlc::{set_handler, try_set_handler, Error};
use bullets_on_wheels::enemy::EnemyType;
use bullets_on_wheels::gamestate::{
    aggregate_message_system, state_machine_system, transition_for, AppState, GameState,
    GameStateEnum, GameStateMessage, InGameState, StartGameMessage,
};
use bullets_on_wheels::input::{handle_keyboard, key_just_pressed, KeyState, PauseRequest};
use bullets_on_wheels::level::{
    handle_level_scene_change, level_loaded, on_load_level_request, score_label_path,
    CurrentLevel, LevelId, LevelLoadingState, PendingLevel, SceneSwap,
};
use bullets_on_wheels::menu::{
    exit_pause, handle_button_system, ButtonType, MenuCommand, MenuHandles, PauseExit,
};
use bullets_on_wheels::text::{chars_of, lines_of, parse_u32_chars, trim_chars};
use bullets_on_wheels::weapon::WeaponKind;

fn projectile(shooter: Option<u64>) -> ContactFacts {
    ContactFacts { is_projectile: true, has_health: false, health_depleted: false, shooter }
}

fn character(depleted: bool) -> ContactFacts {
    ContactFacts { is_projectile: false, has_health: true, health_depleted: depleted, shooter: None }
}

fn wall() -> ContactFacts {
    ContactFacts { is_projectile: false, has_health: false, health_depleted: false, shooter: None }
}

fn chars(s: &str) -> Vec<char> {
    s.chars().collect()
}

#[test]
fn defaults_of_the_states() {
    assert_eq!(AppState::default(), AppState::RUNNING);
    assert_eq!(InGameState::default(), InGameState::RUNNING);
    assert_eq!(GameState::default(), GameState::START);
    assert_eq!(LevelId::default(), LevelId::Level1);
    assert_eq!(WeaponKind::default(), WeaponKind::GUN);
    assert_eq!(EnemyType::default(), EnemyType::Hunter);
    assert_eq!(ButtonType::default(), ButtonType::START);
}

#[test]
fn game_state_transitions() {
    assert_eq!(transition_for(GameStateEnum::StartGame, GameState::START), Some(GameState::RUNNING));
    assert_eq!(transition_for(GameStateEnum::PlayerDeath, GameState::RUNNING), Some(GameState::STOP));
    assert_eq!(transition_for(GameStateEnum::PlayerDeath, GameState::START), None);
    assert_eq!(transition_for(GameStateEnum::StartGame, GameState::STOP), None);
}

#[test]
fn state_machine_reads_all_messages() {
    let msgs = aggregate_message_system(&vec![GameStateEnum::PlayerDeath, GameStateEnum::StartGame]);
    assert_eq!(msgs.len(), 2);
    assert_eq!(msgs[1].get_kind(), GameStateEnum::StartGame);
    assert_eq!(state_machine_system(GameState::START, &msgs), Some(GameState::RUNNING));
    assert_eq!(state_machine_system(GameState::RUNNING, &msgs), Some(GameState::STOP));
    assert_eq!(state_machine_system(GameState::PAUSE, &msgs), None);
    assert_eq!(state_machine_system(GameState::START, &vec![]), None);
}

#[test]
fn start_message_converts_to_start_game() {
    let kind: GameStateEnum = (&StartGameMessage).into();
    assert_eq!(kind, GameStateEnum::StartGame);
    assert_eq!(GameStateMessage::new(kind).get_kind(), GameStateEnum::StartGame);
}

#[test]
fn projectile_as_second_entity_hits_first() {
    let c = CollisionStartedDomain { entity1: 10, entity2: 20 };
    assert_eq!(
        resolve_projectile_hit(c, character(false), projectile(Some(30))),
        HitOutcome::Hit { target: 10, projectile: 20, shooter: 30 }
    );
}

#[test]
fn projectile_as_first_entity_hits_second() {
    let c = CollisionStartedDomain { entity1: 20, entity2: 10 };
    assert_eq!(
        resolve_projectile_hit(c, projectile(Some(30)), character(false)),
        HitOutcome::Hit { target: 10, projectile: 20, shooter: 30 }
    );
}

#[test]
fn every_collision_outcome() {
    let c = CollisionStartedDomain { entity1: 1, entity2: 2 };
    assert_eq!(resolve_projectile_hit(c, wall(), character(false)), HitOutcome::NotAProjectile);
    assert_eq!(resolve_projectile_hit(c, wall(), projectile(Some(3))), HitOutcome::TargetWithoutHealth);
    assert_eq!(resolve_projectile_hit(c, character(false), projectile(None)), HitOutcome::ProjectileWithoutShooter);
    assert_eq!(resolve_projectile_hit(c, character(false), projectile(Some(1))), HitOutcome::SelfHit);
    assert_eq!(resolve_projectile_hit(c, character(true), projectile(Some(3))), HitOutcome::TargetAlreadyDead);
}

#[test]
fn player_death_is_defeat() {
    let out = handle_character_zero_health(Some(7), &vec![3, 7]);
    assert!(out.defeat);
    assert_eq!(out.despawn, vec![3, 7]);
    let out = handle_character_zero_health(Some(7), &vec![3]);
    assert!(!out.defeat);
    assert_eq!(out.despawn, vec![3]);
    let out = handle_character_zero_health(None, &vec![3]);
    assert!(!out.defeat);
    assert!(out.despawn.is_empty());
}

#[test]
fn keyboard_direction_and_pause() {
    let keys = KeyState { up: true, left: true, down: false, right: false, delete: false, escape: true };
    let out = handle_keyboard(keys, false, InGameState::RUNNING);
    assert_eq!((out.dx, out.dy), (-1, -1));
    assert_eq!(out.pause, Some(PauseRequest::Pause));
    assert!(out.escape_was_pressed);
    let held = handle_keyboard(keys, true, InGameState::RUNNING);
    assert_eq!(held.pause, None);
    let resume = handle_keyboard(keys, false, InGameState::PAUSED);
    assert_eq!(resume.pause, Some(PauseRequest::ExitPause));
}

#[test]
fn opposite_keys_cancel_and_delete_exits() {
    let keys = KeyState { up: true, left: true, down: true, right: true, delete: true, escape: false };
    let out = handle_keyboard(keys, true, InGameState::RUNNING);
    assert_eq!((out.dx, out.dy), (0, 0));
    assert!(out.exit_requested);
    assert_eq!(out.pause, None);
    assert!(!out.escape_was_pressed);
    assert!(key_just_pressed(true, false));
    assert!(!key_just_pressed(true, true));
}

#[test]
fn level_paths() {
    assert_eq!(LevelId::Level0.scene_path(), "scenes/levels/Level0.tscn");
    assert_eq!(LevelId::Level1.scene_path(), "scenes/levels/Level1.tscn");
    assert_eq!(LevelId::Level0.root_node_path(), "/root/Level0");
    assert_eq!(LevelId::Level1.root_node_path(), "/root/Level1");
    assert_eq!(LevelId::Level0.display_name(), "Level 0");
    assert_eq!(LevelId::Level1.display_name(), "Level 1");
    assert_eq!(score_label_path(LevelId::Level1), "/root/Level1/ScoreLabel");
}

#[test]
fn current_level_set_and_clear() {
    let mut c = CurrentLevel::default();
    c.attach(4);
    c.set(LevelId::Level0);
    assert_eq!((c.level_id, c.entity), (LevelId::Level0, Some(4)));
    c.set(LevelId::Level1);
    c.clear();
    assert_eq!((c.level_id, c.entity), (LevelId::Level0, None));
}

#[test]
fn level_loading_round() {
    let mut current = CurrentLevel::default();
    let mut loading = LevelLoadingState::default();
    let mut pending = PendingLevel::default();
    current.attach(11);
    on_load_level_request(LevelId::Level0, &mut loading, &mut current);
    assert_eq!(handle_level_scene_change(false, &mut current, &mut loading, &mut pending), None);
    let swap = handle_level_scene_change(true, &mut current, &mut loading, &mut pending);
    assert_eq!(swap, Some(SceneSwap { despawn: Some(11), clear_menu: true, level_id: LevelId::Level0 }));
    assert_eq!(handle_level_scene_change(true, &mut current, &mut loading, &mut pending), None);
    current.attach(12);
    assert_eq!(pending.level_id, Some(LevelId::Level0));
    assert_eq!(level_loaded(&mut pending, &vec!["/root/Other".to_string()]), None);
    assert_eq!(pending.level_id, Some(LevelId::Level0));
    assert_eq!(
        level_loaded(&mut pending, &vec!["/root/Other".to_string(), "/root/Level0".to_string()]),
        Some(LevelId::Level0)
    );
    assert_eq!(pending.level_id, None);
    assert_eq!(level_loaded(&mut pending, &vec!["/root/Level0".to_string()]), None);
    on_load_level_request(LevelId::Level1, &mut loading, &mut current);
    let swap = handle_level_scene_change(true, &mut current, &mut loading, &mut pending);
    assert_eq!(swap, Some(SceneSwap { despawn: Some(12), clear_menu: false, level_id: LevelId::Level1 }));
}

#[test]
fn menu_buttons() {
    assert_eq!(handle_button_system(false, true, Some(ButtonType::START), None), Some(MenuCommand::LoadLevel(LevelId::Level1)));
    assert_eq!(handle_button_system(true, false, None, Some(ButtonType::EXIT)), Some(MenuCommand::Defeat));
    assert_eq!(handle_button_system(true, false, None, Some(ButtonType::SETTINGS)), None);
    assert_eq!(handle_button_system(false, false, Some(ButtonType::START), Some(ButtonType::START)), None);
    assert_eq!(handle_button_system(false, true, None, Some(ButtonType::START)), None);
}

#[test]
fn menu_handles_lifecycle() {
    let mut m = MenuHandles::default();
    m.connect_menu_buttons();
    assert!(!m.signals_connected);
    m.init_menu(1, 2);
    assert!(m.initialized);
    m.connect_menu_buttons();
    assert!(m.signals_connected);
    m.reset_menu();
    assert!(!m.initialized && !m.signals_connected && m.restart_button.is_none() && m.exit_button.is_none());
}

fn connected_handles() -> Option<MenuHandles> {
    let mut m = MenuHandles::default();
    m.init_menu(1, 2);
    m.connect_menu_buttons();
    Some(m)
}

fn is_connected(h: &Option<MenuHandles>) -> bool {
    match h {
        Some(m) => m.initialized && m.signals_connected && m.restart_button == Some(1) && m.exit_button == Some(2),
        None => false,
    }
}

#[test]
fn exit_pause_removes_menu_resumes_and_resets_handles() {
    let mut handles = connected_handles();
    let out = exit_pause(InGameState::PAUSED, Some(3), &mut handles);
    assert_eq!(out, PauseExit { despawn: Some(3), next_state: Some(InGameState::RUNNING) });
    let m = handles.unwrap();
    assert!(!m.initialized && !m.signals_connected && m.restart_button.is_none() && m.exit_button.is_none());
}

#[test]
fn exit_pause_does_nothing_outside_pause_or_without_menu_or_handles() {
    let nothing = PauseExit { despawn: None, next_state: None };
    let mut handles = connected_handles();
    assert_eq!(exit_pause(InGameState::RUNNING, Some(3), &mut handles), nothing);
    assert!(is_connected(&handles));
    assert_eq!(exit_pause(InGameState::PAUSED, None, &mut handles), nothing);
    assert!(is_connected(&handles));
    let mut none: Option<MenuHandles> = None;
    assert_eq!(exit_pause(InGameState::PAUSED, Some(3), &mut none), nothing);
    assert!(none.is_none());
}

#[test]
fn ctrlc_handlers_always_succeed() {
    assert!(set_handler(|| {}).is_ok());
    assert!(try_set_handler(|| {}).is_ok());
    assert_eq!(Error::MultipleHandlers.describe(), "Ctrl-C handler already set");
    let sys = Error::System(std::io::Error::new(std::io::ErrorKind::Other, "boom"));
    assert_eq!(sys.describe(), "system error: boom");
}

#[test]
fn text_helpers() {
    assert_eq!(chars_of("h\u{00e9}"), vec!['h', '\u{00e9}']);
    assert_eq!(trim_chars(&chars(" \t a b \n")), chars("a b"));
    assert_eq!(trim_chars(&chars("   ")), Vec::<char>::new());
    assert_eq!(parse_u32_chars(&chars("007")), Some(7));
    assert_eq!(parse_u32_chars(&chars("4294967295")), Some(u32::MAX));
    assert_eq!(parse_u32_chars(&chars("")), None);
    assert_eq!(parse_u32_chars(&chars("-1")), None);
    let lines = lines_of(&chars("a\r\nb\n\nc\r"));
    assert_eq!(lines, vec![chars("a"), chars("b"), chars(""), chars("c\r")]);
    assert!(lines_of(&chars("")).is_empty());
}
