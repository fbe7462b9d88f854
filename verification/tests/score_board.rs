use bullets_on_wheels::gamestate::EntityId;
use bullets_on_wheels::score::{
    parse_score_board, parse_score_line, score_board_line, score_tracker, sort_entries,
    update_high_score, LiveScore, ScoreBoard, ScoreBoardEntry,
};

fn chars(s: &str) -> Vec<char> {
    s.chars().collect()
}

fn entry(name: &str, score: i32) -> ScoreBoardEntry {
    ScoreBoardEntry { name: name.to_string(), score }
}

fn records(board: &ScoreBoard) -> Vec<(String, i32)> {
    board.entries.iter().map(|e| (e.name.clone(), e.score)).collect()
}

#[test]
fn live_score_starts_unknown() {
    let s = LiveScore::default();
    assert_eq!(s.count, 0);
    assert_eq!(s.highscore, -1);
    assert!(!s.is_new_highscore);
}

#[test]
fn empty_board_has_high_score_zero() {
    assert_eq!(ScoreBoard::default().get_high_score(), 0);
}

#[test]
fn high_score_is_best_entry() {
    let board = ScoreBoard { entries: vec![entry("a", 3), entry("b", 9), entry("c", 9), entry("d", -4)] };
    assert_eq!(board.get_high_score(), 9);
    let negative = ScoreBoard { entries: vec![entry("a", -3), entry("b", -1)] };
    assert_eq!(negative.get_high_score(), -1);
}

#[test]
fn init_score_takes_board_high_score_once() {
    let board = ScoreBoard { entries: vec![entry("a", 7)] };
    let mut s = LiveScore::default();
    s.init_score(&board);
    assert_eq!(s.highscore, 7);
    let other = ScoreBoard { entries: vec![entry("a", 12)] };
    s.init_score(&other);
    assert_eq!(s.highscore, 7);
}

#[test]
fn kills_by_player_raise_score_and_high_score() {
    let player: EntityId = 5;
    let mut s = LiveScore { count: 0, highscore: 1, is_new_highscore: false };
    score_tracker(&mut s, Some(player), &vec![5, 8, 5]);
    assert_eq!(s.count, 2);
    assert_eq!(s.highscore, 2);
    assert!(s.is_new_highscore);
}

#[test]
fn kills_below_high_score_keep_it() {
    let mut s = LiveScore { count: 0, highscore: 4, is_new_highscore: false };
    score_tracker(&mut s, Some(1), &vec![1, 1, 2]);
    assert_eq!(s.count, 2);
    assert_eq!(s.highscore, 4);
    assert!(!s.is_new_highscore);
}

#[test]
fn kills_without_player_do_not_count() {
    let mut s = LiveScore::default();
    score_tracker(&mut s, None, &vec![1, 2, 3]);
    assert_eq!(s.count, 0);
    assert_eq!(s.highscore, -1);
}

#[test]
fn tracking_in_two_batches_equals_one_batch() {
    let mut a = LiveScore { count: 2, highscore: 3, is_new_highscore: false };
    let mut b = LiveScore { count: 2, highscore: 3, is_new_highscore: false };
    score_tracker(&mut a, Some(9), &vec![9, 9, 9]);
    score_tracker(&mut b, Some(9), &vec![9]);
    score_tracker(&mut b, Some(9), &vec![9, 9]);
    assert_eq!((a.count, a.highscore, a.is_new_highscore), (b.count, b.highscore, b.is_new_highscore));
    assert_eq!((a.count, a.highscore), (5, 5));
}

#[test]
fn record_kill_on_first_kill_sets_high_score() {
    let mut s = LiveScore::default();
    s.record_kill();
    assert_eq!((s.count, s.highscore, s.is_new_highscore), (1, 1, true));
}

#[test]
fn update_high_score_keeps_the_larger() {
    assert_eq!(update_high_score(3, 7), 7);
    assert_eq!(update_high_score(8, 7), 8);
    assert_eq!(update_high_score(7, 7), 7);
}

#[test]
fn sort_is_descending_and_stable() {
    let sorted = sort_entries(vec![entry("a", 1), entry("b", 5), entry("c", 1), entry("d", 5), entry("e", 3)]);
    let names: Vec<&str> = sorted.iter().map(|e| e.name.as_str()).collect();
    assert_eq!(names, vec!["b", "d", "e", "a", "c"]);
}

#[test]
fn record_score_inserts_after_equal_scores() {
    let mut board = ScoreBoard { entries: vec![entry("x", 9), entry("y", 4), entry("z", 1)] };
    board.record_score("new".to_string(), 4);
    assert_eq!(records(&board), vec![
        ("x".to_string(), 9),
        ("y".to_string(), 4),
        ("new".to_string(), 4),
        ("z".to_string(), 1),
    ]);
}

#[test]
fn parse_line_trims_name_and_score() {
    let e = parse_score_line(&chars("  Alice \t, 42 ")).unwrap();
    assert_eq!(e.name, "Alice");
    assert_eq!(e.score, 42);
}

#[test]
fn parse_line_splits_at_first_comma() {
    assert!(parse_score_line(&chars("a,b,3")).is_none());
    let e = parse_score_line(&chars("a,+3")).unwrap();
    assert_eq!((e.name.as_str(), e.score), ("a", 3));
}

#[test]
fn parse_line_rejects_bad_records() {
    assert!(parse_score_line(&chars("no comma here")).is_none());
    assert!(parse_score_line(&chars("bob,")).is_none());
    assert!(parse_score_line(&chars("bob,-3")).is_none());
    assert!(parse_score_line(&chars("bob,+")).is_none());
    assert!(parse_score_line(&chars("bob,4294967296")).is_none());
    assert!(parse_score_line(&chars("bob,1 2")).is_none());
}

#[test]
fn parse_line_keeps_u32_scores_as_wrapped_i32() {
    let e = parse_score_line(&chars("max,4294967295")).unwrap();
    assert_eq!(e.score, -1);
    let e = parse_score_line(&chars("big,2147483648")).unwrap();
    assert_eq!(e.score, i32::MIN);
}

#[test]
fn parse_board_skips_bad_lines_and_sorts() {
    let board = parse_score_board("ann,3\r\nbroken\nbob,10\n\ncid,3\nlast,7");
    assert_eq!(records(&board), vec![
        ("bob".to_string(), 10),
        ("last".to_string(), 7),
        ("ann".to_string(), 3),
        ("cid".to_string(), 3),
    ]);
}

#[test]
fn parse_board_of_empty_text_is_empty() {
    assert!(parse_score_board("").entries.is_empty());
    assert!(parse_score_board("\n\n").entries.is_empty());
}

#[test]
fn parse_board_handles_unicode_names() {
    let board = parse_score_board("J\u{00f6}rg\u{3000},5\n");
    assert_eq!(records(&board), vec![("J\u{00f6}rg".to_string(), 5)]);
}

#[test]
fn score_board_line_format() {
    assert_eq!(score_board_line("Alice", 42), "Alice,42");
    assert_eq!(score_board_line("Bob", 0), "Bob,0");
    assert_eq!(score_board_line("Neg", -7), "Neg,-7");
    assert_eq!(score_board_line("Min", i32::MIN), "Min,-2147483648");
}

#[test]
fn saved_score_is_read_back() {
    let before = "ann,3\nbob,10\n";
    let mut text = before.to_string();
    text.push_str(&score_board_line(" Zoe ", 7));
    text.push('\n');
    let loaded = parse_score_board(&text);
    let mut kept = parse_score_board(before);
    kept.record_score("Zoe".to_string(), 7);
    assert_eq!(records(&loaded), records(&kept));
    assert_eq!(records(&loaded)[1], ("Zoe".to_string(), 7));
}

#[test]
fn saved_score_is_read_back_after_a_blank_unterminated_line() {
    let before = "ann,3\nbob,10\n \t";
    let mut text = before.to_string();
    text.push_str(&score_board_line("Zoe", 7));
    text.push('\n');
    let loaded = parse_score_board(&text);
    let mut kept = parse_score_board(before);
    kept.record_score("Zoe".to_string(), 7);
    assert_eq!(records(&loaded), records(&kept));
    assert_eq!(records(&loaded)[1], ("Zoe".to_string(), 7));
}

#[test]
fn saved_score_after_an_unterminated_record_is_lost() {
    let before = "ann,3";
    let mut text = before.to_string();
    text.push_str(&score_board_line("Zoe", 7));
    text.push('\n');
    assert!(records(&parse_score_board(&text)).is_empty());
}

#[test]
fn leader_board_shows_five_best() {
    let board = ScoreBoard {
        entries: vec![entry("a", 9), entry("b", 8), entry("c", 7), entry("d", 6), entry("e", 5), entry("f", 4)],
    };
    let text = board.prepare_leader_board_content();
    let header = "[table=3][cell][left][b]Rank[/b][/left][/cell][cell][left][b]Name[/b][/left][/cell][cell][right][b]Score[/b][/right][/cell]";
    assert!(text.starts_with(header));
    assert!(text.ends_with("[/table]"));
    assert!(text.contains("[cell][left]1.[/left][/cell][cell][left]a[/left][/cell][cell][right]9[/right][/cell]"));
    assert!(text.contains("[cell][left]5.[/left][/cell][cell][left]e[/left][/cell][cell][right]5[/right][/cell]"));
    assert!(!text.contains("[left]f[/left]"));
}

#[test]
fn leader_board_of_empty_board_is_header_only() {
    let text = ScoreBoard::default().prepare_leader_board_content();
    assert_eq!(
        text,
        "[table=3][cell][left][b]Rank[/b][/left][/cell][cell][left][b]Name[/b][/left][/cell][cell][right][b]Score[/b][/right][/cell][/table]"
    );
}

#[test]
fn score_label_text() {
    let s = LiveScore { count: 12, highscore: 30, is_new_highscore: false };
    assert_eq!(s.label_text(), "Score: 12\nHigh Score: 30");
    assert_eq!(LiveScore::default().label_text(), "Score: 0\nHigh Score: -1");
}
