//! Score keeping during a level and the persistent score board.

use vstd::prelude::*;
use crate::gamestate::EntityId;
use crate::text::{
    lemma_parse_decimal, lemma_text_lines_append, is_digit, lemma_decimal, lemma_last_line_start,
    lemma_text_lines_blank_tail, lemma_trim_after_blank, last_line_blank, is_whitespace,
    chars_of, decimal, lines_of, parse_u32, parse_u32_chars, push_char, push_decimal,
    push_signed_decimal, signed_decimal, string_from_chars, text_lines, trim, trim_chars,
};

verus! {

/// A board record: the player's name and the score.
pub type Record = (Seq<char>, i32);

/// The score of the running level.
pub struct LiveScore {
    pub count: i32,
    /// `-1` until it is taken from the score board.
    pub highscore: i32,
    pub is_new_highscore: bool,
}

impl Default for LiveScore {
    fn default() -> (s: Self)
        ensures
            s.count == 0,
            s.highscore == -1,
            !s.is_new_highscore,
    {
        LiveScore { count: 0, highscore: -1, is_new_highscore: false }
    }
}

/// One line of the score board.
pub struct ScoreBoardEntry {
    pub name: String,
    pub score: i32,
}

impl View for ScoreBoardEntry {
    type V = Record;

    open spec fn view(&self) -> Record {
        (self.name@, self.score)
    }
}

/// The score board, best score first.
pub struct ScoreBoard {
    pub entries: Vec<ScoreBoardEntry>,
}

impl View for ScoreBoard {
    type V = Seq<Record>;

    open spec fn view(&self) -> Seq<Record> {
        self.entries@.map_values(|e: ScoreBoardEntry| e@)
    }
}

impl Default for ScoreBoard {
    fn default() -> (b: Self)
        ensures
            b@ == Seq::<Record>::empty(),
    {
        let b = ScoreBoard { entries: Vec::new() };
        assert(b@ =~= Seq::<Record>::empty());
        b
    }
}

/// The highest score of the records, `0` when there are none.
pub open spec fn high_score(s: Seq<Record>) -> i32
    decreases s.len(),
{
    if s.len() == 0 {
        0
    } else if s.len() == 1 {
        s[0].1
    } else {
        let m = high_score(s.drop_last());
        if s.last().1 > m {
            s.last().1
        } else {
            m
        }
    }
}

/// The records are ordered by score, best first.
pub open spec fn sorted_by_score(s: Seq<Record>) -> bool {
    forall|i: int, j: int| 0 <= i < j < s.len() ==> s[i].1 >= s[j].1
}

/// `s` with `e` inserted after every record that scores at least as much.
pub open spec fn insert_by_score(s: Seq<Record>, e: Record) -> Seq<Record>
    decreases s.len(),
{
    if s.len() == 0 {
        seq![e]
    } else if s[0].1 >= e.1 {
        seq![s[0]] + insert_by_score(s.drop_first(), e)
    } else {
        seq![e] + s
    }
}

/// The stable sort of the records by descending score.
pub open spec fn sort_by_score(s: Seq<Record>) -> Seq<Record>
    decreases s.len(),
{
    if s.len() == 0 {
        s
    } else {
        insert_by_score(sort_by_score(s.drop_last()), s.last())
    }
}

proof fn lemma_insert_at(s: Seq<Record>, e: Record, pos: int)
    requires
        0 <= pos <= s.len(),
        forall|j: int| 0 <= j < pos ==> #[trigger] s[j].1 >= e.1,
        pos == s.len() || s[pos].1 < e.1,
    ensures
        insert_by_score(s, e) == s.insert(pos, e),
    decreases s.len(),
{
    if s.len() == 0 {
        assert(s.insert(pos, e) =~= seq![e]);
    } else if pos == 0 {
        assert(s.insert(pos, e) =~= seq![e] + s);
    } else {
        let t = s.drop_first();
        assert forall|j: int| 0 <= j < pos - 1 implies #[trigger] t[j].1 >= e.1 by {
            assert(t[j] == s[j + 1]);
        }
        if pos < s.len() {
            assert(t[pos - 1] == s[pos]);
        }
        lemma_insert_at(t, e, pos - 1);
        assert(s.insert(pos, e) =~= seq![s[0]] + t.insert(pos - 1, e));
    }
}

fn insert_position(entries: &Vec<ScoreBoardEntry>, score: i32) -> (pos: usize)
    ensures
        pos <= entries@.len(),
        forall|j: int| 0 <= j < pos ==> #[trigger] entries@[j].score >= score,
        pos == entries@.len() || entries@[pos as int].score < score,
{
    let mut pos: usize = 0;
    while pos < entries.len() && entries[pos].score >= score
        invariant
            pos <= entries@.len(),
            forall|j: int| 0 <= j < pos ==> #[trigger] entries@[j].score >= score,
        decreases entries.len() - pos,
    {
        pos += 1;
    }
    pos
}

/// Stable sort of the entries by descending score.
pub fn sort_entries(entries: Vec<ScoreBoardEntry>) -> (sorted: Vec<ScoreBoardEntry>)
    ensures
        sorted@.map_values(|e: ScoreBoardEntry| e@) == sort_by_score(
            entries@.map_values(|e: ScoreBoardEntry| e@),
        ),
{
    let ghost input = entries@.map_values(|e: ScoreBoardEntry| e@);
    let ghost n = entries@.len();
    let mut rest = entries;
    let mut out: Vec<ScoreBoardEntry> = Vec::new();
    assert(input.take(0) =~= Seq::<Record>::empty());
    assert(out@.map_values(|e: ScoreBoardEntry| e@) =~= Seq::<Record>::empty());
    while rest.len() > 0
        invariant
            input.len() == n,
            rest@.len() <= n,
            rest@.map_values(|e: ScoreBoardEntry| e@) == input.skip(n - rest@.len()),
            out@.map_values(|e: ScoreBoardEntry| e@) == sort_by_score(input.take(n - rest@.len())),
        decreases rest.len(),
    {
        let ghost k = n - rest@.len();
        let ghost before = out@.map_values(|e: ScoreBoardEntry| e@);
        assert(rest@.map_values(|e: ScoreBoardEntry| e@)[0] == input.skip(k)[0]);
        let ghost rest_before = rest@;
        let e = rest.remove(0);
        assert forall|j: int| 0 <= j < rest@.len() implies #[trigger] rest@[j]@ == input.skip(
            k + 1,
        )[j] by {
            assert(rest@[j] == rest_before[j + 1]);
            assert(rest_before.map_values(|e: ScoreBoardEntry| e@)[j + 1] == input.skip(k)[j + 1]);
        }
        assert(rest@.map_values(|e: ScoreBoardEntry| e@) =~= input.skip(k + 1));
        let pos = insert_position(&out, e.score);
        proof {
            assert forall|j: int| 0 <= j < pos implies #[trigger] before[j].1 >= e@.1 by {
                assert(before[j] == out@[j]@);
            }
            if pos < out@.len() {
                assert(before[pos as int] == out@[pos as int]@);
            }
            lemma_insert_at(before, e@, pos as int);
            assert(input.take(k + 1).drop_last() =~= input.take(k));
            assert(input.take(k + 1).last() == e@);
        }
        out.insert(pos, e);
        assert(out@.map_values(|e: ScoreBoardEntry| e@) =~= before.insert(pos as int, e@));
    }
    assert(input.take(n as int) =~= input);
    out
}

impl ScoreBoard {
    /// The best score on the board, `0` when the board is empty.
    pub fn get_high_score(&self) -> (r: i32)
        ensures
            r == high_score(self@),
    {
        let ghost s = self@;
        if self.entries.len() == 0 {
            return 0;
        }
        let mut best = self.entries[0].score;
        let mut i: usize = 1;
        assert(s.take(1) =~= seq![s[0]]);
        while i < self.entries.len()
            invariant
                1 <= i <= self.entries@.len(),
                s == self@,
                best == high_score(s.take(i as int)),
            decreases self.entries.len() - i,
        {
            assert(s.take(i + 1).drop_last() =~= s.take(i as int));
            assert(s.take(i + 1).last() == s[i as int]);
            if self.entries[i].score > best {
                best = self.entries[i].score;
            }
            i += 1;
        }
        assert(s.take(i as int) =~= s);
        best
    }

    /// Adds a record and keeps the board ordered by score.
    pub fn record_score(&mut self, name: String, score: i32)
        ensures
            final(self)@ == sort_by_score(old(self)@.push((name@, score))),
    {
        let ghost prev = self@;
        let mut entries = Vec::new();
        std::mem::swap(&mut entries, &mut self.entries);
        entries.push(ScoreBoardEntry { name, score });
        assert(entries@.map_values(|e: ScoreBoardEntry| e@) =~= prev.push((name@, score)));
        self.entries = sort_entries(entries);
    }
}

/// How often `p` occurs in `s`.
pub open spec fn occurrences(s: Seq<EntityId>, p: EntityId) -> nat
    decreases s.len(),
{
    if s.len() == 0 {
        0
    } else {
        occurrences(s.drop_last(), p) + if s.last() == p {
            1nat
        } else {
            0nat
        }
    }
}

/// The number of kills that count for `player` among the killers `sources`.
pub open spec fn kills(player: Option<EntityId>, sources: Seq<EntityId>) -> nat {
    match player {
        Some(p) => occurrences(sources, p),
        None => 0,
    }
}

impl LiveScore {
    /// The score after `k` more kills.
    pub open spec fn after_kills(self, k: nat) -> LiveScore {
        if k == 0 {
            self
        } else {
            LiveScore {
                count: (self.count + k) as i32,
                highscore: if self.count + k > self.highscore {
                    (self.count + k) as i32
                } else {
                    self.highscore
                },
                is_new_highscore: self.is_new_highscore || self.count + k > self.highscore,
            }
        }
    }

    /// Takes the high score from the board when it is not known yet.
    pub fn init_score(&mut self, board: &ScoreBoard)
        ensures
            old(self).highscore == -1 ==> *final(self) == (LiveScore {
                highscore: high_score(board@),
                ..*old(self)
            }),
            old(self).highscore != -1 ==> *final(self) == *old(self),
    {
        if self.highscore != -1 {
            return;
        }
        self.highscore = board.get_high_score();
    }

    /// One more kill.
    pub fn record_kill(&mut self)
        requires
            old(self).count < i32::MAX,
        ensures
            *final(self) == old(self).after_kills(1),
            final(self).count == old(self).count + 1,
            final(self).is_new_highscore == (old(self).is_new_highscore || old(self).count + 1
                > old(self).highscore),
            final(self).highscore == if old(self).count + 1 > old(self).highscore {
                old(self).count + 1
            } else {
                old(self).highscore as int
            },
    {
        self.count += 1;
        if self.count > self.highscore {
            self.highscore = self.count;
            self.is_new_highscore = true;
        }
    }
}

/// Counts the deaths caused by the player: every message whose killer is the
/// player adds a kill. Without a player nothing counts.
pub fn score_tracker(score: &mut LiveScore, player: Option<EntityId>, sources: &Vec<EntityId>)
    requires
        old(score).count + kills(player, sources@) <= i32::MAX,
    ensures
        *final(score) == old(score).after_kills(kills(player, sources@)),
        final(score).count == old(score).count + kills(player, sources@),
        final(score).is_new_highscore == (old(score).is_new_highscore || (kills(player, sources@)
            > 0 && old(score).count + kills(player, sources@) > old(score).highscore)),
        final(score).highscore == if kills(player, sources@) > 0 && old(score).count + kills(
            player,
            sources@,
        ) > old(score).highscore {
            old(score).count + kills(player, sources@)
        } else {
            old(score).highscore as int
        },
{
    let p = match player {
        Some(p) => p,
        None => {
            return;
        },
    };
    let ghost start = *score;
    let mut i: usize = 0;
    while i < sources.len()
        invariant
            i <= sources.len(),
            player == Some(p),
            start.count + kills(player, sources@) <= i32::MAX,
            *score == start.after_kills(kills(player, sources@.take(i as int))),
        decreases sources.len() - i,
    {
        proof {
            let t = sources@.take(i as int);
            assert(sources@.take(i + 1).drop_last() =~= t);
            lemma_occurrences_prefix(sources@, i as int + 1, p);
        }
        if sources[i] == p {
            score.record_kill();
        }
        i += 1;
    }
    assert(sources@.take(i as int) =~= sources@);
}

proof fn lemma_occurrences_prefix(s: Seq<EntityId>, k: int, p: EntityId)
    requires
        0 <= k <= s.len(),
    ensures
        occurrences(s.take(k), p) <= occurrences(s, p),
    decreases s.len() - k,
{
    if k < s.len() {
        lemma_occurrences_prefix(s, k + 1, p);
        assert(s.take(k + 1).drop_last() =~= s.take(k));
    } else {
        assert(s.take(k) =~= s);
    }
}

/// Law: counting kills in two batches gives the score of counting them at
/// once, and once a kill is counted the high score is at least the score. A
/// new high score is flagged only when the score passes the old high score;
/// reaching it leaves the flag and the high score as they were.
pub proof fn lemma_after_kills(s: LiveScore, a: nat, b: nat)
    requires
        s.count + a + b <= i32::MAX,
    ensures
        s.after_kills(a).after_kills(b) == s.after_kills(a + b),
        a > 0 ==> s.after_kills(a).highscore >= s.after_kills(a).count,
        a > 0 ==> s.after_kills(a).count == s.count + a,
        a > 0 ==> s.after_kills(a).highscore == if s.count + a > s.highscore {
            s.count + a
        } else {
            s.highscore as int
        },
        a > 0 ==> s.after_kills(a).is_new_highscore == (s.is_new_highscore || s.count + a
            > s.highscore),
        a > 0 && s.count + a <= s.highscore ==> s.after_kills(a).is_new_highscore
            == s.is_new_highscore && s.after_kills(a).highscore == s.highscore,
{
}

/// The larger of the score and the known high score.
pub fn update_high_score(score: u32, current_high_score: u32) -> (r: u32)
    ensures
        r == if score > current_high_score {
            score
        } else {
            current_high_score
        },
{
    if score > current_high_score {
        return score;
    }
    current_high_score
}

/// `str::split_once(',')`: the text before and after the first comma.
pub open spec fn split_at_comma(s: Seq<char>) -> Option<(Seq<char>, Seq<char>)> {
    if s.contains(',') {
        let i = choose|i: int|
            0 <= i < s.len() && #[trigger] s[i] == ',' && forall|j: int|
                0 <= j < i ==> #[trigger] s[j] != ',';
        Some((s.take(i), s.skip(i + 1)))
    } else {
        None
    }
}

/// The record a board line holds: `name,score` with the name trimmed and the
/// score an unsigned number, which the board keeps as an `i32`.
pub open spec fn parse_record(line: Seq<char>) -> Option<Record> {
    match split_at_comma(line) {
        Some((name, rest)) => match parse_u32(trim(rest)) {
            Some(u) => Some((trim(name), u as i32)),
            None => None,
        },
        None => None,
    }
}

/// The records of the lines that hold one, in order.
pub open spec fn parse_records(lines: Seq<Seq<char>>) -> Seq<Record>
    decreases lines.len(),
{
    if lines.len() == 0 {
        Seq::empty()
    } else {
        let prev = parse_records(lines.drop_last());
        match parse_record(lines.last()) {
            Some(r) => prev.push(r),
            None => prev,
        }
    }
}

/// The board stored in a score-board file.
pub open spec fn board_of_text(text: Seq<char>) -> Seq<Record> {
    sort_by_score(parse_records(text_lines(text)))
}

/// Reads one board line: `None` when it has no comma or its score is not an
/// unsigned number.
pub fn parse_score_line(line: &[char]) -> (r: Option<ScoreBoardEntry>)
    ensures
        match r {
            Some(e) => parse_record(line@) == Some(e@),
            None => parse_record(line@) is None,
        },
{
    let mut i: usize = 0;
    while i < line.len() && line[i] != ','
        invariant
            i <= line.len(),
            forall|j: int| 0 <= j < i ==> #[trigger] line@[j] != ',',
        decreases line.len() - i,
    {
        i += 1;
    }
    if i == line.len() {
        assert(!line@.contains(','));
        return None;
    }
    proof {
        let c = choose|c: int|
            0 <= c < line@.len() && #[trigger] line@[c] == ',' && forall|j: int|
                0 <= j < c ==> #[trigger] line@[j] != ',';
        assert(line@[i as int] == ',');
        if c < i {
            assert(line@[c] != ',');
        }
        if c > i {
            assert(line@[i as int] != ',');
        }
    }
    let mut name: Vec<char> = Vec::new();
    let mut j: usize = 0;
    while j < i
        invariant
            j <= i < line.len(),
            name@ == line@.take(j as int),
        decreases i - j,
    {
        name.push(line[j]);
        assert(name@ =~= line@.take(j + 1));
        j += 1;
    }
    let mut rest: Vec<char> = Vec::new();
    let mut k: usize = i + 1;
    while k < line.len()
        invariant
            i < k <= line.len(),
            rest@ == line@.subrange(i + 1, k as int),
        decreases line.len() - k,
    {
        rest.push(line[k]);
        assert(rest@ =~= line@.subrange(i + 1, k + 1));
        k += 1;
    }
    assert(rest@ =~= line@.skip(i + 1));
    let score_text = trim_chars(rest.as_slice());
    match parse_u32_chars(score_text.as_slice()) {
        Some(u) => {
            let trimmed = trim_chars(name.as_slice());
            let name = string_from_chars(trimmed.as_slice());
            Some(ScoreBoardEntry { name, score: u as i32 })
        },
        None => None,
    }
}

/// Reads a score-board file: one `name,score` record per line; lines that hold
/// no record are skipped, and the board is ordered by score, best first.
pub fn parse_score_board(text: &str) -> (board: ScoreBoard)
    ensures
        board@ == board_of_text(text@),
{
    let chars = chars_of(text);
    let lines = lines_of(chars.as_slice());
    let ghost ls = lines@.map_values(|l: Vec<char>| l@);
    let mut entries: Vec<ScoreBoardEntry> = Vec::new();
    let mut i: usize = 0;
    while i < lines.len()
        invariant
            i <= lines.len(),
            ls == lines@.map_values(|l: Vec<char>| l@),
            entries@.map_values(|e: ScoreBoardEntry| e@) == parse_records(ls.take(i as int)),
        decreases lines.len() - i,
    {
        assert(ls.take(i + 1).drop_last() =~= ls.take(i as int));
        assert(ls.take(i + 1).last() == lines@[i as int]@);
        let ghost before = entries@.map_values(|e: ScoreBoardEntry| e@);
        match parse_score_line(lines[i].as_slice()) {
            Some(e) => {
                entries.push(e);
                assert(entries@.map_values(|e: ScoreBoardEntry| e@) =~= before.push(e@));
            },
            None => {},
        }
        i += 1;
    }
    assert(ls.take(lines.len() as int) =~= ls);
    ScoreBoard { entries: sort_entries(entries) }
}

/// The board-file line that records `score` for `name`.
pub open spec fn record_line(name: Seq<char>, score: i32) -> Seq<char> {
    name + seq![','] + signed_decimal(score as int)
}

/// Formats the board-file line `name,score`.
pub fn score_board_line(name: &str, score: i32) -> (line: String)
    ensures
        line@ == record_line(name@, score),
{
    let mut line = String::from_str(name);
    push_char(&mut line, ',');
    push_signed_decimal(&mut line, score as i64);
    assert(line@ =~= record_line(name@, score));
    line
}

/// The leader-board row of the entry ranked `rank`.
pub open spec fn leader_board_row(rank: nat, e: Record) -> Seq<char> {
    "[cell][left]"@ + decimal(rank) + ".[/left][/cell][cell][left]"@ + e.0
        + "[/left][/cell][cell][right]"@ + signed_decimal(e.1 as int) + "[/right][/cell]"@
}

/// The rows of the first `k` entries.
pub open spec fn leader_board_rows(s: Seq<Record>, k: nat) -> Seq<char>
    decreases k,
{
    if k == 0 {
        Seq::empty()
    } else {
        leader_board_rows(s, (k - 1) as nat) + leader_board_row(k, s[k - 1])
    }
}

/// The leader board as a BBCode table of rank, name and score of the five
/// best entries.
pub open spec fn leader_board_text(s: Seq<Record>) -> Seq<char> {
    "[table=3]"@ + "[cell][left][b]Rank[/b][/left][/cell]"@ + "[cell][left][b]Name[/b][/left][/cell]"@
        + "[cell][right][b]Score[/b][/right][/cell]"@ + leader_board_rows(
        s,
        if s.len() < 5 {
            s.len()
        } else {
            5
        },
    ) + "[/table]"@
}

proof fn lemma_rows_prefix(s: Seq<Record>, t: Seq<Record>, k: nat)
    requires
        k <= s.len(),
        k <= t.len(),
        forall|i: int| 0 <= i < k ==> s[i] == t[i],
    ensures
        leader_board_rows(s, k) == leader_board_rows(t, k),
    decreases k,
{
    if k > 0 {
        lemma_rows_prefix(s, t, (k - 1) as nat);
        assert(s[k - 1] == t[k - 1]);
    }
}

/// Law: the leader board of an empty board is the table's header and end
/// alone; an entry added to a board of fewer than five entries adds its row,
/// with its rank, name and score, just before the end of the table; and a
/// board of five entries or more shows its first five only.
pub proof fn lemma_leader_board(s: Seq<Record>, e: Record)
    ensures
        leader_board_text(Seq::empty()) == "[table=3]"@ + "[cell][left][b]Rank[/b][/left][/cell]"@
            + "[cell][left][b]Name[/b][/left][/cell]"@
            + "[cell][right][b]Score[/b][/right][/cell]"@ + "[/table]"@,
        s.len() < 5 ==> leader_board_text(s.push(e)) == leader_board_text(s).take(
            leader_board_text(s).len() - 8,
        ) + "[cell][left]"@ + decimal(s.len() + 1) + ".[/left][/cell][cell][left]"@ + e.0
            + "[/left][/cell][cell][right]"@ + signed_decimal(e.1 as int) + "[/right][/cell]"@
            + "[/table]"@,
        s.len() >= 5 ==> leader_board_text(s) == leader_board_text(s.take(5)),
{
    let h = "[table=3]"@ + "[cell][left][b]Rank[/b][/left][/cell]"@
        + "[cell][left][b]Name[/b][/left][/cell]"@ + "[cell][right][b]Score[/b][/right][/cell]"@;
    let f = "[/table]"@;
    assert(leader_board_rows(Seq::<Record>::empty(), 0) =~= Seq::<char>::empty());
    assert(leader_board_text(Seq::empty()) =~= h + f);
    let n = s.len();
    if n < 5 {
        let t = s.push(e);
        lemma_rows_prefix(t, s, n);
        assert(t[n as int] == e);
        assert(leader_board_rows(t, n + 1) == leader_board_rows(s, n) + leader_board_row(
            n + 1,
            e,
        ));
        reveal_strlit("[/table]");
        let body = h + leader_board_rows(s, n);
        assert(leader_board_text(s) =~= body + f);
        assert(leader_board_text(s).take(leader_board_text(s).len() - 8) =~= body);
        assert(leader_board_text(t) =~= body + leader_board_row(n + 1, e) + f);
    } else {
        lemma_rows_prefix(s, s.take(5), 5);
    }
}

impl ScoreBoard {
    /// The leader board shown after a game: the five best entries.
    pub fn prepare_leader_board_content(&self) -> (text: String)
        ensures
            text@ == leader_board_text(self@),
    {
        let ghost s = self@;
        let mut text = String::from_str("[table=3]");
        text.append("[cell][left][b]Rank[/b][/left][/cell]");
        text.append("[cell][left][b]Name[/b][/left][/cell]");
        text.append("[cell][right][b]Score[/b][/right][/cell]");
        let ghost head = text@;
        let n: usize = if self.entries.len() < 5 {
            self.entries.len()
        } else {
            5
        };
        let mut i: usize = 0;
        while i < n
            invariant
                i <= n <= self.entries@.len(),
                s == self@,
                text@ == head + leader_board_rows(s, i as nat),
            decreases n - i,
        {
            let entry = &self.entries[i];
            text.append("[cell][left]");
            push_decimal(&mut text, (i + 1) as u64);
            text.append(".[/left][/cell][cell][left]");
            text.append(entry.name.as_str());
            text.append("[/left][/cell][cell][right]");
            push_signed_decimal(&mut text, entry.score as i64);
            text.append("[/right][/cell]");
            assert(s[i as int] == entry@);
            assert(text@ =~= head + leader_board_rows(s, (i + 1) as nat));
            i += 1;
        }
        text.append("[/table]");
        assert(text@ =~= leader_board_text(s));
        text
    }
}

/// The text of the in-level score label.
pub open spec fn score_label(count: i32, highscore: i32) -> Seq<char> {
    "Score: "@ + signed_decimal(count as int) + "\nHigh Score: "@ + signed_decimal(highscore as int)
}

impl LiveScore {
    /// The text of the score label: the score and the high score.
    pub fn label_text(&self) -> (text: String)
        ensures
            text@ == score_label(self.count, self.highscore),
    {
        let mut text = String::from_str("Score: ");
        push_signed_decimal(&mut text, self.count as i64);
        text.append("\nHigh Score: ");
        push_signed_decimal(&mut text, self.highscore as i64);
        assert(text@ =~= score_label(self.count, self.highscore));
        text
    }
}

/// Where `insert_by_score` puts the new record.
pub open spec fn insert_index(s: Seq<Record>, e: Record) -> int
    decreases s.len(),
{
    if s.len() == 0 {
        0
    } else if s[0].1 >= e.1 {
        1 + insert_index(s.drop_first(), e)
    } else {
        0
    }
}

proof fn lemma_insert_index(s: Seq<Record>, e: Record)
    ensures
        0 <= insert_index(s, e) <= s.len(),
        insert_by_score(s, e) == s.insert(insert_index(s, e), e),
        forall|j: int| 0 <= j < insert_index(s, e) ==> #[trigger] s[j].1 >= e.1,
        insert_index(s, e) == s.len() || s[insert_index(s, e)].1 < e.1,
    decreases s.len(),
{
    if s.len() > 0 && s[0].1 >= e.1 {
        let t = s.drop_first();
        lemma_insert_index(t, e);
        assert forall|j: int| 0 <= j < insert_index(s, e) implies #[trigger] s[j].1 >= e.1 by {
            if j > 0 {
                assert(s[j] == t[j - 1]);
            }
        }
        assert(s.insert(insert_index(s, e), e) =~= seq![s[0]] + t.insert(insert_index(t, e), e));
        if insert_index(s, e) < s.len() {
            assert(s[insert_index(s, e)] == t[insert_index(t, e)]);
        }
    } else if s.len() > 0 {
        assert(s.insert(0, e) =~= seq![e] + s);
    } else {
        assert(s.insert(0, e) =~= seq![e]);
    }
}

/// Law: inserting by score keeps a board ordered and adds exactly the new
/// record.
pub proof fn lemma_insert_by_score(s: Seq<Record>, e: Record)
    ensures
        insert_by_score(s, e).to_multiset() == s.to_multiset().insert(e),
        sorted_by_score(s) ==> sorted_by_score(insert_by_score(s, e)),
{
    lemma_insert_index(s, e);
    let p = insert_index(s, e);
    vstd::seq_lib::to_multiset_insert(s, p, e);
    if sorted_by_score(s) {
        let t = s.insert(p, e);
        assert forall|i: int, j: int| 0 <= i < j < t.len() implies t[i].1 >= t[j].1 by {
            if j < p {
                assert(t[i] == s[i] && t[j] == s[j]);
            } else if j == p {
                assert(t[i] == s[i]);
            } else if i < p {
                assert(t[i] == s[i] && t[j] == s[j - 1]);
            } else if i == p {
                assert(t[j] == s[j - 1]);
                assert(s[p].1 >= s[j - 1].1);
            } else {
                assert(t[i] == s[i - 1] && t[j] == s[j - 1]);
            }
        }
    }
}

/// Law: the board order is a sorted permutation of the records.
pub proof fn lemma_sort_by_score(s: Seq<Record>)
    ensures
        sorted_by_score(sort_by_score(s)),
        sort_by_score(s).to_multiset() == s.to_multiset(),
        sort_by_score(s).len() == s.len(),
    decreases s.len(),
{
    if s.len() > 0 {
        lemma_sort_by_score(s.drop_last());
        lemma_insert_by_score(sort_by_score(s.drop_last()), s.last());
        vstd::seq_lib::to_multiset_build(s.drop_last(), s.last());
        assert(s.drop_last().push(s.last()) =~= s);
        lemma_insert_index(sort_by_score(s.drop_last()), s.last());
    }
}

/// Law: sorting an ordered board leaves it as it is.
pub proof fn lemma_sort_sorted_is_identity(s: Seq<Record>)
    requires
        sorted_by_score(s),
    ensures
        sort_by_score(s) == s,
    decreases s.len(),
{
    if s.len() > 0 {
        let t = s.drop_last();
        assert(sorted_by_score(t));
        lemma_sort_sorted_is_identity(t);
        lemma_insert_index(t, s.last());
        assert forall|j: int| 0 <= j < t.len() implies t[j].1 >= s.last().1 by {
            assert(t[j] == s[j]);
        }
        if insert_index(t, s.last()) < t.len() {
            assert(t[insert_index(t, s.last())] == s[insert_index(t, s.last())]);
        }
        assert(t.insert(t.len() as int, s.last()) =~= s);
    }
}

/// Law: adding a record to an ordered board puts it after every record that
/// scores at least as much, so the board stays ordered.
pub proof fn lemma_record_into_sorted(s: Seq<Record>, e: Record)
    requires
        sorted_by_score(s),
    ensures
        sort_by_score(s.push(e)) == insert_by_score(s, e),
        sorted_by_score(sort_by_score(s.push(e))),
{
    assert(s.push(e).drop_last() =~= s);
    lemma_sort_sorted_is_identity(s);
    lemma_insert_by_score(s, e);
}

/// Law: the high score is the best score on the board, `0` for an empty
/// board, and the first score of an ordered board.
pub proof fn lemma_high_score(s: Seq<Record>)
    ensures
        forall|i: int| 0 <= i < s.len() ==> #[trigger] s[i].1 <= high_score(s),
        s.len() > 0 ==> exists|i: int| 0 <= i < s.len() && #[trigger] s[i].1 == high_score(s),
        s.len() == 0 ==> high_score(s) == 0,
        s.len() > 0 && sorted_by_score(s) ==> high_score(s) == s[0].1,
    decreases s.len(),
{
    if s.len() > 1 {
        let t = s.drop_last();
        lemma_high_score(t);
        assert forall|i: int| 0 <= i < s.len() implies #[trigger] s[i].1 <= high_score(s) by {
            if i < t.len() {
                assert(s[i] == t[i]);
            }
        }
        if s.last().1 > high_score(t) {
            assert(s[s.len() - 1].1 == high_score(s));
        } else {
            let i = choose|i: int| 0 <= i < t.len() && #[trigger] t[i].1 == high_score(t);
            assert(s[i] == t[i]);
        }
        if sorted_by_score(s) {
            assert(sorted_by_score(t));
            assert(s[0] == t[0]);
        }
    } else if s.len() == 1 {
        assert(s[0].1 == high_score(s));
    }
}

proof fn lemma_split_record_line(name: Seq<char>, rest: Seq<char>)
    requires
        !name.contains(','),
    ensures
        split_at_comma(name + seq![','] + rest) == Some((name, rest)),
{
    let s = name + seq![','] + rest;
    let k = name.len() as int;
    assert(s[k] == ',');
    assert(s.contains(','));
    let i = choose|i: int|
        0 <= i < s.len() && #[trigger] s[i] == ',' && forall|j: int| 0 <= j < i ==> #[trigger] s[j]
            != ',';
    if i < k {
        assert(name[i] == ',');
        assert(name.contains(','));
    }
    if i > k {
        assert(s[k] != ',');
    }
    assert(s.take(k) =~= name);
    assert(s.skip(k + 1) =~= rest);
}

/// Law: a saved line reads back as the record of the trimmed name and the
/// score, for names without commas and scores that are not negative.
pub proof fn lemma_record_line_round_trip(name: Seq<char>, score: i32)
    requires
        !name.contains(','),
        score >= 0,
    ensures
        parse_record(record_line(name, score)) == Some((trim(name), score)),
{
    let d = decimal(score as nat);
    lemma_split_record_line(name, d);
    lemma_parse_decimal(score as u32);
}

/// A score line appended after a line ending is read back.
proof fn lemma_saved_after_line_end(text: Seq<char>, name: Seq<char>, score: i32)
    requires
        text.len() == 0 || text.last() == '\n',
        !name.contains(','),
        !name.contains('\n'),
        score >= 0,
    ensures
        board_of_text(text + record_line(name, score) + seq!['\n']) == sort_by_score(
            board_of_text(text).push((trim(name), score)),
        ),
{
    let line = record_line(name, score);
    let d = decimal(score as nat);
    lemma_decimal(score as nat);
    assert(line.last() == d.last());
    assert(is_digit(d[d.len() - 1]));
    assert(!line.contains('\n')) by {
        if line.contains('\n') {
            let i = choose|i: int| 0 <= i < line.len() && line[i] == '\n';
            if i < name.len() {
                assert(name[i] == '\n');
            } else if i > name.len() {
                assert(line[i] == d[i - name.len() - 1]);
                assert(is_digit(d[i - name.len() - 1]));
            }
        }
    }
    lemma_text_lines_append(text, line);
    lemma_record_line_round_trip(name, score);
    let ls = text_lines(text);
    assert(ls.push(line).drop_last() =~= ls);
    let recs = parse_records(ls);
    let e = (trim(name), score);
    assert(parse_records(ls.push(line)) == recs.push(e));
    // ordering the old board first changes nothing
    lemma_sort_by_score(recs);
    lemma_sort_sorted_is_identity(sort_by_score(recs));
    assert(recs.push(e).drop_last() =~= recs);
    assert(sort_by_score(recs).push(e).drop_last() =~= sort_by_score(recs));
}

/// Law: a score that was saved is found on the board loaded afterwards. In
/// the board file `text`, whatever follows the last line ending is whitespace
/// only (so the file may be empty or end with a line ending); the saved line is
/// `record_line(name, score)` and a line ending. The board read afterwards is
/// the board read before with the record of the trimmed name and the score,
/// ordered by score: for a trimmed name, the board the game kept in memory
/// after `ScoreBoard::record_score`.
pub proof fn lemma_saved_score_is_loaded(text: Seq<char>, name: Seq<char>, score: i32)
    requires
        last_line_blank(text),
        !name.contains(','),
        !name.contains('\n'),
        score >= 0,
    ensures
        board_of_text(text + record_line(name, score) + seq!['\n']) == sort_by_score(
            board_of_text(text).push((trim(name), score)),
        ),
{
    let k = lemma_last_line_start(text);
    let n = text.len() as int;
    let t = text.subrange(0, k);
    let w = text.subrange(k, n);
    assert(text =~= t + w);
    assert forall|i: int| 0 <= i < w.len() implies is_whitespace(#[trigger] w[i]) && w[i]
        != '\n' by {
        assert(w[i] == text[k + i]);
        assert(!text.subrange(k + i, n).contains('\n')) by {
            let rest = text.subrange(k + i, n);
            if rest.contains('\n') {
                let m = choose|m: int| 0 <= m < rest.len() && #[trigger] rest[m] == '\n';
                assert(text[k + i + m] == '\n');
            }
        }
    }
    if k > 0 {
        assert(t.last() == text[k - 1]);
    }
    // the blank last line holds no record
    lemma_text_lines_blank_tail(t, w);
    if w.len() > 0 {
        assert(!w.contains(',')) by {
            if w.contains(',') {
                let i = choose|i: int| 0 <= i < w.len() && w[i] == ',';
                assert(is_whitespace(w[i]));
            }
        }
        assert(text_lines(t).push(w).drop_last() =~= text_lines(t));
    }
    assert(board_of_text(text) == board_of_text(t));
    // the saved line then starts with the blank last line
    let padded = w + name;
    assert(!padded.contains(',') && !padded.contains('\n')) by {
        if padded.contains(',') || padded.contains('\n') {
            let i = choose|i: int| 0 <= i < padded.len() && (padded[i] == ',' || padded[i] == '\n');
            if i < w.len() {
                assert(padded[i] == w[i]);
                assert(is_whitespace(w[i]));
            } else {
                assert(padded[i] == name[i - w.len()]);
            }
        }
    }
    lemma_trim_after_blank(w, name);
    assert(text + record_line(name, score) + seq!['\n'] =~= t + record_line(padded, score) + seq![
        '\n',
    ]);
    lemma_saved_after_line_end(t, padded, score);
}

} // verus!
