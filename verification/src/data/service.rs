//! Reading whole files of the data set: the players' file and the yearly
//! match files.

use std::collections::HashMap;
use vstd::prelude::*;
use vstd::utf8::encode_utf8;
use vstd::string::StringSliceAdditionalSpecFns;
use crate::data::{
    date_cuttable, match_columns_ok, match_of_columns, match_text, player_line_ok,
    player_of_line, player_text, str_views, tourney_columns_ok, tourney_of_columns,
    tourney_text, Match, MatchView, PlayerView, TennisPlayer, Tourney, TourneyView,
};
use crate::data::table::StrTable;
use crate::number::{int_text, parse_i32, push_int_text, spec_parse_i32};
use crate::text::{
    contains_text, has_infix, line_ranges, lines_of, ranges_text, ranges_within, split_on,
    split_range, str_chars, string_from_range, views,
};

verus! {

broadcast use vstd::std_specs::hash::group_hash_axioms;

/// The players of a list of lines, by id; a later line replaces an earlier
/// one with the same id.
pub open spec fn players_of_lines(lines: Seq<Seq<char>>) -> Map<i32, PlayerView>
    decreases lines.len(),
{
    if lines.len() == 0 {
        Map::empty()
    } else {
        let p = player_of_line(lines.last());
        players_of_lines(lines.drop_last()).insert(p.id, p)
    }
}

/// The views of the players in a map.
pub open spec fn player_map_view(m: Map<i32, TennisPlayer>) -> Map<i32, PlayerView> {
    m.map_values(|p: TennisPlayer| p@)
}

/// Reads the players' file: every line is a player (see
/// `TennisPlayer::new`), stored under its id. Gives the index of the first
/// line that cannot be read, if there is one.
pub fn players_from_text(content: &str) -> (r: Result<HashMap<i32, TennisPlayer>, usize>)
    ensures
        match r {
            Ok(m) => (forall|i: int| 0 <= i < lines_of(content@).len()
                ==> #[trigger] player_line_ok(lines_of(content@)[i]))
                && player_map_view(m@) == players_of_lines(lines_of(content@)),
            Err(k) => k < lines_of(content@).len()
                && !player_line_ok(lines_of(content@)[k as int])
                && (forall|i: int| 0 <= i < k ==> #[trigger] player_line_ok(lines_of(content@)[i])),
        },
{
    let cs = str_chars(content);
    let bounds = line_ranges(&cs);
    let ghost lines = lines_of(content@);
    let mut players: HashMap<i32, TennisPlayer> = HashMap::new();
    let mut k: usize = 0;
    assert(player_map_view(players@) =~= players_of_lines(lines.take(0)));
    while k < bounds.len()
        invariant
            k <= bounds.len(),
            cs@ == content@,
            lines == lines_of(content@),
            ranges_text(cs@, bounds@) == lines,
            ranges_within(bounds@, cs@.len()),
            forall|i: int| 0 <= i < k ==> #[trigger] player_line_ok(lines[i]),
            player_map_view(players@) == players_of_lines(lines.take(k as int)),
        decreases bounds.len() - k,
    {
        let (lo, hi) = bounds[k];
        let line = string_from_range(&cs, lo, hi);
        assert(line@ == lines[k as int]);
        match TennisPlayer::parse(line.as_str()) {
            Some(p) => {
                let ghost pv = p@;
                let ghost before = players@;
                players.insert(p.id, p);
                assert(lines.take(k + 1).drop_last() =~= lines.take(k as int));
                assert(player_map_view(players@) =~= player_map_view(before).insert(pv.id, pv));
            }
            None => {
                return Err(k);
            }
        }
        k += 1;
    }
    assert(lines.take(k as int) =~= lines);
    Ok(players)
}


/// The views of the tourneys in a map.
pub open spec fn tourney_map_view(m: Map<Seq<char>, Tourney>) -> Map<Seq<char>, TourneyView> {
    m.map_values(|t: Tourney| t@)
}

/// The views of the matches in a map.
pub open spec fn match_map_view(m: Map<Seq<char>, Match>) -> Map<Seq<char>, MatchView> {
    m.map_values(|t: Match| t@)
}

/// The tourneys and the matches read so far, by key.
pub type MatchState = (Map<Seq<char>, TourneyView>, Map<Seq<char>, MatchView>);

/// The columns of a match line that describe the match itself: the match
/// number (column 6) and score, best of, round and minutes (columns 23..27).
pub open spec fn match_data_columns(cols: Seq<Seq<char>>) -> Seq<Seq<char>> {
    seq![cols[6]] + cols.subrange(23, 27)
}

/// The number in a column, or 0 when it does not parse.
pub open spec fn i32_or_zero(s: Seq<char>) -> i32 {
    match spec_parse_i32(s) {
        Some(v) => v,
        None => 0,
    }
}

/// A match line can be read in the given state: it has at least 27 columns,
/// the tourney's date can be cut when the tourney is new, the loser id
/// (column 15) and the match number are `i32`s.
pub open spec fn match_line_ok(tourneys: Map<Seq<char>, TourneyView>, cols: Seq<Seq<char>>) -> bool {
    &&& cols.len() >= 27
    &&& !tourneys.contains_key(cols[0]) ==> tourney_columns_ok(cols.take(6))
    &&& spec_parse_i32(cols[15]) is Some
    &&& match_columns_ok(match_data_columns(cols))
}

/// The tourneys after a match line: its tourney (columns 0..6) is added
/// under its id (column 0) unless that id is known already.
pub open spec fn tourneys_with_line(
    tourneys: Map<Seq<char>, TourneyView>,
    cols: Seq<Seq<char>>,
) -> Map<Seq<char>, TourneyView> {
    if tourneys.contains_key(cols[0]) {
        tourneys
    } else {
        tourneys.insert(cols[0], tourney_of_columns(cols.take(6)))
    }
}

/// The match of a line, given the tourneys once the line's tourney is known:
/// it is played at that tourney, won by the player of column 7 (0 when that
/// does not parse) and lost by the player of column 15.
pub open spec fn match_of_line_columns(
    tourneys: Map<Seq<char>, TourneyView>,
    cols: Seq<Seq<char>>,
) -> MatchView {
    match_of_columns(
        tourneys[cols[0]].id,
        i32_or_zero(cols[7]),
        spec_parse_i32(cols[15])->0,
        match_data_columns(cols),
    )
}

/// The key of a match: `{tourney id}:{match number}`.
pub open spec fn match_key(tourney_id: Seq<char>, m: MatchView) -> Seq<char> {
    tourney_id + seq![':'] + int_text(m.id as int)
}

/// The state after one match line that can be read.
pub open spec fn state_with_line(st: MatchState, line: Seq<char>) -> MatchState {
    let cols = split_on(line, ',');
    let tourneys = tourneys_with_line(st.0, cols);
    let m = match_of_line_columns(tourneys, cols);
    (tourneys, st.1.insert(match_key(tourneys[cols[0]].id, m), m))
}

/// The state after a list of match lines, or `None` when one of them
/// cannot be read.
pub open spec fn state_with_lines(st: MatchState, lines: Seq<Seq<char>>) -> Option<MatchState>
    decreases lines.len(),
{
    if lines.len() == 0 {
        Some(st)
    } else {
        match state_with_lines(st, lines.drop_last()) {
            Some(s) => if match_line_ok(s.0, split_on(lines.last(), ',')) {
                Some(state_with_line(s, lines.last()))
            } else {
                None
            },
            None => None,
        }
    }
}

/// Reads one match line `cs[lo..hi]` into the tables. Gives `false`, and
/// changes nothing, when the line cannot be read.
fn add_match_line(
    cs: &Vec<char>,
    lo: usize,
    hi: usize,
    tourneys: &mut StrTable<Tourney>,
    matches: &mut StrTable<Match>,
) -> (ok: bool)
    requires
        lo <= hi <= cs.len(),
    ensures
        ({
            let line = cs@.subrange(lo as int, hi as int);
            let st = (tourney_map_view(old(tourneys)@), match_map_view(old(matches)@));
            let end = (tourney_map_view(final(tourneys)@), match_map_view(final(matches)@));
            &&& ok == match_line_ok(st.0, split_on(line, ','))
            &&& ok ==> end == state_with_line(st, line)
            &&& !ok ==> end == st
        }),
{
    let ghost line = cs@.subrange(lo as int, hi as int);
    let cols = split_range(cs, lo, hi, ',');
    let ghost cv = views(cols@);
    assert(cv == split_on(line, ','));
    if cols.len() < 27 {
        return false;
    }
    let known = tourneys.contains_key(cols[0].as_str());
    if !known && !date_cuttable(cols[5].as_str()) {
        assert(cv.take(6)[5] == cv[5]);
        return false;
    }
    let loser_id = match parse_i32(cols[15].as_str()) {
        Some(v) => v,
        None => return false,
    };
    if parse_i32(cols[6].as_str()).is_none() {
        return false;
    }
    let winner_id = match parse_i32(cols[7].as_str()) {
        Some(v) => v,
        None => 0,
    };
    let ghost st = (tourney_map_view(tourneys@), match_map_view(matches@));
    if !known {
        let tdata: Vec<&str> = vec![
            cols[0].as_str(),
            cols[1].as_str(),
            cols[2].as_str(),
            cols[3].as_str(),
            cols[4].as_str(),
            cols[5].as_str(),
        ];
        assert(str_views(tdata@) =~= cv.take(6));
        let t = Tourney::new(tdata);
        let ghost tv = t@;
        let ghost before = tourneys@;
        tourneys.insert(cols[0].clone(), t);
        assert(tourney_map_view(tourneys@) =~= tourney_map_view(before).insert(cv[0], tv));
    }
    let ghost tmap = tourney_map_view(tourneys@);
    assert(tmap == tourneys_with_line(st.0, cv));
    let tourney_id = match tourneys.get(cols[0].as_str()) {
        Some(t) => t.id.clone(),
        None => {
            assert(false);
            String::new()
        }
    };
    assert(tourney_id@ == tmap[cv[0]].id);
    let mdata: Vec<&str> = vec![
        cols[6].as_str(),
        cols[23].as_str(),
        cols[24].as_str(),
        cols[25].as_str(),
        cols[26].as_str(),
    ];
    assert(str_views(mdata@) =~= match_data_columns(cv));
    let mut key = tourney_id.clone();
    let m = Match::new(tourney_id, winner_id, loser_id, mdata);
    let ghost mv = m@;
    assert(mv == match_of_line_columns(tmap, cv));
    key.push(':');
    push_int_text(&mut key, m.id as i64);
    assert(key@ =~= match_key(tmap[cv[0]].id, mv));
    let ghost before_m = matches@;
    matches.insert(key, m);
    assert(match_map_view(matches@) =~= match_map_view(before_m).insert(match_key(tmap[cv[0]].id, mv), mv));
    true
}


/// The lines of a match file after its header line.
pub open spec fn match_body(lines: Seq<Seq<char>>) -> Seq<Seq<char>> {
    if lines.len() == 0 {
        lines
    } else {
        lines.subrange(1, lines.len() as int)
    }
}

/// Reads a match file into the tables: every line after the header is a
/// match (see `state_with_line`). Gives the index, among all the file's
/// lines, of the first line that cannot be read; the tables then hold what
/// the lines before it gave.
pub fn add_file_matches(
    content: &str,
    tourneys: &mut StrTable<Tourney>,
    matches: &mut StrTable<Match>,
) -> (r: Result<(), usize>)
    ensures
        ({
            let lines = lines_of(content@);
            let st = (tourney_map_view(old(tourneys)@), match_map_view(old(matches)@));
            let end = (tourney_map_view(final(tourneys)@), match_map_view(final(matches)@));
            match r {
                Ok(()) => state_with_lines(st, match_body(lines)) == Some(end),
                Err(k) => 1 <= k < lines.len()
                    && state_with_lines(st, lines.subrange(1, k as int)) == Some(end)
                    && !match_line_ok(end.0, split_on(lines[k as int], ',')),
            }
        }),
{
    let cs = str_chars(content);
    let bounds = line_ranges(&cs);
    let ghost lines = lines_of(content@);
    let ghost st = (tourney_map_view(tourneys@), match_map_view(matches@));
    if bounds.len() == 0 {
        return Ok(());
    }
    let mut k: usize = 1;
    let mut failed = false;
    assert(lines.subrange(1, 1) =~= Seq::<Seq<char>>::empty());
    while k < bounds.len() && !failed
        invariant
            1 <= k <= bounds.len(),
            cs@ == content@,
            lines == lines_of(content@),
            ranges_text(cs@, bounds@) == lines,
            ranges_within(bounds@, cs@.len()),
            state_with_lines(st, lines.subrange(1, k as int))
                == Some((tourney_map_view(tourneys@), match_map_view(matches@))),
            failed ==> k < lines.len() && !match_line_ok(
                tourney_map_view(tourneys@),
                split_on(lines[k as int], ','),
            ),
        decreases bounds.len() - k + (if failed { 0int } else { 1int }),
    {
        let (lo, hi) = bounds[k];
        assert(cs@.subrange(lo as int, hi as int) == lines[k as int]);
        let ok = add_match_line(&cs, lo, hi, tourneys, matches);
        assert(lines.subrange(1, k + 1).drop_last() =~= lines.subrange(1, k as int));
        if ok {
            k += 1;
        } else {
            failed = true;
        }
    }
    if failed {
        return Err(k);
    }
    assert(lines.subrange(1, k as int) =~= match_body(lines));
    Ok(())
}

/// The tourneys and matches of a list of match files, read in order, or
/// `None` when a line of one of them cannot be read.
pub open spec fn state_with_files(st: MatchState, files: Seq<Seq<char>>) -> Option<MatchState>
    decreases files.len(),
{
    if files.len() == 0 {
        Some(st)
    } else {
        match state_with_files(st, files.drop_last()) {
            Some(s) => state_with_lines(s, match_body(lines_of(files.last()))),
            None => None,
        }
    }
}

/// Reads the tourneys and matches of the given match files, in order.
/// Gives the index of the first file with a line that cannot be read and
/// that line's index within the file.
pub fn matches_from_files(files: &Vec<String>) -> (r: Result<(StrTable<Tourney>, StrTable<Match>), (usize, usize)>)
    ensures
        ({
            let empty = (Map::<Seq<char>, TourneyView>::empty(), Map::<Seq<char>, MatchView>::empty());
            match r {
                Ok((t, m)) => state_with_files(empty, views(files@))
                    == Some((tourney_map_view(t@), match_map_view(m@))),
                Err((f, k)) => f < files.len() && ({
                    let lines = lines_of(files@[f as int]@);
                    match state_with_files(empty, views(files@).take(f as int)) {
                        Some(s) => 1 <= k < lines.len() && match state_with_lines(s, lines.subrange(1, k as int)) {
                            Some(s2) => !match_line_ok(s2.0, split_on(lines[k as int], ',')),
                            None => false,
                        },
                        None => false,
                    }
                }),
            }
        }),
{
    let mut tourneys: StrTable<Tourney> = StrTable::new();
    let mut matches: StrTable<Match> = StrTable::new();
    let ghost empty = (Map::<Seq<char>, TourneyView>::empty(), Map::<Seq<char>, MatchView>::empty());
    assert(tourney_map_view(tourneys@) =~= empty.0);
    assert(match_map_view(matches@) =~= empty.1);
    let mut f: usize = 0;
    assert(views(files@).take(0) =~= Seq::<Seq<char>>::empty());
    while f < files.len()
        invariant
            f <= files.len(),
            empty == (Map::<Seq<char>, TourneyView>::empty(), Map::<Seq<char>, MatchView>::empty()),
            state_with_files(empty, views(files@).take(f as int))
                == Some((tourney_map_view(tourneys@), match_map_view(matches@))),
        decreases files.len() - f,
    {
        let ghost before = (tourney_map_view(tourneys@), match_map_view(matches@));
        let r = add_file_matches(files[f].as_str(), &mut tourneys, &mut matches);
        assert(views(files@).take(f + 1).drop_last() =~= views(files@).take(f as int));
        assert(views(files@).take(f + 1).last() == files@[f as int]@);
        match r {
            Ok(()) => {},
            Err(k) => {
                let ghost lines = lines_of(files@[f as int]@);
                let ghost now = (tourney_map_view(tourneys@), match_map_view(matches@));
                assert(state_with_files(empty, views(files@).take(f as int)) == Some(before));
                assert(state_with_lines(before, lines.subrange(1, k as int)) == Some(now));
                assert(!match_line_ok(now.0, split_on(lines[k as int], ',')));
                return Err((f, k));
            }
        }
        f += 1;
    }
    assert(views(files@).take(f as int) =~= views(files@));
    Ok((tourneys, matches))
}


/// The name of a yearly singles match file: it holds `atp_matches` and is
/// 20 bytes long (as `atp_matches_YYYY.csv`).
pub open spec fn is_match_file(name: Seq<char>) -> bool {
    has_infix(name, "atp_matches"@) && encode_utf8(name).len() == 20
}

/// Whether a file of the data directory is a yearly singles match file
/// (see `is_match_file`).
pub fn is_match_file_name(name: &str) -> (r: bool)
    ensures
        r == is_match_file(name@),
{
    contains_text(name, "atp_matches") && name.as_bytes().len() == 20
}

/// The text that describes a match for the search index:
/// `{winner} beat {loser} at {tourney} in a {match}`.
pub open spec fn match_entry_text(
    winner: PlayerView,
    loser: PlayerView,
    tourney: TourneyView,
    m: MatchView,
) -> Seq<char> {
    player_text(winner) + " beat "@ + player_text(loser) + " at "@ + tourney_text(tourney)
        + " in a "@ + match_text(m)
}

/// The text that describes a match for the search index (see
/// `match_entry_text`), or `None` when its winner, loser or tourney is not
/// known.
pub fn describe_match(
    players: &HashMap<i32, TennisPlayer>,
    tourneys: &StrTable<Tourney>,
    m: &Match,
) -> (r: Option<String>)
    ensures
        r is Some <==> players@.contains_key(m.winner_id) && players@.contains_key(m.loser_id)
            && tourneys@.contains_key(m.tourney_id@),
        r matches Some(s) ==> s@ == match_entry_text(
            players@[m.winner_id]@,
            players@[m.loser_id]@,
            tourneys@[m.tourney_id@]@,
            m@,
        ),
{
    let winner = match players.get(&m.winner_id) {
        Some(p) => p,
        None => return None,
    };
    let loser = match players.get(&m.loser_id) {
        Some(p) => p,
        None => return None,
    };
    let tourney = match tourneys.get(m.tourney_id.as_str()) {
        Some(t) => t,
        None => return None,
    };
    let mut s = winner.to_string();
    s.append(" beat ");
    let l = loser.to_string();
    s.append(l.as_str());
    s.append(" at ");
    let t = tourney.to_string();
    s.append(t.as_str());
    s.append(" in a ");
    let d = m.to_string();
    s.append(d.as_str());
    assert(s@ =~= match_entry_text(winner@, loser@, tourney@, m@));
    Some(s)
}


/// Law: every player of the players' map is stored under its own id.
pub proof fn lemma_players_keyed_by_id(lines: Seq<Seq<char>>)
    ensures
        forall|id: i32| #[trigger] players_of_lines(lines).contains_key(id) ==> players_of_lines(lines)[id].id == id,
    decreases lines.len(),
{
    if lines.len() > 0 {
        lemma_players_keyed_by_id(lines.drop_last());
        let prev = players_of_lines(lines.drop_last());
        let p = player_of_line(lines.last());
        assert forall|id: i32| #[trigger] players_of_lines(lines).contains_key(id) implies players_of_lines(lines)[id].id == id by {
            if id != p.id {
                assert(prev.contains_key(id));
            }
        }
    }
}

/// The tables agree with one another: every tourney is stored under its own
/// id, and every match is stored under its key and was played at a known
/// tourney.
pub open spec fn state_consistent(st: MatchState) -> bool {
    &&& forall|k: Seq<char>| #[trigger] st.0.contains_key(k) ==> st.0[k].id == k
    &&& forall|k: Seq<char>| #[trigger] st.1.contains_key(k) ==> {
        &&& st.0.contains_key(st.1[k].tourney_id)
        &&& k == match_key(st.1[k].tourney_id, st.1[k])
    }
}

/// Law: reading match lines keeps the tables consistent with one another.
pub proof fn lemma_state_with_lines_consistent(st: MatchState, lines: Seq<Seq<char>>)
    requires
        state_consistent(st),
    ensures
        state_with_lines(st, lines) matches Some(end) ==> state_consistent(end),
    decreases lines.len(),
{
    if lines.len() > 0 {
        lemma_state_with_lines_consistent(st, lines.drop_last());
        if let Some(s) = state_with_lines(st, lines.drop_last()) {
            let cols = split_on(lines.last(), ',');
            if match_line_ok(s.0, cols) {
                let tourneys = tourneys_with_line(s.0, cols);
                assert(tourneys.contains_key(cols[0]));
                assert(tourneys[cols[0]].id == cols[0]);
                let end = state_with_line(s, lines.last());
                assert forall|k: Seq<char>| #[trigger] end.0.contains_key(k) implies end.0[k].id == k by {
                    if k != cols[0] {
                        assert(s.0.contains_key(k));
                    }
                }
                assert forall|k: Seq<char>| #[trigger] end.1.contains_key(k) implies {
                    &&& end.0.contains_key(end.1[k].tourney_id)
                    &&& k == match_key(end.1[k].tourney_id, end.1[k])
                } by {
                    let m = match_of_line_columns(tourneys, cols);
                    if k != match_key(tourneys[cols[0]].id, m) {
                        assert(s.1.contains_key(k));
                    }
                }
            }
        }
    }
}

/// Law: a tourney, once known, stays as it was first read; later lines
/// with the same tourney id do not change it.
pub proof fn lemma_state_with_lines_keeps_tourneys(st: MatchState, lines: Seq<Seq<char>>)
    ensures
        state_with_lines(st, lines) matches Some(end) ==> forall|k: Seq<char>|
            #[trigger] st.0.contains_key(k) ==> end.0.contains_key(k) && end.0[k] == st.0[k],
    decreases lines.len(),
{
    if lines.len() > 0 {
        lemma_state_with_lines_keeps_tourneys(st, lines.drop_last());
    }
}

/// Law: the tables read from any list of match files are consistent with
/// one another.
pub proof fn lemma_state_with_files_consistent(st: MatchState, files: Seq<Seq<char>>)
    requires
        state_consistent(st),
    ensures
        state_with_files(st, files) matches Some(end) ==> state_consistent(end),
    decreases files.len(),
{
    if files.len() > 0 {
        lemma_state_with_files_consistent(st, files.drop_last());
        if let Some(s) = state_with_files(st, files.drop_last()) {
            lemma_state_with_lines_consistent(s, match_body(lines_of(files.last())));
        }
    }
}

/// Law: every line of the players' file gives a player of the map, under
/// that player's id; every player of the map comes from a line, and a line
/// that no later line shares its id with gives the stored player itself.
pub proof fn lemma_players_of_lines_complete(lines: Seq<Seq<char>>)
    ensures
        forall|i: int| 0 <= i < lines.len()
            ==> players_of_lines(lines).contains_key(#[trigger] player_of_line(lines[i]).id),
        forall|i: int| 0 <= i < lines.len()
            && (forall|j: int| i < j < lines.len() ==> player_of_line(lines[j]).id != player_of_line(lines[i]).id)
            ==> players_of_lines(lines)[#[trigger] player_of_line(lines[i]).id] == player_of_line(lines[i]),
        forall|id: i32| #[trigger] players_of_lines(lines).contains_key(id)
            ==> exists|i: int| 0 <= i < lines.len() && #[trigger] player_of_line(lines[i]).id == id,
    decreases lines.len(),
{
    if lines.len() > 0 {
        let prev_lines = lines.drop_last();
        lemma_players_of_lines_complete(prev_lines);
        let n = lines.len() - 1;
        let p = player_of_line(lines.last());
        let prev = players_of_lines(prev_lines);
        let all = players_of_lines(lines);
        assert(all == prev.insert(p.id, p));
        assert forall|i: int| 0 <= i < lines.len() implies all.contains_key(#[trigger] player_of_line(lines[i]).id) by {
            if i < n {
                assert(lines[i] == prev_lines[i]);
            }
        }
        assert forall|i: int| 0 <= i < lines.len()
            && (forall|j: int| i < j < lines.len() ==> player_of_line(lines[j]).id != player_of_line(lines[i]).id)
            implies all[#[trigger] player_of_line(lines[i]).id] == player_of_line(lines[i]) by {
            if i < n {
                assert(lines[i] == prev_lines[i]);
                assert(player_of_line(lines[n]).id != player_of_line(lines[i]).id);
                assert forall|j: int| i < j < prev_lines.len()
                    implies player_of_line(prev_lines[j]).id != player_of_line(prev_lines[i]).id by {
                    assert(prev_lines[j] == lines[j]);
                }
            }
        }
        assert forall|id: i32| #[trigger] all.contains_key(id)
            implies exists|i: int| 0 <= i < lines.len() && #[trigger] player_of_line(lines[i]).id == id by {
            if id == p.id {
                assert(player_of_line(lines[n]).id == id);
            } else {
                assert(prev.contains_key(id));
                let i = choose|i: int| 0 <= i < prev_lines.len() && #[trigger] player_of_line(prev_lines[i]).id == id;
                assert(lines[i] == prev_lines[i]);
                assert(player_of_line(lines[i]).id == id);
            }
        }
    }
}

/// Law: a match line is read from its first 27 columns alone. Two lines that
/// have at least 27 columns and agree on the first 27 (say, one of 27
/// columns and one of the 49 of the data set's match files) are both
/// readable or both not, and lead to the same tourneys and matches.
pub proof fn lemma_match_line_reads_first_columns(st: MatchState, l1: Seq<char>, l2: Seq<char>)
    requires
        split_on(l1, ',').len() >= 27,
        split_on(l2, ',').len() >= 27,
        split_on(l1, ',').take(27) == split_on(l2, ',').take(27),
    ensures
        match_line_ok(st.0, split_on(l1, ',')) == match_line_ok(st.0, split_on(l2, ',')),
        state_with_line(st, l1) == state_with_line(st, l2),
{
    let c1 = split_on(l1, ',');
    let c2 = split_on(l2, ',');
    assert forall|i: int| 0 <= i < 27 implies c1[i] == c2[i] by {
        assert(c1.take(27)[i] == c2.take(27)[i]);
    }
    assert(c1.take(6) =~= c2.take(6));
    assert(match_data_columns(c1) =~= match_data_columns(c2));
}

/// Law: a file name is a match file only when it holds `atp_matches` and its
/// UTF-8 encoding is 20 bytes long. Of the ASCII names
/// `atp_matches_{part}.csv`, exactly those whose part has four characters
/// (a year) are match files; `atp_matches_doubles_{year}.csv` and
/// `atp_matches_futures_{year}.csv` are not.
pub proof fn lemma_match_file_names(name: Seq<char>, part: Seq<char>)
    ensures
        is_match_file(name) ==> has_infix(name, "atp_matches"@) && encode_utf8(name).len() == 20,
        vstd::utf8::is_ascii_chars(part)
            ==> (is_match_file("atp_matches_"@ + part + ".csv"@) <==> part.len() == 4),
{
    reveal_strlit("atp_matches_");
    reveal_strlit(".csv");
    reveal_strlit("atp_matches");
    if vstd::utf8::is_ascii_chars(part) {
        let n = "atp_matches_"@ + part + ".csv"@;
        assert(vstd::utf8::is_ascii_chars(n)) by {
            assert forall|i: int| 0 <= i < n.len() implies '\0' <= #[trigger] n[i] <= '\u{7f}' by {
                if 12 <= i < 12 + part.len() {
                    assert(n[i] == part[i - 12]);
                }
            }
        }
        vstd::utf8::is_ascii_chars_encode_utf8(n);
        assert(n.subrange(0, 0int + "atp_matches"@.len()) =~= "atp_matches"@);
        assert(has_infix(n, "atp_matches"@));
    }
}

/// Law: the description of a match names the winner first and then the
/// loser: it begins with the winner's text, ` beat ` and the loser's text,
/// whatever their ids. Exchanging winner and loser exchanges the two texts
/// and leaves the rest of the description as it was.
pub proof fn lemma_entry_names_winner_first(
    winner: PlayerView,
    loser: PlayerView,
    tourney: TourneyView,
    m: MatchView,
)
    ensures
        ({
            let head = player_text(winner) + " beat "@ + player_text(loser);
            let swapped = player_text(loser) + " beat "@ + player_text(winner);
            let e = match_entry_text(winner, loser, tourney, m);
            &&& e.take(head.len() as int) == head
            &&& match_entry_text(loser, winner, tourney, m)
                == swapped + e.skip(head.len() as int)
        }),
{
    let head = player_text(winner) + " beat "@ + player_text(loser);
    let rest = " at "@ + tourney_text(tourney) + " in a "@ + match_text(m);
    let e = match_entry_text(winner, loser, tourney, m);
    assert(e =~= head + rest);
    assert(e.take(head.len() as int) =~= head);
    assert(e.skip(head.len() as int) =~= rest);
    assert(match_entry_text(loser, winner, tourney, m)
        =~= player_text(loser) + " beat "@ + player_text(winner) + rest);
}

} // verus!
