//! Records of the tennis data set: players, tourneys and matches, read from
//! the columns of CSV lines, and the text that describes each of them.

pub mod service;
pub mod table;

use vstd::prelude::*;
use vstd::string::StringSliceAdditionalSpecFns;
use vstd::utf8::{decode_utf8, encode_utf8, is_ascii_chars, is_char_boundary};
use crate::number::{
    int_text, nat_text, parse_i32, parse_u16, push_int_text, spec_parse_i32, spec_parse_u16,
};
use crate::text::{split_on, split_range, str_chars};

verus! {

broadcast use vstd::utf8::group_utf8_lib;

/// The views of a sequence of string slices.
pub open spec fn str_views(v: Seq<&str>) -> Seq<Seq<char>> {
    v.map_values(|x: &str| x@)
}

/// A date column can be cut without splitting a character: when its UTF-8 text is
/// eight bytes long, bytes 4 and 6 start characters.
pub open spec fn date_ok(d: Seq<char>) -> bool {
    let b = encode_utf8(d);
    b.len() == 8 ==> is_char_boundary(b, 4) && is_char_boundary(b, 6)
}

/// A `YYYYMMDD` date column written as `DD.MM.YYYY`: bytes 6..8, a dot,
/// bytes 4..6, a dot and bytes 0..4 of its UTF-8 text. Any other byte
/// length gives the empty text.
pub open spec fn date_text(d: Seq<char>) -> Seq<char> {
    let b = encode_utf8(d);
    if b.len() == 8 {
        decode_utf8(b.subrange(6, 8)) + seq!['.'] + decode_utf8(b.subrange(4, 6)) + seq!['.']
            + decode_utf8(b.subrange(0, 4))
    } else {
        Seq::<char>::empty()
    }
}

/// Law: an ASCII date `YYYYMMDD` can always be cut, and is written
/// `DD.MM.YYYY`.
pub proof fn lemma_ascii_date_text(d: Seq<char>)
    requires
        is_ascii_chars(d),
        d.len() == 8,
    ensures
        date_ok(d),
        date_text(d) == d.subrange(6, 8) + seq!['.'] + d.subrange(4, 6) + seq!['.'] + d.subrange(0, 4),
{
    let b = encode_utf8(d);
    vstd::utf8::is_ascii_chars_encode_utf8(d);
    vstd::utf8::encode_utf8_valid_utf8(d);
    assert(b.len() == 8);
    assert(d[4] <= '\u{7f}' && d[6] <= '\u{7f}');
    vstd::utf8::is_char_boundary_iff_not_is_continuation_byte(b, 4);
    vstd::utf8::is_char_boundary_iff_not_is_continuation_byte(b, 6);
    assert forall|lo: int, hi: int| 0 <= lo <= hi <= 8 implies #[trigger] decode_utf8(b.subrange(lo, hi)) == d.subrange(lo, hi) by {
        let piece = d.subrange(lo, hi);
        assert(is_ascii_chars(piece)) by {
            assert forall|i: int| 0 <= i < piece.len() implies '\0' <= #[trigger] piece[i] <= '\u{7f}' by {
                assert(piece[i] == d[lo + i]);
            }
        }
        vstd::utf8::is_ascii_chars_encode_utf8(piece);
        assert(encode_utf8(piece) =~= b.subrange(lo, hi)) by {
            assert forall|i: int| 0 <= i < piece.len() implies encode_utf8(piece)[i] == b.subrange(lo, hi)[i] by {
                assert(piece[i] == d[lo + i]);
                assert(encode_utf8(piece)[i] == piece[i] as u8);
                assert(b[lo + i] == d[lo + i] as u8);
            }
        }
        vstd::utf8::encode_utf8_decode_utf8(piece);
    }
    assert(decode_utf8(b.subrange(6, 8)) == d.subrange(6, 8));
    assert(decode_utf8(b.subrange(4, 6)) == d.subrange(4, 6));
    assert(decode_utf8(b.subrange(0, 4)) == d.subrange(0, 4));
}

/// Whether `date_ok` holds of `d`.
pub fn date_cuttable(d: &str) -> (r: bool)
    ensures
        r == date_ok(d@),
{
    if d.as_bytes().len() == 8 {
        d.is_char_boundary(4) && d.is_char_boundary(6)
    } else {
        true
    }
}

/// Writes a `YYYYMMDD` date as `DD.MM.YYYY`; any text whose UTF-8 length is
/// not eight bytes gives the empty string.
pub fn format_date(d: &str) -> (s: String)
    requires
        date_ok(d@),
    ensures
        s@ == date_text(d@),
{
    let ghost b = encode_utf8(d@);
    if d.as_bytes().len() == 8 {
        proof {
            assert(b.len() == 8);
            vstd::utf8::encode_utf8_valid_utf8(d@);
            vstd::utf8::is_char_boundary_iff_not_is_continuation_byte(b, 6);
        }
        let (head, tail) = d.split_at(4);
        proof {
            vstd::utf8::valid_utf8_split(b, 4);
            let tb = b.subrange(4, 8);
            assert(tail.spec_bytes() =~= tb);
            assert(tb[2] == b[6]);
            vstd::utf8::is_char_boundary_iff_not_is_continuation_byte(tb, 2);
        }
        let (mid, last) = tail.split_at(2);
        proof {
            assert(head.spec_bytes() =~= b.subrange(0, 4));
            assert(mid.spec_bytes() =~= b.subrange(4, 6));
            assert(last.spec_bytes() =~= b.subrange(6, 8));
            vstd::utf8::encode_utf8_decode_utf8(head@);
            vstd::utf8::encode_utf8_decode_utf8(mid@);
            vstd::utf8::encode_utf8_decode_utf8(last@);
        }
        let mut s = String::new();
        s.append(last);
        s.push('.');
        s.append(mid);
        s.push('.');
        s.append(head);
        assert(s@ =~= date_text(d@));
        s
    } else {
        let s = String::new();
        assert(s@ =~= date_text(d@));
        s
    }
}


/// A tennis player, as one line of the players' file describes them.
pub struct TennisPlayer {
    pub id: i32,
    pub first_name: String,
    pub last_name: String,
    /// `true` for a right-handed player.
    pub hand: bool,
    /// `DD.MM.YYYY`, or empty when the file gives no full date.
    pub birthday: String,
    pub country_code: String,
}

/// The mathematical value of a `TennisPlayer`.
pub struct PlayerView {
    pub id: i32,
    pub first_name: Seq<char>,
    pub last_name: Seq<char>,
    pub hand: bool,
    pub birthday: Seq<char>,
    pub country_code: Seq<char>,
}

impl View for TennisPlayer {
    type V = PlayerView;

    open spec fn view(&self) -> PlayerView {
        PlayerView {
            id: self.id,
            first_name: self.first_name@,
            last_name: self.last_name@,
            hand: self.hand,
            birthday: self.birthday@,
            country_code: self.country_code@,
        }
    }
}

/// The columns of a player line can be read: there are at least six, the
/// first is an `i32` and the fifth is a date that can be cut.
pub open spec fn player_columns_ok(cols: Seq<Seq<char>>) -> bool {
    &&& cols.len() >= 6
    &&& spec_parse_i32(cols[0]) is Some
    &&& date_ok(cols[4])
}

/// The player that the columns `id, first name, last name, hand, birth date,
/// country` describe; the hand is right exactly when the column is `R`.
pub open spec fn player_of_columns(cols: Seq<Seq<char>>) -> PlayerView {
    PlayerView {
        id: spec_parse_i32(cols[0])->0,
        first_name: cols[1],
        last_name: cols[2],
        hand: cols[3] == seq!['R'],
        birthday: date_text(cols[4]),
        country_code: cols[5],
    }
}

/// A line of the players' file that `TennisPlayer::new` reads without a panic.
pub open spec fn player_line_ok(line: Seq<char>) -> bool {
    player_columns_ok(split_on(line, ','))
}

/// The player that a line of the players' file describes.
pub open spec fn player_of_line(line: Seq<char>) -> PlayerView {
    player_of_columns(split_on(line, ','))
}

/// The text that describes a player:
/// `{first} {last} ({right|left}-handed, born on {birthday} from {country})`.
pub open spec fn player_text(p: PlayerView) -> Seq<char> {
    p.first_name + " "@ + p.last_name + " ("@ + (if p.hand { "right"@ } else { "left"@ })
        + "-handed, born on "@ + p.birthday + " from "@ + p.country_code + ")"@
}

/// `s == "R"`.
fn is_right_hand(s: &String) -> (r: bool)
    ensures
        r == (s@ == seq!['R']),
{
    let cs = str_chars(s.as_str());
    let r = cs.len() == 1 && cs[0] == 'R';
    proof {
        if cs.len() == 1 && cs[0] == 'R' {
            assert(cs@ =~= seq!['R']);
        }
    }
    r
}

impl TennisPlayer {
    /// Reads a player from the comma-separated columns of a line, or gives
    /// `None` on a line that `new` does not accept.
    pub fn parse(line: &str) -> (r: Option<TennisPlayer>)
        ensures
            r is Some <==> player_line_ok(line@),
            r matches Some(p) ==> p@ == player_of_line(line@),
    {
        let cs = str_chars(line);
        let cols = split_range(&cs, 0, cs.len(), ',');
        assert(cs@.subrange(0, cs@.len() as int) =~= cs@);
        let ghost cv = split_on(line@, ',');
        if cols.len() < 6 {
            return None;
        }
        let id = match parse_i32(cols[0].as_str()) {
            Some(v) => v,
            None => return None,
        };
        let date = cols[4].as_str();
        if !date_cuttable(date) {
            return None;
        }
        let birthday = format_date(date);
        Some(TennisPlayer {
            id,
            first_name: cols[1].clone(),
            last_name: cols[2].clone(),
            hand: is_right_hand(&cols[3]),
            birthday,
            country_code: cols[5].clone(),
        })
    }

    /// Reads a player from a line of the players' file:
    /// `id,first name,last name,hand,YYYYMMDD,country`.
    pub fn new(line: &str) -> (p: TennisPlayer)
        requires
            player_line_ok(line@),
        ensures
            p@ == player_of_line(line@),
    {
        TennisPlayer::parse(line).unwrap()
    }

    /// The text that describes the player (see `player_text`).
    pub fn to_string(&self) -> (s: String)
        ensures
            s@ == player_text(self@),
    {
        let mut s = String::new();
        s.append(self.first_name.as_str());
        s.append(" ");
        s.append(self.last_name.as_str());
        s.append(" (");
        if self.hand {
            s.append("right");
        } else {
            s.append("left");
        }
        s.append("-handed, born on ");
        s.append(self.birthday.as_str());
        s.append(" from ");
        s.append(self.country_code.as_str());
        s.append(")");
        assert(s@ =~= player_text(self@));
        s
    }
}


/// A tourney, as the first six columns of a match line describe it.
pub struct Tourney {
    pub id: String,
    pub name: String,
    pub surface: String,
    pub draw_size: String,
    pub level: String,
    /// `DD.MM.YYYY`, or empty when the file gives no full date.
    pub date: String,
}

/// The mathematical value of a `Tourney`.
pub struct TourneyView {
    pub id: Seq<char>,
    pub name: Seq<char>,
    pub surface: Seq<char>,
    pub draw_size: Seq<char>,
    pub level: Seq<char>,
    pub date: Seq<char>,
}

impl View for Tourney {
    type V = TourneyView;

    open spec fn view(&self) -> TourneyView {
        TourneyView {
            id: self.id@,
            name: self.name@,
            surface: self.surface@,
            draw_size: self.draw_size@,
            level: self.level@,
            date: self.date@,
        }
    }
}

/// The columns of a tourney can be read: there are at least six and the
/// sixth is a date that can be cut.
pub open spec fn tourney_columns_ok(cols: Seq<Seq<char>>) -> bool {
    cols.len() >= 6 && date_ok(cols[5])
}

/// The tourney that the columns `id, name, surface, draw size, level,
/// YYYYMMDD` describe.
pub open spec fn tourney_of_columns(cols: Seq<Seq<char>>) -> TourneyView {
    TourneyView {
        id: cols[0],
        name: cols[1],
        surface: cols[2],
        draw_size: cols[3],
        level: cols[4],
        date: date_text(cols[5]),
    }
}

/// The text that describes a tourney: `{name} on {surface} (with a draw size
/// of {draw size} at level {level} on date {date})`.
pub open spec fn tourney_text(t: TourneyView) -> Seq<char> {
    t.name + " on "@ + t.surface + " (with a draw size of "@ + t.draw_size + " at level "@
        + t.level + " on date "@ + t.date + ")"@
}

impl Tourney {
    /// Reads a tourney from the columns `id, name, surface, draw size, level,
    /// YYYYMMDD`.
    pub fn new(data: Vec<&str>) -> (t: Tourney)
        requires
            tourney_columns_ok(str_views(data@)),
        ensures
            t@ == tourney_of_columns(str_views(data@)),
    {
        Tourney {
            id: data[0].to_owned(),
            name: data[1].to_owned(),
            surface: data[2].to_owned(),
            draw_size: data[3].to_owned(),
            level: data[4].to_owned(),
            date: format_date(data[5]),
        }
    }

    /// The text that describes the tourney (see `tourney_text`).
    pub fn to_string(&self) -> (s: String)
        ensures
            s@ == tourney_text(self@),
    {
        let mut s = String::new();
        s.append(self.name.as_str());
        s.append(" on ");
        s.append(self.surface.as_str());
        s.append(" (with a draw size of ");
        s.append(self.draw_size.as_str());
        s.append(" at level ");
        s.append(self.level.as_str());
        s.append(" on date ");
        s.append(self.date.as_str());
        s.append(")");
        assert(s@ =~= tourney_text(self@));
        s
    }
}

/// A singles match.
pub struct Match {
    /// The match number within its tourney.
    pub id: i32,
    pub tourney_id: String,
    pub winner_id: i32,
    pub loser_id: i32,
    pub score: String,
    /// 3 or 5 sets; 0 when the file gives no number.
    pub best_of: i32,
    pub round: String,
    /// In minutes; 0 when the file gives no number.
    pub length: u16,
}

/// The mathematical value of a `Match`.
pub struct MatchView {
    pub id: i32,
    pub tourney_id: Seq<char>,
    pub winner_id: i32,
    pub loser_id: i32,
    pub score: Seq<char>,
    pub best_of: i32,
    pub round: Seq<char>,
    pub length: u16,
}

impl View for Match {
    type V = MatchView;

    open spec fn view(&self) -> MatchView {
        MatchView {
            id: self.id,
            tourney_id: self.tourney_id@,
            winner_id: self.winner_id,
            loser_id: self.loser_id,
            score: self.score@,
            best_of: self.best_of,
            round: self.round@,
            length: self.length,
        }
    }
}

/// The columns of a match can be read: there are at least five and the
/// first, the match number, is an `i32`.
pub open spec fn match_columns_ok(cols: Seq<Seq<char>>) -> bool {
    cols.len() >= 5 && spec_parse_i32(cols[0]) is Some
}

/// The match that the columns `number, score, best of, round, minutes`
/// describe, played at the given tourney between the given players. A best-of
/// or a length that does not parse is 0.
pub open spec fn match_of_columns(
    tourney_id: Seq<char>,
    winner_id: i32,
    loser_id: i32,
    cols: Seq<Seq<char>>,
) -> MatchView {
    MatchView {
        id: spec_parse_i32(cols[0])->0,
        tourney_id,
        winner_id,
        loser_id,
        score: cols[1],
        best_of: match spec_parse_i32(cols[2]) {
            Some(v) => v,
            None => 0,
        },
        round: cols[3],
        length: match spec_parse_u16(cols[4]) {
            Some(v) => v,
            None => 0,
        },
    }
}

/// The text that describes a match: `match no {id} with a score of {score}
/// in a best of {best of} (round {round}, length in minutes {length})`.
pub open spec fn match_text(m: MatchView) -> Seq<char> {
    "match no "@ + int_text(m.id as int) + " with a score of "@ + m.score + " in a best of "@
        + int_text(m.best_of as int) + " (round "@ + m.round + ", length in minutes "@
        + nat_text(m.length as nat) + ")"@
}

impl Match {
    /// Reads a match from the columns `number, score, best of, round,
    /// minutes`.
    pub fn new(tourney_id: String, winner_id: i32, loser_id: i32, data: Vec<&str>) -> (m: Match)
        requires
            match_columns_ok(str_views(data@)),
        ensures
            m@ == match_of_columns(tourney_id@, winner_id, loser_id, str_views(data@)),
    {
        Match {
            tourney_id,
            winner_id,
            loser_id,
            id: parse_i32(data[0]).unwrap(),
            score: data[1].to_owned(),
            best_of: match parse_i32(data[2]) {
                Some(v) => v,
                None => 0,
            },
            round: data[3].to_owned(),
            length: match parse_u16(data[4]) {
                Some(v) => v,
                None => 0,
            },
        }
    }

    /// The text that describes the match (see `match_text`).
    pub fn to_string(&self) -> (s: String)
        ensures
            s@ == match_text(self@),
    {
        let mut s = String::new();
        s.append("match no ");
        push_int_text(&mut s, self.id as i64);
        s.append(" with a score of ");
        s.append(self.score.as_str());
        s.append(" in a best of ");
        push_int_text(&mut s, self.best_of as i64);
        s.append(" (round ");
        s.append(self.round.as_str());
        s.append(", length in minutes ");
        push_int_text(&mut s, self.length as i64);
        s.append(")");
        assert(s@ =~= match_text(self@));
        s
    }
}

} // verus!
