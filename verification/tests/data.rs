use rust_graphql_sonic::data::service::{
    add_file_matches, describe_match, is_match_file_name, matches_from_files, players_from_text,
};
use rust_graphql_sonic::data::table::StrTable;
use rust_graphql_sonic::data::{date_cuttable, format_date, Match, TennisPlayer, Tourney};

fn match_line(cols: &[(usize, &str)]) -> String {
    let mut v = vec![String::new(); 27];
    for (i, s) in cols {
        v[*i] = s.to_string();
    }
    v.join(",")
}

fn sample_match_line(tourney: &str, num: &str, winner: &str, loser: &str) -> String {
    match_line(&[
        (0, tourney),
        (1, "Australian Open"),
        (2, "Hard"),
        (3, "128"),
        (4, "G"),
        (5, "20190114"),
        (6, num),
        (7, winner),
        (15, loser),
        (23, "6-3 6-2 6-3"),
        (24, "5"),
        (25, "F"),
        (26, "124"),
    ])
}

#[test]
fn player_new_reads_the_columns() {
    let p = TennisPlayer::new("104925,Novak,Djokovic,R,19870522,SRB");
    assert_eq!(p.id, 104925);
    assert_eq!(p.first_name, "Novak");
    assert_eq!(p.last_name, "Djokovic");
    assert!(p.hand);
    assert_eq!(p.birthday, "22.05.1987");
    assert_eq!(p.country_code, "SRB");
}

#[test]
fn player_hand_is_right_only_for_r() {
    assert!(!TennisPlayer::new("1,A,B,L,19870522,X").hand);
    assert!(!TennisPlayer::new("1,A,B,U,19870522,X").hand);
    assert!(!TennisPlayer::new("1,A,B,RR,19870522,X").hand);
    assert!(!TennisPlayer::new("1,A,B,,19870522,X").hand);
}

#[test]
fn player_date_of_other_length_is_empty() {
    assert_eq!(TennisPlayer::new("1,A,B,R,1987,X").birthday, "");
    assert_eq!(TennisPlayer::new("1,A,B,R,,X").birthday, "");
    assert_eq!(TennisPlayer::new("1,A,B,R,198705221,X").birthday, "");
}

#[test]
fn player_extra_columns_are_ignored() {
    let p = TennisPlayer::new("-7,A,B,R,19870522,X,extra,more");
    assert_eq!(p.id, -7);
    assert_eq!(p.country_code, "X");
}

#[test]
fn player_parse_refuses_what_new_would_panic_on() {
    assert!(TennisPlayer::parse("1,A,B,R,19870522").is_none());
    assert!(TennisPlayer::parse("x1,A,B,R,19870522,X").is_none());
    assert!(TennisPlayer::parse("2147483648,A,B,R,19870522,X").is_none());
    // byte 4 of "abcé123" falls inside the two bytes of 'é'
    assert!(TennisPlayer::parse("1,A,B,R,abc\u{e9}123,X").is_none());
    assert!(TennisPlayer::parse("").is_none());
}

#[test]
fn non_ascii_date_is_cut_by_bytes() {
    // 'é' takes two bytes, so the text is eight bytes long
    assert!(date_cuttable("\u{e9}123456"));
    assert_eq!(format_date("\u{e9}123456"), "56.34.\u{e9}12");
    assert!(!date_cuttable("abc\u{e9}123"));
    assert!(date_cuttable("123"));
}

#[test]
fn player_text() {
    let p = TennisPlayer::new("104925,Novak,Djokovic,R,19870522,SRB");
    assert_eq!(p.to_string(), "Novak Djokovic (right-handed, born on 22.05.1987 from SRB)");
    let q = TennisPlayer::new("1,Ann,Lee,L,,USA");
    assert_eq!(q.to_string(), "Ann Lee (left-handed, born on  from USA)");
}

#[test]
fn tourney_new_and_text() {
    let t = Tourney::new(vec!["2019-580", "Australian Open", "Hard", "128", "G", "20190114"]);
    assert_eq!(t.id, "2019-580");
    assert_eq!(t.date, "14.01.2019");
    assert_eq!(
        t.to_string(),
        "Australian Open on Hard (with a draw size of 128 at level G on date 14.01.2019)"
    );
}

#[test]
fn match_new_and_text() {
    let m = Match::new("2019-580".to_string(), 104925, 104745, vec!["300", "6-3 6-2 6-3", "5", "F", "124"]);
    assert_eq!(m.id, 300);
    assert_eq!(m.best_of, 5);
    assert_eq!(m.length, 124);
    assert_eq!(m.round, "F");
    assert_eq!(
        m.to_string(),
        "match no 300 with a score of 6-3 6-2 6-3 in a best of 5 (round F, length in minutes 124)"
    );
}

#[test]
fn match_numbers_that_do_not_parse_are_zero() {
    let m = Match::new("t".to_string(), 1, 2, vec!["-4", "W/O", "", "R32", "70000"]);
    assert_eq!(m.id, -4);
    assert_eq!(m.best_of, 0);
    assert_eq!(m.length, 0);
    assert_eq!(
        m.to_string(),
        "match no -4 with a score of W/O in a best of 0 (round R32, length in minutes 0)"
    );
}

#[test]
fn players_from_text_keys_players_by_id_and_keeps_the_last() {
    let text = "1,A,B,R,19870522,X\r\n2,C,D,L,19900101,Y\n1,E,F,L,,Z\n";
    let players = players_from_text(text).unwrap();
    assert_eq!(players.len(), 2);
    assert_eq!(players[&1].first_name, "E");
    assert_eq!(players[&2].country_code, "Y");
}

#[test]
fn players_from_text_reports_the_first_bad_line() {
    assert_eq!(players_from_text("1,A,B,R,19870522,X\nplayer_id,a,b,c,d,e\n2,x").err(), Some(1));
    assert_eq!(players_from_text("").unwrap().len(), 0);
}

#[test]
fn match_file_skips_its_header_and_keys_matches() {
    let header = "tourney_id,tourney_name";
    let text = format!(
        "{}\n{}\n{}\n",
        header,
        sample_match_line("2019-580", "300", "104925", "104745"),
        sample_match_line("2019-580", "299", "", "104745")
    );
    let mut tourneys = StrTable::new();
    let mut matches = StrTable::new();
    assert!(add_file_matches(&text, &mut tourneys, &mut matches).is_ok());
    assert_eq!(tourneys.len(), 1);
    assert_eq!(matches.len(), 2);
    assert_eq!(matches.keys(), &vec!["2019-580:300".to_string(), "2019-580:299".to_string()]);
    let m = matches.get("2019-580:299").unwrap();
    assert_eq!(m.winner_id, 0);
    assert_eq!(m.loser_id, 104745);
    assert_eq!(m.tourney_id, "2019-580");
    assert_eq!(tourneys.get("2019-580").unwrap().name, "Australian Open");
}

#[test]
fn match_file_keeps_the_first_tourney_of_an_id() {
    let mut second = sample_match_line("2019-580", "301", "1", "2");
    second = second.replacen("Australian Open", "Renamed", 1);
    let text = format!("h\n{}\n{}", sample_match_line("2019-580", "300", "1", "2"), second);
    let mut tourneys = StrTable::new();
    let mut matches = StrTable::new();
    assert!(add_file_matches(&text, &mut tourneys, &mut matches).is_ok());
    assert_eq!(tourneys.get("2019-580").unwrap().name, "Australian Open");
    assert_eq!(matches.len(), 2);
}

#[test]
fn match_file_reports_the_first_bad_line() {
    let text = format!("h\n{}\nshort,line\n", sample_match_line("t", "1", "1", "2"));
    let mut tourneys = StrTable::new();
    let mut matches = StrTable::new();
    assert_eq!(add_file_matches(&text, &mut tourneys, &mut matches), Err(2));
    assert_eq!(matches.len(), 1);
    let bad_loser = format!("h\n{}", sample_match_line("t", "1", "1", "x"));
    assert_eq!(add_file_matches(&bad_loser, &mut tourneys, &mut matches), Err(1));
}

#[test]
fn a_header_alone_gives_no_match() {
    let mut tourneys = StrTable::new();
    let mut matches = StrTable::new();
    assert!(add_file_matches("only a header\n", &mut tourneys, &mut matches).is_ok());
    assert!(add_file_matches("", &mut tourneys, &mut matches).is_ok());
    assert_eq!(matches.len(), 0);
}

#[test]
fn matches_from_files_reads_every_file() {
    let files = vec![
        format!("h\n{}", sample_match_line("2018-1", "1", "1", "2")),
        format!("h\n{}", sample_match_line("2019-1", "1", "2", "1")),
    ];
    let (tourneys, matches) = matches_from_files(&files).unwrap();
    assert_eq!(tourneys.len(), 2);
    assert_eq!(matches.len(), 2);
    assert!(matches.contains_key("2018-1:1"));
    assert!(matches.contains_key("2019-1:1"));
    let bad = vec![files[0].clone(), "h\nx".to_string()];
    assert_eq!(matches_from_files(&bad).err(), Some((1, 1)));
}

#[test]
fn match_file_names() {
    assert!(is_match_file_name("atp_matches_2019.csv"));
    assert!(!is_match_file_name("atp_matches_qual_chall_2019.csv"));
    assert!(!is_match_file_name("atp_players.csv"));
    assert!(!is_match_file_name("atp_rankings_00s.csv"));
    assert!(is_match_file_name("xxxxxxxxxatp_matches"));
}

#[test]
fn describe_match_follows_the_readme_format() {
    let players = players_from_text("1,Novak,Djokovic,R,19870522,SRB\n2,Rafael,Nadal,L,19860603,ESP").unwrap();
    let text = format!("h\n{}", sample_match_line("2019-580", "300", "1", "2"));
    let mut tourneys = StrTable::new();
    let mut matches = StrTable::new();
    add_file_matches(&text, &mut tourneys, &mut matches).unwrap();
    let m = matches.get("2019-580:300").unwrap();
    let entry = describe_match(&players, &tourneys, m).unwrap();
    assert_eq!(
        entry,
        "Novak Djokovic (right-handed, born on 22.05.1987 from SRB) beat Rafael Nadal (left-handed, born on 03.06.1986 from ESP) at Australian Open on Hard (with a draw size of 128 at level G on date 14.01.2019) in a match no 300 with a score of 6-3 6-2 6-3 in a best of 5 (round F, length in minutes 124)"
    );
    let m2 = Match::new("2019-580".to_string(), 1, 3, vec!["1", "", "", "", ""]);
    assert!(describe_match(&players, &tourneys, &m2).is_none());
    let m3 = Match::new("nowhere".to_string(), 1, 2, vec!["1", "", "", "", ""]);
    assert!(describe_match(&players, &tourneys, &m3).is_none());
}
