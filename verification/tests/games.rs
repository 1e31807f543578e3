use csvglicko::games::{load, plan, Game, LoadError, MissingField};

fn record(fields: &[&str]) -> Vec<String> {
    fields.iter().map(|field| String::from(*field)).collect()
}

fn game(one: usize, two: usize, outcome: &str) -> Game {
    Game { one, two, outcome: String::from(outcome) }
}

fn names(texts: &[&str]) -> Vec<String> {
    record(texts)
}

#[test]
fn plan_of_no_records_is_empty() {
    let schedule = plan(&vec![]).unwrap();
    assert_eq!(schedule.roster().len(), 0);
    assert!(schedule.games().is_empty());
}

#[test]
fn plan_enrolls_by_first_appearance_and_keeps_the_order_of_games() {
    let records = vec![
        record(&["ann", "bob", "1"]),
        record(&["cy", "ann", "0.5"]),
        record(&["bob", "cy", "0"]),
        record(&["bob", "ann", "1.0"]),
    ];
    let schedule = plan(&records).unwrap();
    assert_eq!(schedule.roster().names(), &names(&["ann", "bob", "cy"]));
    assert_eq!(
        schedule.games(),
        &vec![
            game(0, 1, "1"),
            game(2, 0, "0.5"),
            game(1, 2, "0"),
            game(1, 0, "1.0"),
        ]
    );
}

#[test]
fn plan_passes_over_a_competitor_playing_itself() {
    let records = vec![
        record(&["ann", "ann", "1"]),
        record(&["ann", "bob", "1"]),
        record(&["dee", "dee", "0"]),
        record(&["bob", "bob", "0.5"]),
    ];
    let schedule = plan(&records).unwrap();
    assert_eq!(schedule.roster().names(), &names(&["ann", "bob"]));
    assert_eq!(schedule.games(), &vec![game(0, 1, "1")]);
}

#[test]
fn plan_does_not_enroll_who_only_plays_itself() {
    let records = vec![record(&["ann", "ann", "1"])];
    let schedule = plan(&records).unwrap();
    assert_eq!(schedule.roster().len(), 0);
    assert!(schedule.games().is_empty());
}

#[test]
fn plan_keeps_the_outcome_as_written() {
    let records = vec![record(&["ann", "bob", " not a number "])];
    let schedule = plan(&records).unwrap();
    assert_eq!(schedule.games(), &vec![game(0, 1, " not a number ")]);
}

#[test]
fn plan_ignores_fields_after_the_third() {
    let records = vec![record(&["ann", "bob", "1", "2024-01-01", "blitz"])];
    let schedule = plan(&records).unwrap();
    assert_eq!(schedule.games(), &vec![game(0, 1, "1")]);
}

#[test]
fn plan_reports_a_record_without_fields() {
    let records = vec![record(&["ann", "bob", "1"]), record(&[])];
    assert_eq!(plan(&records).unwrap_err(), MissingField { record: 1, field: 0 });
}

#[test]
fn plan_reports_a_record_without_a_second_name() {
    let records = vec![record(&["ann"])];
    assert_eq!(plan(&records).unwrap_err(), MissingField { record: 0, field: 1 });
}

#[test]
fn plan_reports_a_game_without_an_outcome() {
    let records = vec![
        record(&["ann", "bob", "1"]),
        record(&["ann", "ann"]),
        record(&["bob", "ann"]),
        record(&["bob"]),
    ];
    assert_eq!(plan(&records).unwrap_err(), MissingField { record: 2, field: 2 });
}

#[test]
fn plan_wants_no_outcome_where_there_is_no_game() {
    let records = vec![record(&["ann", "ann"]), record(&["bob", "bob"])];
    let schedule = plan(&records).unwrap();
    assert_eq!(schedule.roster().len(), 0);
    assert!(schedule.games().is_empty());
}

#[test]
fn every_game_is_between_two_different_slots_of_the_roster() {
    let records = vec![
        record(&["a", "b", "1"]),
        record(&["b", "c", "1"]),
        record(&["c", "c", "1"]),
        record(&["d", "a", "0"]),
        record(&["a", "d", "0"]),
    ];
    let schedule = plan(&records).unwrap();
    let count = schedule.roster().len();
    assert_eq!(count, 4);
    let mut plays = vec![false; count];
    for game in schedule.games() {
        assert!(game.one < count && game.two < count && game.one != game.two);
        plays[game.one] = true;
        plays[game.two] = true;
    }
    assert_eq!(plays, vec![true; count]);
}

#[test]
fn load_reads_the_records_after_the_header() {
    let text = "white,black,result\nann,bob,1\nbob,cy,0.5\ncy,ann,0\n";
    let schedule = load(text.as_bytes()).unwrap();
    assert_eq!(schedule.roster().names(), &names(&["ann", "bob", "cy"]));
    assert_eq!(
        schedule.games(),
        &vec![game(0, 1, "1"), game(1, 2, "0.5"), game(2, 0, "0")]
    );
}

#[test]
fn load_takes_the_first_line_for_the_header() {
    let text = "ann,bob,1\nbob,cy,0.5\n";
    let schedule = load(text.as_bytes()).unwrap();
    assert_eq!(schedule.roster().names(), &names(&["bob", "cy"]));
    assert_eq!(schedule.games(), &vec![game(0, 1, "0.5")]);
}

#[test]
fn load_of_an_empty_text_or_a_lone_header_is_empty() {
    for text in ["", "white,black,result\n", "white,black,result"] {
        let schedule = load(text.as_bytes()).unwrap();
        assert_eq!(schedule.roster().len(), 0);
        assert!(schedule.games().is_empty());
    }
}

#[test]
fn load_reads_quoted_fields() {
    let text = "one,two,outcome\n\"Smith, Ann\",\"Bob \"\"the Rook\"\"\",1\n";
    let schedule = load(text.as_bytes()).unwrap();
    assert_eq!(
        schedule.roster().names(),
        &names(&["Smith, Ann", "Bob \"the Rook\""])
    );
    assert_eq!(schedule.games(), &vec![game(0, 1, "1")]);
}

#[test]
fn load_does_not_trim_fields() {
    let text = "one,two,outcome\nann, ann,1\n";
    let schedule = load(text.as_bytes()).unwrap();
    assert_eq!(schedule.roster().names(), &names(&["ann", " ann"]));
}

#[test]
fn load_passes_over_a_competitor_playing_itself() {
    let text = "one,two,outcome\nann,ann,1\nann,bob,0\n";
    let schedule = load(text.as_bytes()).unwrap();
    assert_eq!(schedule.games(), &vec![game(0, 1, "0")]);
}

#[test]
fn load_refuses_records_of_unequal_length() {
    let text = "one,two,outcome\nann,bob,1\nbob,cy\n";
    assert!(matches!(load(text.as_bytes()), Err(LoadError::Malformed(_))));
}

#[test]
fn load_refuses_text_that_is_not_utf8() {
    let mut text = Vec::from("one,two,outcome\nann,".as_bytes());
    text.push(0xff);
    text.extend_from_slice(",1\n".as_bytes());
    assert!(matches!(load(&text), Err(LoadError::Malformed(_))));
}

#[test]
fn load_reports_a_game_without_an_outcome() {
    let text = "one,two\nann,ann\nann,bob\n";
    match load(text.as_bytes()) {
        Err(LoadError::Incomplete(missing)) => {
            assert_eq!(missing, MissingField { record: 1, field: 2 })
        }
        other => panic!("unexpected: {:?}", other.map(|schedule| schedule.games().len())),
    }
}

#[test]
fn load_reports_a_record_with_one_field() {
    let text = "name\nann\n";
    match load(text.as_bytes()) {
        Err(LoadError::Incomplete(missing)) => {
            assert_eq!(missing, MissingField { record: 0, field: 1 })
        }
        other => panic!("unexpected: {:?}", other.map(|schedule| schedule.games().len())),
    }
}
