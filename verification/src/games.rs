//! From game records to a schedule.
//!
//! A game record names two competitors in its first two fields and gives the
//! outcome of their game, from the side of the first, in its third. A record
//! whose two names are equal is no game and is passed over. Every other
//! record becomes a [`Game`] between two slots of a [`Roster`], which
//! enrolls each competitor when it is first seen. The games keep the order of
//! their records, as a rating depends on the order in which the games of a
//! competitor are applied.
//!
//! The outcome is kept as the text of its field: it is a real number, and
//! reading it is left to the caller who computes with it.

use vstd::prelude::*;
use crate::records::{csv_records, read_records};
use crate::roster::{enrolled, lemma_enrolled, Roster};

verus! {

/// One game between two competitors of a roster.
#[derive(Debug, PartialEq, Eq)]
pub struct Game {
    /// The slot of the competitor named first.
    pub one: usize,
    /// The slot of the competitor named second.
    pub two: usize,
    /// The outcome field as written, from the side of the first competitor.
    pub outcome: String,
}

/// A game as a mathematical value.
pub struct GameView {
    pub one: int,
    pub two: int,
    pub outcome: Seq<char>,
}

impl DeepView for Game {
    type V = GameView;

    open spec fn deep_view(&self) -> GameView {
        GameView { one: self.one as int, two: self.two as int, outcome: self.outcome@ }
    }
}

/// A schedule as a mathematical value: the names by slot, and the games in
/// the order in which they are applied.
pub struct ScheduleView {
    pub names: Seq<Seq<char>>,
    pub games: Seq<GameView>,
}

impl ScheduleView {
    /// No name stands in two slots, every game is between two different slots
    /// of the roster, and every competitor plays in some game.
    pub open spec fn well_formed(self) -> bool {
        &&& self.names.no_duplicates()
        &&& forall|g: int|
            0 <= g < self.games.len() ==> {
                &&& 0 <= (#[trigger] self.games[g]).one < self.names.len()
                &&& 0 <= self.games[g].two < self.names.len()
                &&& self.games[g].one != self.games[g].two
            }
        &&& forall|slot: int| 0 <= slot < self.names.len() ==> #[trigger] self.plays(slot)
    }

    /// The competitor in the slot takes part in some game.
    pub open spec fn plays(self, slot: int) -> bool {
        exists|g: int|
            0 <= g < self.games.len() && ((#[trigger] self.games[g]).one == slot
                || self.games[g].two == slot)
    }
}

/// The number of fields that a record needs: two where it names one
/// competitor twice, three where it is a game.
pub open spec fn fields_needed(record: Seq<Seq<char>>) -> int {
    if record.len() >= 2 && record[0] == record[1] {
        2
    } else {
        3
    }
}

/// The record has every field that is read from it.
pub open spec fn complete(record: Seq<Seq<char>>) -> bool {
    record.len() >= fields_needed(record)
}

/// The record at `index` is the first that lacks a field.
pub open spec fn first_incomplete(records: Seq<Seq<Seq<char>>>, index: int) -> bool {
    &&& 0 <= index < records.len()
    &&& !complete(records[index])
    &&& forall|i: int| 0 <= i < index ==> complete(#[trigger] records[i])
}

/// The schedule after one more record. A record with one name twice changes
/// nothing. Any other enrolls its first name, then its second, and adds their
/// game at the end.
pub open spec fn extended(schedule: ScheduleView, record: Seq<Seq<char>>) -> ScheduleView {
    if record[0] == record[1] {
        schedule
    } else {
        let names = enrolled(enrolled(schedule.names, record[0]), record[1]);
        ScheduleView {
            names,
            games: schedule.games.push(
                GameView {
                    one: names.index_of(record[0]),
                    two: names.index_of(record[1]),
                    outcome: record[2],
                },
            ),
        }
    }
}

/// The schedule of a list of records: the empty schedule, extended by each
/// record in turn.
pub open spec fn planned(records: Seq<Seq<Seq<char>>>) -> ScheduleView
    decreases records.len(),
{
    if records.len() == 0 {
        ScheduleView { names: Seq::empty(), games: Seq::empty() }
    } else {
        extended(planned(records.drop_last()), records.last())
    }
}

/// The number of games among the records: those whose two names differ.
pub open spec fn games_among(records: Seq<Seq<Seq<char>>>) -> nat
    decreases records.len(),
{
    if records.len() == 0 {
        0
    } else {
        games_among(records.drop_last()) + if records.last()[0] == records.last()[1] {
            0nat
        } else {
            1nat
        }
    }
}

/// One more record keeps a schedule well-formed, and keeps every earlier
/// competitor and game where it was.
pub proof fn lemma_extended(schedule: ScheduleView, record: Seq<Seq<char>>)
    requires
        schedule.well_formed(),
    ensures
        extended(schedule, record).well_formed(),
        schedule.names.len() <= extended(schedule, record).names.len(),
        forall|slot: int|
            0 <= slot < schedule.names.len() ==> extended(schedule, record).names[slot]
                == schedule.names[slot],
        schedule.games.len() <= extended(schedule, record).games.len(),
        forall|g: int|
            0 <= g < schedule.games.len() ==> extended(schedule, record).games[g]
                == schedule.games[g],
        record[0] != record[1] ==> {
            let after = extended(schedule, record);
            let game = after.games.last();
            &&& after.games.len() == schedule.games.len() + 1
            &&& after.names[game.one] == record[0]
            &&& after.names[game.two] == record[1]
            &&& game.outcome == record[2]
        },
{
    if record[0] != record[1] {
        let first = enrolled(schedule.names, record[0]);
        let names = enrolled(first, record[1]);
        let after = extended(schedule, record);
        lemma_enrolled(schedule.names, record[0]);
        lemma_enrolled(first, record[1]);
        assert(names.contains(record[0]));
        assert(names.contains(record[1]));
        let one = names.index_of(record[0]);
        let two = names.index_of(record[1]);
        let last = schedule.games.len() as int;
        assert(after.games[last].one == one && after.games[last].two == two);
        assert forall|slot: int| 0 <= slot < after.names.len() implies #[trigger] after.plays(
            slot,
        ) by {
            if slot < schedule.names.len() {
                assert(schedule.plays(slot));
                let g = choose|g: int|
                    0 <= g < schedule.games.len() && ((#[trigger] schedule.games[g]).one == slot
                        || schedule.games[g].two == slot);
                assert(after.games[g] == schedule.games[g]);
            } else {
                assert(names[slot] == record[0] || names[slot] == record[1]);
                assert(after.games[last].one == slot || after.games[last].two == slot);
            }
        }
    }
}

/// The schedule of any list of records is well-formed, and it has one game
/// for each record whose two names differ.
pub proof fn lemma_planned(records: Seq<Seq<Seq<char>>>)
    ensures
        planned(records).well_formed(),
        planned(records).games.len() == games_among(records),
        planned(records).games.len() <= records.len(),
        planned(records).names.len() <= 2 * planned(records).games.len(),
    decreases records.len(),
{
    if records.len() > 0 {
        let before = planned(records.drop_last());
        lemma_planned(records.drop_last());
        lemma_extended(before, records.last());
        if records.last()[0] != records.last()[1] {
            lemma_enrolled(before.names, records.last()[0]);
            lemma_enrolled(enrolled(before.names, records.last()[0]), records.last()[1]);
        }
    }
}

/// The schedule of a longer list of records continues that of a shorter
/// one: no earlier competitor changes its slot, and no earlier game changes.
pub proof fn lemma_planned_grows(records: Seq<Seq<Seq<char>>>, shorter: int)
    requires
        0 <= shorter <= records.len(),
    ensures
        planned(records.take(shorter)).names.is_prefix_of(planned(records).names),
        planned(records.take(shorter)).games.is_prefix_of(planned(records).games),
    decreases records.len(),
{
    if shorter == records.len() {
        assert(records.take(shorter) =~= records);
    } else {
        let before = records.drop_last();
        assert(before.take(shorter) =~= records.take(shorter));
        lemma_planned_grows(before, shorter);
        lemma_planned(before);
        lemma_extended(planned(before), records.last());
    }
}

/// Every record whose two names differ is a game of the schedule, in the
/// place that it has among such records, with its names and its outcome.
pub proof fn lemma_game_of_record(records: Seq<Seq<Seq<char>>>, index: int)
    requires
        0 <= index < records.len(),
        records[index][0] != records[index][1],
    ensures
        ({
            let schedule = planned(records);
            let place = games_among(records.take(index)) as int;
            &&& place < schedule.games.len()
            &&& schedule.names[schedule.games[place].one] == records[index][0]
            &&& schedule.names[schedule.games[place].two] == records[index][1]
            &&& schedule.games[place].outcome == records[index][2]
        }),
{
    let upto = records.take(index + 1);
    assert(upto.drop_last() =~= records.take(index));
    assert(upto.last() == records[index]);
    lemma_planned(records.take(index));
    lemma_extended(planned(records.take(index)), records[index]);
    lemma_planned_grows(records, index + 1);
    lemma_planned(upto);
}

/// A roster with the games between its competitors, in the order in which
/// they are applied.
#[derive(Debug)]
pub struct Schedule {
    roster: Roster,
    games: Vec<Game>,
}

impl View for Schedule {
    type V = ScheduleView;

    closed spec fn view(&self) -> ScheduleView {
        ScheduleView { names: self.roster@, games: self.games.deep_view() }
    }
}

/// A record without a field that is read from it.
#[derive(Clone, Copy, Debug, PartialEq, Eq, Structural)]
pub struct MissingField {
    /// The position of the record, counted from zero after the header line.
    pub record: usize,
    /// The position of the first field that is not there.
    pub field: usize,
}

/// Why no schedule was made of a text.
#[derive(Debug)]
pub enum LoadError {
    /// The text is not well-formed CSV.
    Malformed(csv::Error),
    /// A record is too short.
    Incomplete(MissingField),
}

impl Schedule {
    #[verifier::type_invariant]
    spec fn sound(self) -> bool {
        (ScheduleView { names: self.roster@, games: self.games.deep_view() }).well_formed()
    }

    /// The competitors, each in its slot.
    pub fn roster(&self) -> (roster: &Roster)
        ensures
            roster@ == self@.names,
            self@.well_formed(),
    {
        proof {
            use_type_invariant(self);
        }
        &self.roster
    }

    /// The games in the order in which they are applied. Each is between two
    /// different slots of the roster.
    pub fn games(&self) -> (games: &Vec<Game>)
        ensures
            games.deep_view() == self@.games,
            self@.well_formed(),
            forall|g: int|
                0 <= g < games.len() ==> (#[trigger] games[g]).one < self@.names.len()
                    && games[g].two < self@.names.len() && games[g].one != games[g].two,
    {
        proof {
            use_type_invariant(self);
            assert forall|g: int| 0 <= g < self.games.len() implies (#[trigger] self.games[g]).one
                < self@.names.len() && self.games[g].two < self@.names.len() && self.games[g].one
                != self.games[g].two by {
                let game = self@.games[g];
                assert(game == self.games[g].deep_view());
                assert(0 <= game.one < self@.names.len());
            }
        }
        &self.games
    }
}

/// Make the schedule of a list of records, each given as the list of its
/// fields.
///
/// Fails at the first record that lacks a field: one with fewer than two
/// fields, or a game without a third.
pub fn plan(records: &Vec<Vec<String>>) -> (result: Result<Schedule, MissingField>)
    ensures
        match result {
            Ok(schedule) => {
                &&& forall|i: int|
                    0 <= i < records.len() ==> complete(#[trigger] records.deep_view()[i])
                &&& schedule@ == planned(records.deep_view())
                &&& schedule@.well_formed()
            },
            Err(missing) => {
                &&& first_incomplete(records.deep_view(), missing.record as int)
                &&& missing.field == records.deep_view()[missing.record as int].len()
            },
        },
{
    let ghost all = records.deep_view();
    let mut roster = Roster::new();
    let mut games: Vec<Game> = Vec::new();
    let mut index: usize = 0;
    assert(all.take(0) =~= Seq::<Seq<Seq<char>>>::empty());
    assert(games.deep_view() =~= Seq::<GameView>::empty());
    while index < records.len()
        invariant
            index <= records.len(),
            all == records.deep_view(),
            forall|i: int| 0 <= i < index ==> complete(#[trigger] all[i]),
            (ScheduleView { names: roster@, games: games.deep_view() }) == planned(
                all.take(index as int),
            ),
        decreases records.len() - index,
    {
        let record = &records[index];
        let ghost fields = all[index as int];
        let ghost before = ScheduleView { names: roster@, games: games.deep_view() };
        proof {
            assert(fields == record.deep_view());
            assert(fields.len() == record.len());
            assert(all.take(index + 1).drop_last() =~= all.take(index as int));
            assert(all.take(index + 1).last() == fields);
            lemma_planned(all.take(index as int));
        }
        if record.len() < 2 {
            return Err(MissingField { record: index, field: record.len() });
        }
        assert(fields[0] == record[0]@ && fields[1] == record[1]@);
        if record[0] != record[1] {
            if record.len() < 3 {
                return Err(MissingField { record: index, field: record.len() });
            }
            assert(fields[2] == record[2]@);
            let one = roster.enroll(&record[0]);
            proof {
                lemma_enrolled(before.names, fields[0]);
                lemma_enrolled(roster@, fields[1]);
            }
            let two = roster.enroll(&record[1]);
            proof {
                crate::roster::lemma_slot_is_unique(roster@, fields[0], one as int);
            }
            games.push(Game { one, two, outcome: record[2].clone() });
            assert(games.deep_view() =~= extended(before, fields).games);
        }
        index += 1;
    }
    proof {
        assert(all.take(index as int) =~= all);
        lemma_planned(all);
    }
    Ok(Schedule { roster, games })
}

/// Read a comma-separated text with a header line and make the schedule of
/// its records.
pub fn load(text: &[u8]) -> (result: Result<Schedule, LoadError>)
    ensures
        match result {
            Ok(schedule) => {
                &&& csv_records(text@) matches Some(records)
                &&& forall|i: int| 0 <= i < records.len() ==> complete(#[trigger] records[i])
                &&& schedule@ == planned(records)
                &&& schedule@.well_formed()
            },
            Err(LoadError::Malformed(_)) => csv_records(text@) is None,
            Err(LoadError::Incomplete(missing)) => {
                &&& csv_records(text@) matches Some(records)
                &&& first_incomplete(records, missing.record as int)
                &&& missing.field == records[missing.record as int].len()
            },
        },
{
    match read_records(text) {
        Err(error) => Err(LoadError::Malformed(error)),
        Ok(records) => match plan(&records) {
            Ok(schedule) => Ok(schedule),
            Err(missing) => Err(LoadError::Incomplete(missing)),
        },
    }
}

} // verus!
