//! The competitors of a run, in the order in which they were first seen.
//!
//! A [`Roster`] gives every name a slot: its position in the order of first
//! appearance. The ratings of a run are kept by slot, so that a competitor is
//! found again by number once its name has been enrolled. No name holds two
//! slots.
//!
//! Beside the names the roster keeps an index: the slots in the dictionary
//! order of the bytes of their names. A name is looked up by bisecting the
//! index.

use vstd::prelude::*;
use vstd::utf8::{encode_utf8, encode_utf8_decode_utf8};

verus! {

/// The names after `name` has been looked up or added: unchanged where it is
/// among them already, extended by it at the end where it is not.
pub open spec fn enrolled(names: Seq<Seq<char>>, name: Seq<char>) -> Seq<Seq<char>> {
    if names.contains(name) {
        names
    } else {
        names.push(name)
    }
}

/// Looking a name up or adding it keeps the names distinct, keeps every
/// earlier name in its slot, and leaves the name enrolled.
pub proof fn lemma_enrolled(names: Seq<Seq<char>>, name: Seq<char>)
    requires
        names.no_duplicates(),
    ensures
        enrolled(names, name).no_duplicates(),
        enrolled(names, name).contains(name),
        names.len() <= enrolled(names, name).len() <= names.len() + 1,
        forall|i: int| 0 <= i < names.len() ==> enrolled(names, name)[i] == names[i],
        forall|other: Seq<char>|
            enrolled(names, name).contains(other) <==> (names.contains(other) || other == name),
{
    let after = enrolled(names, name);
    if !names.contains(name) {
        assert(after[names.len() as int] == name);
        assert forall|other: Seq<char>| after.contains(other) implies names.contains(other)
            || other == name by {
            let i = choose|i: int| 0 <= i < after.len() && after[i] == other;
            if i < names.len() {
                assert(names[i] == other);
            }
        }
        assert forall|other: Seq<char>| names.contains(other) implies after.contains(other) by {
            let i = choose|i: int| 0 <= i < names.len() && names[i] == other;
            assert(after[i] == other);
        }
    }
}

/// Among distinct names, a name stands in one slot only.
pub proof fn lemma_slot_is_unique(names: Seq<Seq<char>>, name: Seq<char>, slot: int)
    requires
        names.no_duplicates(),
        0 <= slot < names.len(),
        names[slot] == name,
    ensures
        names.index_of(name) == slot,
{
}

/// The bytes `a` and `b` agree before the place `at`, where `a` has ended
/// or has the lesser byte.
spec fn parts_at(a: Seq<u8>, b: Seq<u8>, at: int) -> bool {
    &&& 0 <= at <= a.len()
    &&& at < b.len()
    &&& forall|i: int| 0 <= i < at ==> a[i] == b[i]
    &&& at == a.len() || a[at] < b[at]
}

/// `a` comes strictly before `b` in the dictionary order of bytes.
spec fn sorts_before(a: Seq<u8>, b: Seq<u8>) -> bool {
    exists|at: int| #[trigger] parts_at(a, b, at)
}

/// What comes before another is not the same.
proof fn lemma_sorts_before_differs(a: Seq<u8>, b: Seq<u8>)
    requires
        sorts_before(a, b),
    ensures
        a != b,
{
    let at = choose|at: int| #[trigger] parts_at(a, b, at);
    assert(at == a.len() || a[at] != b[at]);
}

/// The dictionary order is transitive.
proof fn lemma_sorts_before_chains(a: Seq<u8>, b: Seq<u8>, c: Seq<u8>)
    requires
        sorts_before(a, b),
        sorts_before(b, c),
    ensures
        sorts_before(a, c),
{
    let first = choose|at: int| #[trigger] parts_at(a, b, at);
    let second = choose|at: int| #[trigger] parts_at(b, c, at);
    if first <= second {
        assert(parts_at(a, c, first));
    } else {
        assert(parts_at(a, c, second));
    }
}

/// The bytes that a name is ordered by in the index.
spec fn key(name: Seq<char>) -> Seq<u8> {
    encode_utf8(name)
}

/// `sorted` lists every slot of `names` once, in the strict dictionary
/// order of the names.
spec fn indexes(sorted: Seq<usize>, names: Seq<Seq<char>>) -> bool {
    &&& sorted.len() == names.len()
    &&& forall|p: int| 0 <= p < sorted.len() ==> #[trigger] sorted[p] < names.len()
    &&& forall|slot: usize| slot < names.len() ==> #[trigger] sorted.contains(slot)
    &&& forall|p: int, q: int|
        0 <= p < q < sorted.len() ==> sorts_before(
            key(names[#[trigger] sorted[p] as int]),
            key(names[#[trigger] sorted[q] as int]),
        )
}

/// `place` is where `name` belongs in the index: what stands before it
/// sorts before the name, and the name sorts before the rest.
spec fn belongs_at(sorted: Seq<usize>, names: Seq<Seq<char>>, name: Seq<char>, place: int) -> bool {
    &&& 0 <= place <= sorted.len()
    &&& forall|p: int|
        0 <= p < place ==> sorts_before(key(names[#[trigger] sorted[p] as int]), key(name))
    &&& forall|p: int|
        place <= p < sorted.len() ==> sorts_before(
            key(name),
            key(names[#[trigger] sorted[p] as int]),
        )
}

/// How one name stands to another in the dictionary order.
enum Side {
    Before,
    Same,
    After,
}

/// Compare two names byte by byte.
fn side_of(a: &String, b: &String) -> (side: Side)
    ensures
        match side {
            Side::Before => sorts_before(key(a@), key(b@)),
            Side::Same => a@ == b@,
            Side::After => sorts_before(key(b@), key(a@)),
        },
{
    let x = a.as_str().as_bytes();
    let y = b.as_str().as_bytes();
    let mut at: usize = 0;
    while at < x.len() && at < y.len() && x[at] == y[at]
        invariant
            at <= x.len(),
            at <= y.len(),
            forall|i: int| 0 <= i < at ==> x@[i] == y@[i],
        decreases x.len() - at,
    {
        at += 1;
    }
    if at == x.len() && at == y.len() {
        proof {
            assert(x@ =~= y@);
            encode_utf8_decode_utf8(a@);
            encode_utf8_decode_utf8(b@);
        }
        Side::Same
    } else if at == x.len() {
        assert(parts_at(x@, y@, at as int));
        Side::Before
    } else if at == y.len() {
        assert(parts_at(y@, x@, at as int));
        Side::After
    } else if x[at] < y[at] {
        assert(parts_at(x@, y@, at as int));
        Side::Before
    } else {
        assert(parts_at(y@, x@, at as int));
        Side::After
    }
}

/// The names of the competitors seen so far, each in its slot.
#[derive(Debug)]
pub struct Roster {
    names: Vec<String>,
    sorted: Vec<usize>,
}

impl View for Roster {
    type V = Seq<Seq<char>>;

    /// The names in the order of their slots.
    closed spec fn view(&self) -> Seq<Seq<char>> {
        self.names.deep_view()
    }
}

impl Roster {
    #[verifier::type_invariant]
    spec fn sound(self) -> bool {
        &&& self.names.deep_view().no_duplicates()
        &&& indexes(self.sorted@, self.names.deep_view())
    }

    /// A roster without competitors.
    pub fn new() -> (roster: Roster)
        ensures
            roster@ == Seq::<Seq<char>>::empty(),
    {
        let roster = Roster { names: Vec::new(), sorted: Vec::new() };
        assert(roster.names.deep_view() =~= Seq::<Seq<char>>::empty());
        roster
    }

    /// The number of competitors.
    pub fn len(&self) -> (count: usize)
        ensures
            count == self@.len(),
            self@.no_duplicates(),
    {
        proof {
            use_type_invariant(self);
        }
        self.names.len()
    }

    /// The name in a slot, or `None` where the roster has no such slot.
    pub fn name(&self, slot: usize) -> (name: Option<&String>)
        ensures
            match name {
                Some(name) => slot < self@.len() && name@ == self@[slot as int],
                None => slot >= self@.len(),
            },
    {
        if slot < self.names.len() {
            Some(&self.names[slot])
        } else {
            None
        }
    }

    /// All names, in the order of their slots.
    pub fn names(&self) -> (names: &Vec<String>)
        ensures
            names.deep_view() == self@,
            self@.no_duplicates(),
    {
        proof {
            use_type_invariant(self);
        }
        &self.names
    }

    /// Bisect the index for a name: its slot, or the place in the index
    /// where it belongs.
    fn locate(&self, name: &String) -> (found: Result<usize, usize>)
        ensures
            match found {
                Ok(slot) => slot < self@.len() && self@[slot as int] == name@,
                Err(place) => !self@.contains(name@) && belongs_at(
                    self.sorted@,
                    self@,
                    name@,
                    place as int,
                ),
            },
    {
        proof {
            use_type_invariant(self);
        }
        let ghost names = self.names.deep_view();
        let mut low: usize = 0;
        let mut high: usize = self.sorted.len();
        while low < high
            invariant
                low <= high <= self.sorted.len(),
                names == self.names.deep_view(),
                indexes(self.sorted@, names),
                forall|p: int|
                    0 <= p < low ==> sorts_before(
                        key(names[#[trigger] self.sorted[p] as int]),
                        key(name@),
                    ),
                forall|p: int|
                    high <= p < self.sorted.len() ==> sorts_before(
                        key(name@),
                        key(names[#[trigger] self.sorted[p] as int]),
                    ),
            decreases high - low,
        {
            let middle = low + (high - low) / 2;
            let slot = self.sorted[middle];
            let ghost there = key(names[slot as int]);
            match side_of(&self.names[slot], name) {
                Side::Same => {
                    return Ok(slot);
                },
                Side::Before => {
                    proof {
                        assert forall|p: int| 0 <= p < middle + 1 implies sorts_before(
                            key(names[#[trigger] self.sorted[p] as int]),
                            key(name@),
                        ) by {
                            if p < middle {
                                lemma_sorts_before_chains(
                                    key(names[self.sorted[p] as int]),
                                    there,
                                    key(name@),
                                );
                            }
                        }
                    }
                    low = middle + 1;
                },
                Side::After => {
                    proof {
                        assert forall|p: int| middle <= p < self.sorted.len() implies sorts_before(
                            key(name@),
                            key(names[#[trigger] self.sorted[p] as int]),
                        ) by {
                            if p > middle {
                                lemma_sorts_before_chains(
                                    key(name@),
                                    there,
                                    key(names[self.sorted[p] as int]),
                                );
                            }
                        }
                    }
                    high = middle;
                },
            }
        }
        proof {
            assert forall|slot: int| 0 <= slot < names.len() implies names[slot] != name@ by {
                let entry = slot as usize;
                assert(self.sorted@.contains(entry));
                let p = choose|p: int| 0 <= p < self.sorted.len() && self.sorted[p] == entry;
                if p < low {
                    lemma_sorts_before_differs(key(names[slot]), key(name@));
                } else {
                    lemma_sorts_before_differs(key(name@), key(names[slot]));
                }
            }
        }
        Err(low)
    }

    /// The slot of a name, or `None` where the name is not enrolled.
    pub fn find(&self, name: &String) -> (slot: Option<usize>)
        ensures
            match slot {
                Some(slot) => slot < self@.len() && self@[slot as int] == name@,
                None => !self@.contains(name@),
            },
    {
        match self.locate(name) {
            Ok(slot) => Some(slot),
            Err(_) => None,
        }
    }

    /// The slot of a name, which is added at the end where it is not
    /// enrolled yet. Every other name keeps its slot.
    pub fn enroll(&mut self, name: &String) -> (slot: usize)
        ensures
            final(self)@ == enrolled(old(self)@, name@),
            final(self)@.no_duplicates(),
            slot < final(self)@.len(),
            final(self)@[slot as int] == name@,
            slot == final(self)@.index_of(name@),
    {
        proof {
            use_type_invariant(&*self);
            lemma_enrolled(self@, name@);
        }
        let slot = match self.locate(name) {
            Ok(slot) => slot,
            Err(place) => {
                let slot = self.names.len();
                let ghost before = self.names.deep_view();
                let ghost index = self.sorted@;
                // Both lists are taken out while they grow, so that the
                // roster never holds one without the other.
                let mut taken = Roster::new();
                std::mem::swap(self, &mut taken);
                let Roster { mut names, mut sorted } = taken;
                names.push(name.clone());
                sorted.insert(place, slot);
                proof {
                    let after = names.deep_view();
                    let now = sorted@;
                    assert(after =~= before.push(name@));
                    assert forall|other: usize| other < after.len() implies #[trigger] now.contains(
                        other,
                    ) by {
                        if other < slot {
                            assert(index.contains(other));
                            let p = choose|p: int| 0 <= p < index.len() && index[p] == other;
                            if p < place {
                                assert(now[p] == other);
                            } else {
                                assert(now[p + 1] == other);
                            }
                        } else {
                            assert(now[place as int] == other);
                        }
                    }
                    assert forall|p: int, q: int| 0 <= p < q < now.len() implies sorts_before(
                        key(after[#[trigger] now[p] as int]),
                        key(after[#[trigger] now[q] as int]),
                    ) by {
                        if q < place {
                            assert(now[p] == index[p] && now[q] == index[q]);
                        } else if q == place {
                            assert(now[p] == index[p]);
                        } else if p == place {
                            assert(now[q] == index[q - 1]);
                        } else if p < place {
                            assert(now[p] == index[p] && now[q] == index[q - 1]);
                        } else {
                            assert(now[p] == index[p - 1] && now[q] == index[q - 1]);
                        }
                    }
                    assert(indexes(now, after));
                }
                *self = Roster { names, sorted };
                slot
            },
        };
        proof {
            lemma_slot_is_unique(self@, name@, slot as int);
        }
        slot
    }
}

} // verus!
