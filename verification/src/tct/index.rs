//! The record of where each witnessed commitment lies.
//!
//! The commitments are filed in a hash map by their first eight bytes, so
//! that a commitment is found in the time it takes to look up one key and to
//! go through the few commitments that share it.

use std::collections::HashMap;
use vstd::prelude::*;
use crate::tct::hash::Commitment;
use crate::tct::position::Position;

verus! {

/// One witnessed commitment and its position.
#[derive(Clone, Copy, Debug)]
pub struct Entry {
    pub(crate) commitment: Commitment,
    pub(crate) position: Position,
}

/// A map from the witnessed commitments to their positions.
pub struct Index {
    buckets: HashMap<u64, Vec<Entry>>,
    model: Ghost<Map<Seq<u8>, Position>>,
}

impl View for Index {
    type V = Map<Seq<u8>, Position>;

    closed spec fn view(&self) -> Map<Seq<u8>, Position> {
        self.model@
    }
}

/// The key under which a commitment is filed: its first eight bytes, read
/// as a number with the lowest byte first.
pub open spec fn key_of(commitment: Seq<u8>) -> u64 {
    (commitment[0] as int + commitment[1] as int * 0x100 + commitment[2] as int * 0x1_0000
        + commitment[3] as int * 0x100_0000 + commitment[4] as int * 0x1_0000_0000 + commitment[5] as int
        * 0x100_0000_0000 + commitment[6] as int * 0x1_0000_0000_0000 + commitment[7] as int
        * 0x100_0000_0000_0000) as u64
}

/// Whether one of the entries records the commitment.
spec fn holds(entries: Seq<Entry>, commitment: Seq<u8>) -> bool {
    exists|i: int| 0 <= i < entries.len() && (#[trigger] entries[i]).commitment@ == commitment
}

/// No commitment is recorded twice.
spec fn distinct(entries: Seq<Entry>) -> bool {
    forall|i: int, j: int|
        0 <= i < j < entries.len() ==> (#[trigger] entries[i]).commitment@ != (
        #[trigger] entries[j]).commitment@
}

/// Every entry is filed under the key of its commitment, and records what the
/// map says of it.
spec fn filed(entries: Seq<Entry>, key: u64, model: Map<Seq<u8>, Position>) -> bool {
    forall|i: int|
        0 <= i < entries.len() ==> key_of((#[trigger] entries[i]).commitment@) == key
            && model.contains_key(entries[i].commitment@) && model[entries[i].commitment@]
            == entries[i].position
}

/// The key under which a commitment is filed.
fn file_key(commitment: &Commitment) -> (key: u64)
    ensures
        key == key_of(commitment@),
{
    let b = &commitment.bytes;
    b[0] as u64 + b[1] as u64 * 0x100 + b[2] as u64 * 0x1_0000 + b[3] as u64 * 0x100_0000
        + b[4] as u64 * 0x1_0000_0000 + b[5] as u64 * 0x100_0000_0000 + b[6] as u64
        * 0x1_0000_0000_0000 + b[7] as u64 * 0x100_0000_0000_0000
}

/// Where the entry of a commitment stands among the entries, if it is there.
fn find(entries: &Vec<Entry>, commitment: &Commitment) -> (found: Option<usize>)
    ensures
        match found {
            Some(i) => i < entries@.len() && entries@[i as int].commitment@ == commitment@,
            None => !holds(entries@, commitment@),
        },
{
    let mut i: usize = 0;
    while i < entries.len()
        invariant
            i <= entries@.len(),
            forall|j: int| 0 <= j < i ==> (#[trigger] entries@[j]).commitment@ != commitment@,
        decreases entries@.len() - i,
    {
        if entries[i].commitment.same(commitment) {
            return Some(i);
        }
        i += 1;
    }
    None
}

/// Records a position for a commitment among the entries filed under its
/// key, in place of the one recorded before, if one was.
fn file(
    entries: &mut Vec<Entry>,
    commitment: Commitment,
    position: Position,
    Ghost(model): Ghost<Map<Seq<u8>, Position>>,
)
    requires
        distinct(old(entries)@),
        filed(old(entries)@, key_of(commitment@), model),
    ensures
        distinct(final(entries)@),
        filed(final(entries)@, key_of(commitment@), model.insert(commitment@, position)),
        holds(final(entries)@, commitment@),
        forall|c: Seq<u8>| holds(old(entries)@, c) ==> holds(final(entries)@, c),
{
    let ghost before = entries@;
    let entry = Entry { commitment, position };
    match find(entries, &commitment) {
        Some(i) => {
            entries.set(i, entry);
            assert(entries@[i as int].commitment@ == commitment@);
            assert forall|c: Seq<u8>| holds(before, c) implies holds(entries@, c) by {
                let j = choose|j: int|
                    0 <= j < before.len() && (#[trigger] before[j]).commitment@ == c;
                assert(entries@[j].commitment@ == c);
            }
            assert forall|a: int, b: int| 0 <= a < b < entries@.len() implies (
            #[trigger] entries@[a]).commitment@ != (#[trigger] entries@[b]).commitment@ by {
                assert(before[a].commitment@ != before[b].commitment@);
            }
            assert forall|j: int| 0 <= j < entries@.len() implies key_of(
                (#[trigger] entries@[j]).commitment@,
            ) == key_of(commitment@) && model.insert(commitment@, position).contains_key(
                entries@[j].commitment@,
            ) && model.insert(commitment@, position)[entries@[j].commitment@]
                == entries@[j].position by {
                if j != i {
                    assert(entries@[j] == before[j]);
                    if j < i {
                        assert(before[j].commitment@ != before[i as int].commitment@);
                    } else {
                        assert(before[i as int].commitment@ != before[j].commitment@);
                    }
                }
            }
        },
        None => {
            entries.push(entry);
            let ghost last = before.len() as int;
            assert(entries@[last].commitment@ == commitment@);
            assert forall|c: Seq<u8>| holds(before, c) implies holds(entries@, c) by {
                let j = choose|j: int|
                    0 <= j < before.len() && (#[trigger] before[j]).commitment@ == c;
                assert(entries@[j].commitment@ == c);
            }
            assert forall|a: int, b: int| 0 <= a < b < entries@.len() implies (
            #[trigger] entries@[a]).commitment@ != (#[trigger] entries@[b]).commitment@ by {
                if b == last {
                    assert(before[a].commitment@ != commitment@);
                } else {
                    assert(before[a].commitment@ != before[b].commitment@);
                }
            }
            assert forall|j: int| 0 <= j < entries@.len() implies key_of(
                (#[trigger] entries@[j]).commitment@,
            ) == key_of(commitment@) && model.insert(commitment@, position).contains_key(
                entries@[j].commitment@,
            ) && model.insert(commitment@, position)[entries@[j].commitment@]
                == entries@[j].position by {
                if j != last {
                    assert(entries@[j] == before[j]);
                    assert(before[j].commitment@ != commitment@);
                }
            }
        },
    }
}

/// Takes the record of a commitment out of the entries filed under its key,
/// and returns the position that was recorded, if one was.
fn unfile(
    entries: &mut Vec<Entry>,
    commitment: &Commitment,
    Ghost(model): Ghost<Map<Seq<u8>, Position>>,
) -> (position: Option<Position>)
    requires
        distinct(old(entries)@),
        filed(old(entries)@, key_of(commitment@), model),
    ensures
        distinct(final(entries)@),
        filed(final(entries)@, key_of(commitment@), model.remove(commitment@)),
        !holds(final(entries)@, commitment@),
        forall|c: Seq<u8>| c != commitment@ && holds(old(entries)@, c) ==> holds(final(entries)@, c),
        match position {
            Some(p) => holds(old(entries)@, commitment@) && model[commitment@] == p,
            None => !holds(old(entries)@, commitment@),
        },
{
    let ghost before = entries@;
    match find(entries, commitment) {
        Some(i) => {
            let entry = entries.remove(i);
            assert(before[i as int].commitment@ == commitment@);
            assert forall|j: int| 0 <= j < entries@.len() implies (
            #[trigger] entries@[j]).commitment@ != commitment@ && key_of(entries@[j].commitment@)
                == key_of(commitment@) && model.remove(commitment@).contains_key(
                entries@[j].commitment@,
            ) && model.remove(commitment@)[entries@[j].commitment@] == entries@[j].position by {
                if j < i {
                    assert(entries@[j] == before[j]);
                    assert(before[j].commitment@ != before[i as int].commitment@);
                } else {
                    assert(entries@[j] == before[j + 1]);
                    assert(before[i as int].commitment@ != before[j + 1].commitment@);
                }
            }
            assert forall|c: Seq<u8>| c != commitment@ && holds(before, c) implies holds(
                entries@,
                c,
            ) by {
                let j = choose|j: int|
                    0 <= j < before.len() && (#[trigger] before[j]).commitment@ == c;
                if j < i {
                    assert(entries@[j].commitment@ == c);
                } else {
                    assert(entries@[j - 1].commitment@ == c);
                }
            }
            assert forall|a: int, b: int| 0 <= a < b < entries@.len() implies (
            #[trigger] entries@[a]).commitment@ != (#[trigger] entries@[b]).commitment@ by {
                let x = if a < i {
                    a
                } else {
                    a + 1
                };
                let y = if b < i {
                    b
                } else {
                    b + 1
                };
                assert(before[x].commitment@ != before[y].commitment@);
            }
            Some(entry.position)
        },
        None => {
            assert forall|j: int| 0 <= j < entries@.len() implies model.remove(
                commitment@,
            ).contains_key((#[trigger] entries@[j]).commitment@) by {}
            None
        },
    }
}

impl Index {
    /// Every commitment of the map is filed once, under its key, and nothing
    /// else is filed.
    pub closed spec fn wf(&self) -> bool {
        &&& forall|k: u64| #[trigger]
            self.buckets@.contains_key(k) ==> distinct(self.buckets@[k]@) && filed(
                self.buckets@[k]@,
                k,
                self.model@,
            )
        &&& forall|c: Seq<u8>| #[trigger]
            self.model@.contains_key(c) ==> self.buckets@.contains_key(key_of(c)) && holds(
                self.buckets@[key_of(c)]@,
                c,
            )
    }

    /// The index that records nothing.
    pub fn new() -> (index: Index)
        ensures
            index.wf(),
            index@ == Map::<Seq<u8>, Position>::empty(),
    {
        Index { buckets: HashMap::new(), model: Ghost(Map::empty()) }
    }

    /// The position recorded for a commitment, if one is.
    pub fn get(&self, commitment: &Commitment) -> (position: Option<Position>)
        requires
            self.wf(),
        ensures
            position == if self@.contains_key(commitment@) {
                Some(self@[commitment@])
            } else {
                None
            },
    {
        let key = file_key(commitment);
        match self.buckets.get(&key) {
            None => None,
            Some(entries) => match find(entries, commitment) {
                Some(i) => Some(entries[i].position),
                None => None,
            },
        }
    }

    /// Records a position for a commitment, in place of the one recorded
    /// before, if one was.
    pub fn insert(&mut self, commitment: Commitment, position: Position)
        requires
            old(self).wf(),
        ensures
            final(self).wf(),
            final(self)@ == old(self)@.insert(commitment@, position),
    {
        let key = file_key(&commitment);
        let ghost before = self.buckets@;
        let ghost model = self.model@;
        let mut entries = match self.buckets.remove(&key) {
            Some(entries) => entries,
            None => Vec::new(),
        };
        let ghost taken = entries@;
        file(&mut entries, commitment, position, Ghost(model));
        let ghost put = entries@;
        self.buckets.insert(key, entries);
        self.model = Ghost(model.insert(commitment@, position));
        proof {
            assert forall|k: u64| #[trigger] self.buckets@.contains_key(k) implies distinct(
                self.buckets@[k]@,
            ) && filed(self.buckets@[k]@, k, self.model@) by {
                if k != key {
                    assert(before.contains_key(k));
                    assert(self.buckets@[k] == before[k]);
                    lemma_filed_elsewhere(before[k]@, k, model, commitment@, Some(position));
                }
            }
            assert forall|c: Seq<u8>| #[trigger] self.model@.contains_key(c) implies self.buckets@.contains_key(
                key_of(c),
            ) && holds(self.buckets@[key_of(c)]@, c) by {
                if c != commitment@ {
                    assert(model.contains_key(c));
                    if key_of(c) == key {
                        assert(holds(taken, c));
                    } else {
                        assert(self.buckets@[key_of(c)] == before[key_of(c)]);
                    }
                }
            }
        }
    }

    /// Removes the record of a commitment, and returns the position that was
    /// recorded for it, if one was.
    pub fn remove(&mut self, commitment: &Commitment) -> (position: Option<Position>)
        requires
            old(self).wf(),
        ensures
            final(self).wf(),
            final(self)@ == old(self)@.remove(commitment@),
            position == if old(self)@.contains_key(commitment@) {
                Some(old(self)@[commitment@])
            } else {
                None
            },
    {
        let key = file_key(commitment);
        let ghost before = self.buckets@;
        let ghost model = self.model@;
        match self.buckets.remove(&key) {
            None => {
                assert(model.remove(commitment@) =~= model);
                assert(self.buckets@ =~= before);
                None
            },
            Some(entries) => {
                let mut entries = entries;
                let ghost taken = entries@;
                let position = unfile(&mut entries, commitment, Ghost(model));
                if entries.len() > 0 {
                    self.buckets.insert(key, entries);
                }
                self.model = Ghost(model.remove(commitment@));
                proof {
                    assert forall|k: u64| #[trigger] self.buckets@.contains_key(k) implies distinct(
                        self.buckets@[k]@,
                    ) && filed(self.buckets@[k]@, k, self.model@) by {
                        if k != key {
                            assert(before.contains_key(k));
                            assert(self.buckets@[k] == before[k]);
                            lemma_filed_elsewhere(before[k]@, k, model, commitment@, None);
                        }
                    }
                    assert forall|c: Seq<u8>| #[trigger] self.model@.contains_key(c) implies self.buckets@.contains_key(
                        key_of(c),
                    ) && holds(self.buckets@[key_of(c)]@, c) by {
                        assert(model.contains_key(c));
                        if key_of(c) == key {
                            assert(holds(taken, c));
                            assert(holds(entries@, c));
                        } else {
                            assert(self.buckets@[key_of(c)] == before[key_of(c)]);
                        }
                    }
                    if !model.contains_key(commitment@) {
                        assert(model.remove(commitment@) =~= model);
                    }
                }
                position
            },
        }
    }
}

/// What is filed under one key is not touched by a change to the record of a
/// commitment with another key.
proof fn lemma_filed_elsewhere(
    entries: Seq<Entry>,
    key: u64,
    model: Map<Seq<u8>, Position>,
    commitment: Seq<u8>,
    position: Option<Position>,
)
    requires
        filed(entries, key, model),
        key_of(commitment) != key,
    ensures
        filed(
            entries,
            key,
            match position {
                Some(p) => model.insert(commitment, p),
                None => model.remove(commitment),
            },
        ),
{
    let changed = match position {
        Some(p) => model.insert(commitment, p),
        None => model.remove(commitment),
    };
    assert forall|i: int| 0 <= i < entries.len() implies key_of(
        (#[trigger] entries[i]).commitment@,
    ) == key && changed.contains_key(entries[i].commitment@) && changed[entries[i].commitment@]
        == entries[i].position by {
        assert(entries[i].commitment@ != commitment);
    }
}

} // verus!
