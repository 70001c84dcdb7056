//! Channel records as the service lists them, and the map that finds a
//! record by the id of its channel.

use crate::text::text_of;
use crate::text::texts;
use vstd::prelude::*;

verus! {

/// One channel as the service lists it: its id and name, the id of the
/// channel above it, the ids of the channels below it, and whether it is
/// archived.
#[derive(Debug)]
pub struct ChannelLike {
    pub id: String,
    pub name: String,
    pub parent_id: Option<String>,
    pub children: Vec<String>,
    pub archived: bool,
}

/// A `ChannelLike` with its texts as sequences of characters.
pub struct ChannelRecord {
    pub id: Seq<char>,
    pub name: Seq<char>,
    pub parent_id: Option<Seq<char>>,
    pub children: Seq<Seq<char>>,
    pub archived: bool,
}

impl View for ChannelLike {
    type V = ChannelRecord;

    open spec fn view(&self) -> ChannelRecord {
        ChannelRecord {
            id: self.id@,
            name: self.name@,
            parent_id: text_of(self.parent_id),
            children: texts(self.children@),
            archived: self.archived,
        }
    }
}

/// A copy of `strings`.
pub fn clone_strings(strings: &Vec<String>) -> (copy: Vec<String>)
    ensures
        texts(copy@) == texts(strings@),
{
    let mut copy: Vec<String> = Vec::new();
    let mut i: usize = 0;
    while i < strings.len()
        invariant
            i <= strings.len(),
            copy.len() == i,
            forall|k: int| 0 <= k < i ==> copy[k]@ == strings[k]@,
        decreases strings.len() - i,
    {
        copy.push(strings[i].clone());
        i += 1;
    }
    assert(texts(copy@) =~= texts(strings@));
    copy
}

impl Clone for ChannelLike {
    fn clone(&self) -> (copy: Self)
        ensures
            copy@ == self@,
    {
        let parent_id = match &self.parent_id {
            Some(id) => Some(id.clone()),
            None => None,
        };
        ChannelLike {
            id: self.id.clone(),
            name: self.name.clone(),
            parent_id,
            children: clone_strings(&self.children),
            archived: self.archived,
        }
    }
}

impl ChannelLike {
    pub fn new(
        id: String,
        name: String,
        parent_id: Option<String>,
        children: Vec<String>,
        archived: bool,
    ) -> (channel: Self)
        ensures
            channel.id == id,
            channel.name == name,
            channel.parent_id == parent_id,
            channel.children == children,
            channel.archived == archived,
    {
        Self { id, name, parent_id, children, archived }
    }
}

/// The records of `channels` by id; of two with one id the later one stays.
pub open spec fn records_by_id(channels: Seq<ChannelLike>) -> Map<Seq<char>, ChannelRecord>
    decreases channels.len(),
{
    if channels.len() == 0 {
        Map::empty()
    } else {
        records_by_id(channels.drop_last()).insert(channels.last().id@, channels.last()@)
    }
}

/// Channel records, each found by the id of its channel.
pub struct ChannelMap {
    entries: Vec<ChannelLike>,
}

impl ChannelMap {
    /// No id occurs in two entries.
    #[verifier::type_invariant]
    spec fn unique_ids(&self) -> bool {
        forall|i: int, j: int|
            0 <= i < j < self.entries.len() ==> self.entries[i].id@ != self.entries[j].id@
    }

    /// The place of the entry with the given id, or the number of entries
    /// if there is none.
    spec fn place_of(&self, id: Seq<char>) -> int {
        if exists|i: int| 0 <= i < self.entries.len() && #[trigger] self.entries[i].id@ == id {
            choose|i: int| 0 <= i < self.entries.len() && #[trigger] self.entries[i].id@ == id
        } else {
            self.entries.len() as int
        }
    }

    /// A map holds finitely many records, each under its own id.
    pub proof fn lemma_keyed_by_id(&self)
        ensures
            self@.dom().finite(),
            forall|id: Seq<char>| self@.dom().contains(id) ==> (#[trigger] self@[id]).id == id,
    {
        let ids = Seq::new(self.entries.len() as nat, |i: int| self.entries[i].id@);
        assert(self@.dom() =~= ids.to_set()) by {
            assert forall|k: Seq<char>| self@.dom().contains(k) implies ids.to_set().contains(
                k,
            ) by {
                let i = choose|i: int|
                    0 <= i < self.entries.len() && #[trigger] self.entries[i].id@ == k;
                assert(ids[i] == k);
            }
            assert forall|k: Seq<char>| ids.to_set().contains(k) implies self@.dom().contains(
                k,
            ) by {
                let i = choose|i: int| 0 <= i < ids.len() && ids[i] == k;
                assert(self.entries[i].id@ == k);
            }
        }
        vstd::seq_lib::seq_to_set_is_finite(ids);
        assert forall|id: Seq<char>| self@.dom().contains(id) implies (#[trigger] self@[id]).id
            == id by {
            let i = self.place_of(id);
            assert(0 <= i < self.entries.len() && self.entries[i].id@ == id);
        }
    }

    /// An empty map.
    pub fn new() -> (map: Self)
        ensures
            map@ == Map::<Seq<char>, ChannelRecord>::empty(),
    {
        let map = ChannelMap { entries: Vec::new() };
        assert(map@ =~= Map::<Seq<char>, ChannelRecord>::empty());
        map
    }

    /// The number of records.
    pub fn len(&self) -> (n: usize)
        ensures
            n == self@.dom().len(),
            self@.dom().finite(),
    {
        proof {
            use_type_invariant(self);
            self.lemma_dom();
        }
        self.entries.len()
    }

    /// The ids of the entries are the keys, and there are as many keys as
    /// entries.
    proof fn lemma_dom(&self)
        requires
            self.unique_ids(),
        ensures
            self@.dom().finite(),
            self@.dom().len() == self.entries.len(),
            forall|i: int|
                0 <= i < self.entries.len() ==> #[trigger] self@.dom().contains(
                    self.entries[i].id@,
                ) && self@[self.entries[i].id@] == self.entries[i]@,
    {
        let ids = Seq::new(self.entries.len() as nat, |i: int| self.entries[i].id@);
        assert(ids.no_duplicates());
        ids.unique_seq_to_set();
        assert(self@.dom() =~= ids.to_set()) by {
            assert forall|k: Seq<char>| self@.dom().contains(k) implies ids.to_set().contains(
                k,
            ) by {
                let i = choose|i: int|
                    0 <= i < self.entries.len() && #[trigger] self.entries[i].id@ == k;
                assert(ids[i] == k);
            }
            assert forall|k: Seq<char>| ids.to_set().contains(k) implies self@.dom().contains(
                k,
            ) by {
                let i = choose|i: int| 0 <= i < ids.len() && ids[i] == k;
                assert(self.entries[i].id@ == k);
            }
        }
        assert forall|i: int| 0 <= i < self.entries.len() implies #[trigger] self@.dom().contains(
            self.entries[i].id@,
        ) && self@[self.entries[i].id@] == self.entries[i]@ by {
            let k = self.entries[i].id@;
            assert(self.entries[i].id@ == k);
            assert(self.place_of(k) == i);
        }
    }

    /// The place of the entry with the given id, if there is one.
    fn position(&self, id: &String) -> (found: Option<usize>)
        ensures
            match found {
                Some(i) => i < self.entries.len() && self.entries[i as int].id@ == id@,
                None => forall|k: int| 0 <= k < self.entries.len() ==> self.entries[k].id@ != id@,
            },
    {
        let mut i: usize = 0;
        while i < self.entries.len()
            invariant
                i <= self.entries.len(),
                forall|k: int| 0 <= k < i ==> self.entries[k].id@ != id@,
            decreases self.entries.len() - i,
        {
            if self.entries[i].id == *id {
                return Some(i);
            }
            i += 1;
        }
        None
    }

    /// The record of the channel with the given id, if the map holds one.
    pub fn get(&self, id: &String) -> (found: Option<&ChannelLike>)
        ensures
            match found {
                Some(channel) => self@.dom().contains(id@) && channel@ == self@[id@]
                    && channel@.id == id@,
                None => !self@.dom().contains(id@),
            },
    {
        proof {
            use_type_invariant(self);
            self.lemma_dom();
        }
        match self.position(id) {
            Some(i) => {
                assert(self@.dom().contains(self.entries[i as int].id@));
                Some(&self.entries[i])
            },
            None => None,
        }
    }

    /// Puts `channel` under its id, in place of the record that was there.
    pub fn insert(&mut self, channel: ChannelLike)
        ensures
            final(self)@ == old(self)@.insert(channel.id@, channel@),
    {
        proof {
            use_type_invariant(&*self);
            self.lemma_dom();
        }
        let ghost before = *self;
        let ghost key = channel.id@;
        let ghost record = channel@;
        let found = self.position(&channel.id);
        let mut entries: Vec<ChannelLike> = Vec::new();
        core::mem::swap(&mut self.entries, &mut entries);
        match found {
            Some(i) => {
                entries[i] = channel;
            },
            None => {
                entries.push(channel);
            },
        }
        core::mem::swap(&mut self.entries, &mut entries);
        proof {
            let after = *self;
            let n = before.entries.len() as int;
            let at = match found {
                Some(i) => i as int,
                None => n,
            };
            assert(after.entries[at].id@ == key);
            assert(forall|j: int| 0 <= j < n && j != at ==> after.entries[j] == before.entries[j]);
            assert(forall|j: int| 0 <= j < n ==> after.entries[j].id@ == before.entries[j].id@);
            assert(after.unique_ids());
            after.lemma_dom();
            assert forall|k: Seq<char>| #[trigger]
                after@.dom().contains(k) == before@.insert(key, record).dom().contains(k) by {
                if after@.dom().contains(k) {
                    let j = choose|j: int|
                        0 <= j < after.entries.len() && #[trigger] after.entries[j].id@ == k;
                    if j < n {
                        assert(before.entries[j].id@ == k);
                    }
                }
                if before@.dom().contains(k) {
                    let j = choose|j: int|
                        0 <= j < before.entries.len() && #[trigger] before.entries[j].id@ == k;
                    assert(after.entries[j].id@ == k);
                }
                if k == key {
                    assert(after.entries[at].id@ == k);
                }
            }
            assert forall|k: Seq<char>| after@.dom().contains(k) implies after@[k]
                == before@.insert(key, record)[k] by {
                let j = choose|j: int|
                    0 <= j < after.entries.len() && #[trigger] after.entries[j].id@ == k;
                assert(after@.dom().contains(after.entries[j].id@));
                assert(after@[k] == after.entries[j]@);
                if j != at {
                    assert(before.entries[j].id@ == k);
                    assert(before@.dom().contains(before.entries[j].id@));
                    assert(before@[k] == before.entries[j]@);
                }
            }
            assert(after@ =~= before@.insert(key, record));
        }
    }
}

impl View for ChannelMap {
    type V = Map<Seq<char>, ChannelRecord>;

    closed spec fn view(&self) -> Map<Seq<char>, ChannelRecord> {
        Map::new(
            |id: Seq<char>|
                exists|i: int| 0 <= i < self.entries.len() && #[trigger] self.entries[i].id@ == id,
            |id: Seq<char>| self.entries[self.place_of(id)]@,
        )
    }
}

/// The map of the given records by id; of two with one id the later one
/// stays.
pub fn get_channels_mp(channels: Vec<ChannelLike>) -> (map: ChannelMap)
    ensures
        map@ == records_by_id(channels@),
{
    let mut map = ChannelMap::new();
    let ghost all = channels@;
    for channel in it: channels
        invariant
            it.seq() == all,
            map@ == records_by_id(all.take(it.index() as int)),
    {
        proof {
            let d = it.index() as int;
            assert(all.take(d + 1).drop_last() =~= all.take(d));
            assert(all.take(d + 1).last() == all[d]);
        }
        map.insert(channel);
    }
    assert(all.take(all.len() as int) =~= all);
    map
}

} // verus!
