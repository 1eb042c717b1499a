//! Track identity: identifiers assigned by a catalog, the identifiers in play,
//! display names, and a table of names looked up by identifier.

use crate::text;
use vstd::prelude::*;
use vstd::std_specs::iter::IteratorSpec;

verus! {

/// The identifier of one track, meaningful only alongside the catalog that
/// assigned it.
#[derive(Debug, Clone, Copy, PartialEq, Eq, PartialOrd, Ord, Hash, Structural)]
pub struct TrackId(u32);

impl View for TrackId {
    type V = u32;

    closed spec fn view(&self) -> u32 {
        self.0
    }
}

/// The identifier numbered `number`, in specifications.
pub closed spec fn numbered(number: u32) -> TrackId {
    TrackId(number)
}

/// The identifier numbered `number` has that number.
pub broadcast proof fn lemma_numbered(number: u32)
    ensures
        #[trigger] numbered(number)@ == number,
{
}

/// An identifier is determined by its number.
pub broadcast proof fn lemma_track_id_eq(a: TrackId, b: TrackId)
    requires
        #[trigger] a@ == #[trigger] b@,
    ensures
        a == b,
{
}

impl TrackId {
    /// The identifier numbered `number`.
    pub fn new(number: u32) -> (id: TrackId)
        ensures
            id@ == number,
    {
        TrackId(number)
    }

    /// The number of this identifier.
    pub fn number(self) -> (n: u32)
        ensures
            n == self@,
    {
        self.0
    }

    /// The slot of this identifier in a table indexed by identifier.
    pub fn slot(self) -> (s: usize)
        ensures
            s == self@,
    {
        self.0 as usize
    }

    /// The identifier as it is displayed: `track` and its number.
    pub fn to_string(&self) -> (text: String)
        ensures
            text@ == seq!['t', 'r', 'a', 'c', 'k', ' '] + text::decimal_text(self@ as nat),
    {
        let mut text = text::owned("track ");
        proof {
            reveal_strlit("track ");
        }
        text::append_decimal(&mut text, self.0 as u64);
        text
    }
}

/// The identifiers currently in play, in the order they were found.
#[derive(Debug, Clone, PartialEq, Eq, PartialOrd, Ord, Hash, Default)]
pub struct TrackIds {
    ids: Vec<TrackId>,
}

impl View for TrackIds {
    type V = Seq<TrackId>;

    closed spec fn view(&self) -> Seq<TrackId> {
        self.ids@
    }
}

/// A copy of a list of identifiers.
pub fn copy_ids(ids: &Vec<TrackId>) -> (copy: Vec<TrackId>)
    ensures
        copy@ == ids@,
{
    let mut copy: Vec<TrackId> = Vec::new();
    let mut i: usize = 0;
    while i < ids.len()
        invariant
            i <= ids.len(),
            copy@ == ids@.subrange(0, i as int),
        decreases ids.len() - i,
    {
        copy.push(ids[i]);
        i = i + 1;
        assert(copy@ =~= ids@.subrange(0, i as int));
    }
    assert(ids@.subrange(0, ids.len() as int) =~= ids@);
    copy
}

impl TrackIds {
    /// An empty list.
    pub fn new() -> (ids: TrackIds)
        ensures
            ids@ == Seq::<TrackId>::empty(),
    {
        TrackIds { ids: Vec::new() }
    }

    /// A list holding `ids`, in order.
    pub fn from_vec(ids: Vec<TrackId>) -> (list: TrackIds)
        ensures
            list@ == ids@,
    {
        TrackIds { ids }
    }

    /// Appends an identifier.
    pub fn push(&mut self, identifier: TrackId)
        ensures
            final(self)@ == old(self)@.push(identifier),
    {
        self.ids.push(identifier);
    }

    /// How many identifiers are held.
    pub fn len(&self) -> (n: usize)
        ensures
            n == self@.len(),
    {
        self.ids.len()
    }

    /// Whether no identifier is held.
    pub fn is_empty(&self) -> (b: bool)
        ensures
            b == (self@.len() == 0),
    {
        self.ids.len() == 0
    }

    /// The identifier at `index`.
    pub fn get(&self, index: usize) -> (id: TrackId)
        requires
            index < self@.len(),
        ensures
            id == self@[index as int],
    {
        self.ids[index]
    }

    /// Whether `identifier` is present.
    pub fn contains(&self, identifier: TrackId) -> (b: bool)
        ensures
            b == self@.contains(identifier),
    {
        let mut i: usize = 0;
        while i < self.ids.len()
            invariant
                i <= self.ids@.len(),
                forall|k: int| 0 <= k < i ==> self.ids@[k] != identifier,
            decreases self.ids.len() - i,
        {
            if self.ids[i] == identifier {
                assert(self@[i as int] == identifier);
                return true;
            }
            i = i + 1;
        }
        false
    }

    /// The identifiers, in order.
    pub fn to_vec(&self) -> (ids: Vec<TrackId>)
        ensures
            ids@ == self@,
    {
        copy_ids(&self.ids)
    }

    /// The identifiers, in order.
    pub fn iter(&self) -> (it: std::vec::IntoIter<TrackId>)
        ensures
            it.remaining() == self@,
    {
        broadcast use vstd::std_specs::vec::axiom_spec_into_iter;

        copy_ids(&self.ids).into_iter()
    }
}

/// The name a track is displayed under.
#[derive(Debug, Clone, PartialEq, Eq, PartialOrd, Ord, Hash, Default)]
pub struct TrackName(String);

impl View for TrackName {
    type V = Seq<char>;

    closed spec fn view(&self) -> Seq<char> {
        self.0@
    }
}

impl TrackName {
    /// A name from any string.
    pub fn new(name: &str) -> (n: TrackName)
        ensures
            n@ == name@,
    {
        TrackName(text::owned(name))
    }

    /// A name holding `name`.
    pub fn from_string(name: String) -> (n: TrackName)
        ensures
            n@ == name@,
    {
        TrackName(name)
    }

    /// The name as a string slice.
    pub fn as_str(&self) -> (s: &str)
        ensures
            s@ == self@,
    {
        self.0.as_str()
    }

    /// The name as an owned string.
    pub fn into_string(self) -> (s: String)
        ensures
            s@ == self@,
    {
        self.0
    }

    /// The name as an owned string.
    pub fn to_string(&self) -> (s: String)
        ensures
            s@ == self@,
    {
        text::owned(self.0.as_str())
    }

    /// A copy of this name.
    pub fn duplicate(&self) -> (n: TrackName)
        ensures
            n@ == self@,
    {
        TrackName(self.to_string())
    }
}

impl AsRef<str> for TrackName {
    fn as_ref(&self) -> (s: &str)
        ensures
            s@ == self@,
    {
        self.0.as_str()
    }
}

impl From<&str> for TrackName {
    fn from(name: &str) -> TrackName {
        TrackName::new(name)
    }
}

impl vstd::std_specs::convert::FromSpecImpl<&str> for TrackName {
    open spec fn obeys_from_spec() -> bool {
        false
    }

    open spec fn from_spec(name: &str) -> TrackName {
        arbitrary()
    }
}

impl From<String> for TrackName {
    fn from(name: String) -> TrackName {
        TrackName(name)
    }
}

impl vstd::std_specs::convert::FromSpecImpl<String> for TrackName {
    open spec fn obeys_from_spec() -> bool {
        true
    }

    closed spec fn from_spec(name: String) -> TrackName {
        TrackName(name)
    }
}

/// The names present in a table of slots, in slot order.
pub open spec fn present_names(slots: Seq<Option<TrackName>>) -> Seq<TrackName>
    decreases slots.len(),
{
    if slots.len() == 0 {
        Seq::empty()
    } else {
        let rest = present_names(slots.drop_last());
        match slots.last() {
            Some(name) => rest.push(name),
            None => rest,
        }
    }
}

/// Whether `after` is `before` with `name` held for `identifier`, every
/// other track's name as it was, and the table grown just enough to hold it.
pub open spec fn inserted(before: TrackNames, after: TrackNames, identifier: TrackId, name: TrackName) -> bool {
    &&& after.name_of(identifier@ as int) == Some(name)
    &&& forall|n: int| n != identifier@ ==> #[trigger] after.name_of(n) == before.name_of(n)
    &&& after@.len() == if identifier@ < before@.len() {
        before@.len() as int
    } else {
        identifier@ + 1
    }
}

/// The name the last of `inserts` for the track numbered `number` gave it,
/// if any did.
pub open spec fn last_name(inserts: Seq<(TrackId, TrackName)>, number: int) -> Option<TrackName>
    decreases inserts.len(),
{
    if inserts.len() == 0 {
        None
    } else if inserts.last().0@ == number {
        Some(inserts.last().1)
    } else {
        last_name(inserts.drop_last(), number)
    }
}

/// After a run of inserts into an empty table, each track has the name the
/// last insert for it gave, and a track no insert named has none.
pub proof fn lemma_names_after_inserts(tables: Seq<TrackNames>, inserts: Seq<(TrackId, TrackName)>)
    requires
        tables.len() == inserts.len() + 1,
        tables[0]@ == Seq::<Option<TrackName>>::empty(),
        forall|k: int| 0 <= k < inserts.len() ==> #[trigger] inserted(tables[k], tables[k + 1], inserts[k].0, inserts[k].1),
    ensures
        forall|n: int| #[trigger] tables.last().name_of(n) == last_name(inserts, n),
    decreases inserts.len(),
{
    if inserts.len() > 0 {
        let k = inserts.len() - 1;
        let front = inserts.drop_last();
        let earlier = tables.drop_last();
        assert forall|j: int| 0 <= j < front.len() implies #[trigger] inserted(earlier[j], earlier[j + 1], front[j].0, front[j].1) by {
            assert(inserted(tables[j], tables[j + 1], inserts[j].0, inserts[j].1));
        }
        lemma_names_after_inserts(earlier, front);
        assert(inserted(tables[k], tables[k + 1], inserts[k].0, inserts[k].1));
        assert(earlier.last() == tables[k]);
    }
}

/// Track names, looked up by identifier. Slots for tracks not in play are
/// empty.
#[derive(Debug, Clone, PartialEq, Eq, Default)]
pub struct TrackNames {
    names: Vec<Option<TrackName>>,
}

impl View for TrackNames {
    type V = Seq<Option<TrackName>>;

    closed spec fn view(&self) -> Seq<Option<TrackName>> {
        self.names@
    }
}

impl TrackNames {
    /// The name held for the track numbered `number`, if any.
    pub open spec fn name_of(self, number: int) -> Option<TrackName> {
        if 0 <= number < self@.len() {
            self@[number]
        } else {
            None
        }
    }

    /// An empty table.
    pub fn new() -> (names: TrackNames)
        ensures
            names@ == Seq::<Option<TrackName>>::empty(),
    {
        TrackNames { names: Vec::new() }
    }

    /// A table naming the tracks numbered from zero, in order: the first name
    /// for track 0, the next for track 1, and so on.
    pub fn from_names(names: Vec<TrackName>) -> (table: TrackNames)
        ensures
            table@ == names@.map_values(|name: TrackName| Some(name)),
    {
        let mut slots: Vec<Option<TrackName>> = Vec::new();
        let mut rest = names;
        let ghost all = rest@;
        let total = rest.len();
        let mut i: usize = 0;
        while rest.len() > 0
            invariant
                all.len() == total,
                i + rest@.len() == all.len(),
                rest@ == all.skip(i as int),
                slots@ == all.take(i as int).map_values(|name: TrackName| Some(name)),
            decreases rest@.len(),
        {
            let name = rest.remove(0);
            proof {
                assert(name == all[i as int]);
                assert(rest@ =~= all.skip(i + 1));
            }
            slots.push(Some(name));
            assert(slots@ =~= all.take(i + 1).map_values(|name: TrackName| Some(name)));
            i = i + 1;
        }
        assert(all.take(i as int) =~= all);
        TrackNames { names: slots }
    }

    /// Sets the name of a track, replacing whatever its slot held.
    pub fn insert(&mut self, identifier: TrackId, name: TrackName)
        ensures
            inserted(*old(self), *final(self), identifier, name),
    {
        let slot = identifier.slot();
        while self.names.len() <= slot
            invariant
                slot == identifier@,
                old(self)@.len() <= self.names@.len(),
                self.names@.len() <= (if slot < old(self)@.len() { old(self)@.len() as int } else { slot + 1 }),
                forall|n: int| 0 <= n < old(self)@.len() ==> self.names@[n] == old(self)@[n],
                forall|n: int| old(self)@.len() <= n < self.names@.len() ==> self.names@[n] is None,
            decreases slot + 1 - self.names@.len(),
        {
            self.names.push(None);
        }
        self.names.set(slot, Some(name));
    }

    /// The name of a track, or `None` if this table holds none for it.
    pub fn get(&self, identifier: TrackId) -> (name: Option<&TrackName>)
        ensures
            match name {
                Some(n) => self.name_of(identifier@ as int) == Some(*n),
                None => self.name_of(identifier@ as int) is None,
            },
    {
        let slot = identifier.slot();
        if slot < self.names.len() {
            match &self.names[slot] {
                Some(name) => Some(name),
                None => None,
            }
        } else {
            None
        }
    }

    /// How many names are stored.
    pub fn len(&self) -> (n: usize)
        ensures
            n == present_names(self@).len(),
    {
        let mut count: usize = 0;
        let mut i: usize = 0;
        while i < self.names.len()
            invariant
                i <= self.names@.len(),
                count == present_names(self.names@.subrange(0, i as int)).len(),
                count <= i,
            decreases self.names.len() - i,
        {
            proof {
                assert(self.names@.subrange(0, i + 1).drop_last() =~= self.names@.subrange(0, i as int));
            }
            if self.names[i].is_some() {
                count = count + 1;
            }
            i = i + 1;
        }
        assert(self.names@.subrange(0, self.names@.len() as int) =~= self.names@);
        count
    }

    /// Whether no name is stored.
    pub fn is_empty(&self) -> (b: bool)
        ensures
            b == (present_names(self@).len() == 0),
    {
        self.len() == 0
    }

    /// The names, in identifier order.
    pub fn names(&self) -> (names: Vec<&TrackName>)
        ensures
            names@.map_values(|n: &TrackName| *n) == present_names(self@),
    {
        let mut names: Vec<&TrackName> = Vec::new();
        let mut i: usize = 0;
        while i < self.names.len()
            invariant
                i <= self.names@.len(),
                names@.map_values(|n: &TrackName| *n) == present_names(self.names@.subrange(0, i as int)),
            decreases self.names.len() - i,
        {
            proof {
                assert(self.names@.subrange(0, i + 1).drop_last() =~= self.names@.subrange(0, i as int));
            }
            match &self.names[i] {
                Some(name) => {
                    names.push(name);
                },
                None => {},
            }
            i = i + 1;
            assert(names@.map_values(|n: &TrackName| *n) =~= present_names(self.names@.subrange(0, i as int)));
        }
        assert(self.names@.subrange(0, self.names@.len() as int) =~= self.names@);
        names
    }

    /// The names, in identifier order.
    pub fn iter(&self) -> (it: std::vec::IntoIter<&TrackName>)
        ensures
            it.remaining().map_values(|n: &TrackName| *n) == present_names(self@),
    {
        broadcast use vstd::std_specs::vec::axiom_spec_into_iter;

        self.names().into_iter()
    }
}

} // verus!
