//! A stable identifier for every track below a root directory.
//!
//! A `Catalog` maps the path of each track, relative to the root, to a
//! `TrackId`. Identifiers are assigned in the order tracks are first seen.
//! Because the key is a relative path, the root may be moved or renamed
//! without affecting any of them. Renaming a track or one of its parent
//! directories produces a path the catalog has not seen, and therefore a new
//! identifier.
//!
//! Identifiers are never reused. Nothing here removes an entry, so a track
//! whose file is gone keeps its identifier and reappears with its history
//! intact. The next identifier is stored rather than derived from the entries
//! present, so an entry removed by other means does not free its identifier
//! for a later track, which would otherwise inherit its history.

use crate::path::FsPath;
use crate::path::lemma_path_order;
use crate::path::path_order;
use crate::path::path_text;
use crate::text;
use crate::track::TrackId;
use vstd::prelude::*;

verus! {

broadcast use crate::track::lemma_track_id_eq;

/// Whether the entries come in strictly increasing path order.
pub open spec fn in_path_order(entries: Seq<((bool, Seq<Seq<char>>), TrackId)>) -> bool {
    forall|i: int, j: int|
        0 <= i < j < entries.len() ==> path_order(#[trigger] entries[i].0, #[trigger] entries[j].0) < 0
}

/// The identifier the entries give `path`, if any.
pub open spec fn identifier_in(
    entries: Seq<((bool, Seq<Seq<char>>), TrackId)>,
    path: (bool, Seq<Seq<char>>),
) -> Option<TrackId> {
    if exists|i: int| 0 <= i < entries.len() && (#[trigger] entries[i]).0 == path {
        Some(entries[choose|i: int| 0 <= i < entries.len() && (#[trigger] entries[i]).0 == path].1)
    } else {
        None
    }
}

/// The identifier given last to `path` among the first `n` of `tracks`.
pub open spec fn last_given(
    tracks: Seq<((bool, Seq<Seq<char>>), TrackId)>,
    path: (bool, Seq<Seq<char>>),
    n: int,
) -> Option<TrackId>
    decreases n,
{
    if n <= 0 {
        None
    } else if tracks[n - 1].0 == path {
        Some(tracks[n - 1].1)
    } else {
        last_given(tracks, path, n - 1)
    }
}

/// Whether the track at position `k` cannot be restored: its identifier is
/// not below `next`, or an earlier track has it.
pub open spec fn unrestorable(tracks: Seq<((bool, Seq<Seq<char>>), TrackId)>, next: u32, k: int) -> bool {
    ||| tracks[k].1@ >= next
    ||| exists|j: int| 0 <= j < k && (#[trigger] tracks[j]).1 == tracks[k].1
}

/// Whether position `k` holds the first track that cannot be restored.
pub open spec fn first_unrestorable(tracks: Seq<((bool, Seq<Seq<char>>), TrackId)>, next: u32, k: int) -> bool {
    &&& 0 <= k < tracks.len()
    &&& unrestorable(tracks, next, k)
    &&& forall|j: int| 0 <= j < k ==> !#[trigger] unrestorable(tracks, next, j)
}

/// What restoring says of the track at position `k`, the first that cannot
/// be restored.
pub open spec fn restore_problem(tracks: Seq<((bool, Seq<Seq<char>>), TrackId)>, next: u32, k: int) -> Seq<char> {
    let (path, id) = tracks[k];
    if id@ >= next {
        "`"@ + path_text(path) + "` is track "@ + text::decimal_text(id@ as nat)
            + ", which has not been assigned yet"@
    } else {
        let j = choose|j: int| 0 <= j < k && (#[trigger] tracks[j]).1 == id;
        "`"@ + path_text(tracks[j].0) + "` and `"@ + path_text(path) + "` are both track "@
            + text::decimal_text(id@ as nat)
    }
}

/// In entries in path order, the entry at `i` is the one `identifier_in`
/// finds for its path.
pub proof fn lemma_identifier_at(entries: Seq<((bool, Seq<Seq<char>>), TrackId)>, i: int)
    requires
        in_path_order(entries),
        0 <= i < entries.len(),
    ensures
        identifier_in(entries, entries[i].0) == Some(entries[i].1),
{
    let path = entries[i].0;
    assert(entries[i].0 == path);
    let k = choose|k: int| 0 <= k < entries.len() && (#[trigger] entries[k]).0 == path;
    lemma_path_order(path, path, path);
    if k < i {
        assert(path_order(entries[k].0, entries[i].0) < 0);
    } else if k > i {
        assert(path_order(entries[i].0, entries[k].0) < 0);
    }
}

/// Whether `catalog` is the catalog restored for `root` with `next` the
/// next identifier and `tracks` the paths and identifiers it was given: each
/// path with the identifier given it last.
pub open spec fn restores(
    catalog: Catalog,
    root: (bool, Seq<Seq<char>>),
    next: u32,
    tracks: Seq<((bool, Seq<Seq<char>>), TrackId)>,
) -> bool {
    &&& catalog.well_formed()
    &&& catalog.root_spec() == root
    &&& catalog.next_spec() == next
    &&& forall|p: (bool, Seq<Seq<char>>)| #[trigger] catalog.identifier_spec(p)
        == last_given(tracks, p, tracks.len() as int)
}

/// Entries in path order that give every path the same identifier are the
/// same entries.
proof fn lemma_same_entries(a: Seq<((bool, Seq<Seq<char>>), TrackId)>, b: Seq<((bool, Seq<Seq<char>>), TrackId)>)
    requires
        in_path_order(a),
        in_path_order(b),
        forall|p: (bool, Seq<Seq<char>>)| #[trigger] identifier_in(a, p) == identifier_in(b, p),
    ensures
        a == b,
    decreases a.len() + b.len(),
{
    if a.len() == 0 || b.len() == 0 {
        if a.len() > 0 {
            lemma_identifier_at(a, 0);
            assert(identifier_in(b, a[0].0) is None);
        } else if b.len() > 0 {
            lemma_identifier_at(b, 0);
            assert(identifier_in(a, b[0].0) is None);
        } else {
            assert(a =~= b);
        }
    } else {
        lemma_identifier_at(a, 0);
        lemma_identifier_at(b, 0);
        let pa = a[0].0;
        let pb = b[0].0;
        // Each first path is held by the other list, and no later entry of a
        // list comes before its first.
        let i = choose|i: int| 0 <= i < b.len() && (#[trigger] b[i]).0 == pa;
        let j = choose|j: int| 0 <= j < a.len() && (#[trigger] a[j]).0 == pb;
        lemma_path_order(pa, pb, pa);
        if i > 0 {
            assert(path_order(b[0].0, b[i].0) < 0);
        }
        if j > 0 {
            assert(path_order(a[0].0, a[j].0) < 0);
        }
        assert(pa == pb);
        assert(a[0] == b[0]);
        let ra = a.drop_first();
        let rb = b.drop_first();
        assert forall|x: int, y: int| 0 <= x < y < ra.len() implies path_order(#[trigger] ra[x].0, #[trigger] ra[y].0) < 0 by {
            assert(ra[x] == a[x + 1] && ra[y] == a[y + 1]);
        }
        assert forall|x: int, y: int| 0 <= x < y < rb.len() implies path_order(#[trigger] rb[x].0, #[trigger] rb[y].0) < 0 by {
            assert(rb[x] == b[x + 1] && rb[y] == b[y + 1]);
        }
        assert forall|p: (bool, Seq<Seq<char>>)| #[trigger] identifier_in(ra, p) == identifier_in(rb, p) by {
            lemma_rest_identifier(a, p);
            lemma_rest_identifier(b, p);
        }
        lemma_same_entries(ra, rb);
        assert(a =~= seq![a[0]] + ra);
        assert(b =~= seq![b[0]] + rb);
    }
}

/// Past the first entry of entries in path order, a path has the identifier
/// it had, except the first entry's path, which has none.
proof fn lemma_rest_identifier(entries: Seq<((bool, Seq<Seq<char>>), TrackId)>, p: (bool, Seq<Seq<char>>))
    requires
        in_path_order(entries),
        entries.len() > 0,
    ensures
        identifier_in(entries.drop_first(), p) == if p == entries[0].0 {
            None
        } else {
            identifier_in(entries, p)
        },
{
    let rest = entries.drop_first();
    if exists|i: int| 0 <= i < rest.len() && (#[trigger] rest[i]).0 == p {
        let i = choose|i: int| 0 <= i < rest.len() && (#[trigger] rest[i]).0 == p;
        assert(rest[i] == entries[i + 1]);
        assert(path_order(entries[0].0, entries[i + 1].0) < 0);
        lemma_path_order(entries[0].0, p, p);
        assert forall|x: int, y: int| 0 <= x < y < rest.len() implies path_order(#[trigger] rest[x].0, #[trigger] rest[y].0) < 0 by {
            assert(rest[x] == entries[x + 1] && rest[y] == entries[y + 1]);
        }
        lemma_identifier_at(rest, i);
        lemma_identifier_at(entries, i + 1);
    } else if p != entries[0].0 {
        if exists|i: int| 0 <= i < entries.len() && (#[trigger] entries[i]).0 == p {
            let i = choose|i: int| 0 <= i < entries.len() && (#[trigger] entries[i]).0 == p;
            assert(rest[i - 1] == entries[i]);
        }
    }
}

/// The paths and identifiers given to `restore`, as values.
pub open spec fn given(tracks: Seq<(FsPath, TrackId)>) -> Seq<((bool, Seq<Seq<char>>), TrackId)> {
    tracks.map_values(|track: (FsPath, TrackId)| (track.0@, track.1))
}

/// A root directory, and the identifier assigned to every track ever seen
/// below it.
#[derive(Debug, Clone, PartialEq, Eq)]
pub struct Catalog {
    root: FsPath,
    next: u32,
    tracks: Vec<(FsPath, TrackId)>,
}

impl Catalog {
    /// Every track seen, as its path relative to the root and its
    /// identifier, in path order.
    pub closed spec fn entries(self) -> Seq<((bool, Seq<Seq<char>>), TrackId)> {
        given(self.tracks@)
    }

    /// The next identifier to assign.
    pub closed spec fn next_spec(self) -> u32 {
        self.next
    }

    /// The root directory.
    pub closed spec fn root_spec(self) -> (bool, Seq<Seq<char>>) {
        self.root@
    }

    /// The entries are in path order, each below the next identifier, and no
    /// two share an identifier.
    pub open spec fn well_formed(self) -> bool {
        &&& in_path_order(self.entries())
        &&& forall|i: int| 0 <= i < self.entries().len() ==> (#[trigger] self.entries()[i]).1@ < self.next_spec()
        &&& forall|i: int, j: int|
            0 <= i < j < self.entries().len() ==> #[trigger] self.entries()[i].1 != #[trigger] self.entries()[j].1
    }

    /// The identifier of the track at `path`, if it has been seen.
    pub open spec fn identifier_spec(self, path: (bool, Seq<Seq<char>>)) -> Option<TrackId> {
        identifier_in(self.entries(), path)
    }

    /// An empty catalog for the music below `root`.
    pub fn new(root: FsPath) -> (catalog: Catalog)
        ensures
            catalog.well_formed(),
            catalog.root_spec() == root@,
            catalog.next_spec() == 0,
            catalog.entries() == Seq::<((bool, Seq<Seq<char>>), TrackId)>::empty(),
    {
        let catalog = Catalog { root, next: 0, tracks: Vec::new() };
        assert(catalog.entries() =~= Seq::<((bool, Seq<Seq<char>>), TrackId)>::empty());
        catalog
    }

    /// Where `path` is among the entries: `Ok` with its position, or `Err`
    /// with the position it would take.
    fn find(&self, path: &FsPath) -> (found: Result<usize, usize>)
        requires
            self.well_formed(),
        ensures
            match found {
                Ok(i) => i < self.entries().len() && self.entries()[i as int].0 == path@,
                Err(i) => i <= self.entries().len() && (forall|k: int|
                    0 <= k < i ==> path_order(#[trigger] self.entries()[k].0, path@) < 0) && (forall|k: int|
                    i <= k < self.entries().len() ==> path_order(path@, #[trigger] self.entries()[k].0) < 0),
            },
    {
        let mut i: usize = 0;
        while i < self.tracks.len()
            invariant
                self.well_formed(),
                i <= self.entries().len(),
                forall|k: int| 0 <= k < i ==> path_order(#[trigger] self.entries()[k].0, path@) < 0,
            decreases self.tracks.len() - i,
        {
            let o = self.tracks[i].0.order_with(path);
            proof {
                assert(self.entries()[i as int].0 == self.tracks@[i as int].0@);
                lemma_path_order(self.entries()[i as int].0, path@, path@);
            }
            if o == 0 {
                return Ok(i);
            }
            if o > 0 {
                proof {
                    assert forall|k: int| i <= k < self.entries().len() implies path_order(
                        path@,
                        #[trigger] self.entries()[k].0,
                    ) < 0 by {
                        if k > i {
                            lemma_path_order(path@, self.entries()[i as int].0, self.entries()[k].0);
                        }
                    }
                }
                return Err(i);
            }
            i = i + 1;
        }
        Err(i)
    }

    /// A catalog rebuilt from the parts a stored one is written as: its root,
    /// the next identifier to assign, and its tracks. A path given twice keeps
    /// the identifier given last.
    ///
    /// Refused, with a description of the first track at fault, when an
    /// identifier is at or beyond the next one to assign, or two tracks share
    /// one.
    pub fn restore(root: FsPath, next: u32, tracks: Vec<(FsPath, TrackId)>) -> (restored: Result<Catalog, String>)
        ensures
            match restored {
                Ok(catalog) => {
                    &&& forall|k: int| 0 <= k < tracks@.len() ==> !#[trigger] unrestorable(given(tracks@), next, k)
                    &&& restores(catalog, root@, next, given(tracks@))
                },
                Err(message) => exists|k: int|
                    first_unrestorable(given(tracks@), next, k) && message@ == restore_problem(given(tracks@), next, k),
            },
    {
        let ghost g = given(tracks@);
        let mut catalog = Catalog { root, next, tracks: Vec::new() };
        assert(catalog.entries() =~= Seq::<((bool, Seq<Seq<char>>), TrackId)>::empty());
        let mut seen: Vec<(TrackId, FsPath)> = Vec::new();
        let mut k: usize = 0;
        while k < tracks.len()
            invariant
                g == given(tracks@),
                k <= tracks@.len(),
                catalog.well_formed(),
                catalog.root_spec() == root@,
                catalog.next_spec() == next,
                seen@.len() == k,
                forall|j: int| 0 <= j < k ==> (#[trigger] seen@[j]).0 == g[j].1 && seen@[j].1@ == g[j].0,
                forall|j: int| 0 <= j < k ==> !#[trigger] unrestorable(g, next, j),
                forall|p: (bool, Seq<Seq<char>>)| #[trigger] catalog.identifier_spec(p) == last_given(g, p, k as int),
                forall|i: int| 0 <= i < catalog.entries().len() ==> exists|j: int|
                    0 <= j < k && (#[trigger] g[j]).1 == (#[trigger] catalog.entries()[i]).1,
            decreases tracks@.len() - k,
        {
            let path = &tracks[k].0;
            let identifier = tracks[k].1;
            proof {
                assert(g[k as int] == (path@, identifier));
            }
            if identifier.number() >= next {
                let mut message = String::new();
                text::append(&mut message, "`");
                let shown = path.to_string();
                text::append(&mut message, shown.as_str());
                text::append(&mut message, "` is track ");
                text::append_decimal(&mut message, identifier.number() as u64);
                text::append(&mut message, ", which has not been assigned yet");
                proof {
                    assert(unrestorable(g, next, k as int));
                    assert(first_unrestorable(g, next, k as int));
                }
                return Err(message);
            }
            let mut j: usize = 0;
            while j < seen.len()
                invariant
                    j <= seen@.len(),
                    seen@.len() == k,
                    k < tracks@.len(),
                    g == given(tracks@),
                    g[k as int] == (path@, identifier),
                    identifier@ < next,
                    forall|i: int| 0 <= i < k ==> (#[trigger] seen@[i]).0 == g[i].1 && seen@[i].1@ == g[i].0,
                    forall|i: int| 0 <= i < k ==> !#[trigger] unrestorable(g, next, i),
                    forall|i: int| 0 <= i < j ==> (#[trigger] seen@[i]).0 != identifier,
                decreases seen.len() - j,
            {
                if seen[j].0 == identifier {
                    let mut message = String::new();
                    text::append(&mut message, "`");
                    let other = seen[j].1.to_string();
                    text::append(&mut message, other.as_str());
                    text::append(&mut message, "` and `");
                    let shown = path.to_string();
                    text::append(&mut message, shown.as_str());
                    text::append(&mut message, "` are both track ");
                    text::append_decimal(&mut message, identifier.number() as u64);
                    proof {
                        assert(g[j as int].1 == identifier);
                        assert(unrestorable(g, next, k as int));
                        assert(first_unrestorable(g, next, k as int));
                        let c = choose|c: int| 0 <= c < k && (#[trigger] g[c]).1 == identifier;
                        if c != j {
                            let (lo, hi) = if c < j { (c, j as int) } else { (j as int, c) };
                            assert(g[lo].1 == g[hi].1);
                            assert(unrestorable(g, next, hi));
                        }
                    }
                    return Err(message);
                }
                j = j + 1;
            }
            proof {
                assert forall|i: int| 0 <= i < k implies (#[trigger] g[i]).1 != identifier by {
                    assert(seen@[i].0 != identifier);
                }
                assert(!unrestorable(g, next, k as int));
            }
            let ghost before = catalog;
            match catalog.find(path) {
                Ok(at) => {
                    catalog.place(at, path.duplicate(), identifier, true);
                    proof {
                        let e = catalog.entries();
                        let b = before.entries();
                        assert(e == b.update(at as int, (path@, identifier)));
                        assert forall|i: int| 0 <= i < e.len() implies exists|j: int|
                            0 <= j < k + 1 && (#[trigger] g[j]).1 == (#[trigger] e[i]).1 by {
                            if i == at {
                                assert(g[k as int].1 == e[i].1);
                            } else {
                                assert(e[i] == b[i]);
                                let j = choose|j: int| 0 <= j < k && (#[trigger] g[j]).1 == b[i].1;
                                assert(g[j].1 == e[i].1);
                            }
                        }
                        assert forall|i1: int, i2: int| 0 <= i1 < i2 < e.len() implies #[trigger] e[i1].1
                            != #[trigger] e[i2].1 by {
                            if i1 == at {
                                assert(e[i2] == b[i2]);
                                let j = choose|j: int| 0 <= j < k && (#[trigger] g[j]).1 == b[i2].1;
                            } else if i2 == at {
                                assert(e[i1] == b[i1]);
                                let j = choose|j: int| 0 <= j < k && (#[trigger] g[j]).1 == b[i1].1;
                            } else {
                                assert(e[i1] == b[i1]);
                                assert(e[i2] == b[i2]);
                            }
                        }
                        assert forall|i: int| 0 <= i < e.len() implies (#[trigger] e[i]).1@ < catalog.next_spec() by {
                            if i != at {
                                assert(e[i] == b[i]);
                            }
                        }
                    }
                },
                Err(at) => {
                    catalog.place(at, path.duplicate(), identifier, false);
                    proof {
                        let e = catalog.entries();
                        let b = before.entries();
                        assert(e == b.insert(at as int, (path@, identifier)));
                        assert forall|i: int| 0 <= i < e.len() implies exists|j: int|
                            0 <= j < k + 1 && (#[trigger] g[j]).1 == (#[trigger] e[i]).1 by {
                            if i == at {
                                assert(g[k as int].1 == e[i].1);
                            } else {
                                let i0 = if i < at { i } else { i - 1 };
                                assert(e[i] == b[i0]);
                                let j = choose|j: int| 0 <= j < k && (#[trigger] g[j]).1 == b[i0].1;
                                assert(g[j].1 == e[i].1);
                            }
                        }
                        assert forall|i1: int, i2: int| 0 <= i1 < i2 < e.len() implies #[trigger] e[i1].1
                            != #[trigger] e[i2].1 by {
                            let a1 = if i1 < at { i1 } else { i1 - 1 };
                            let a2 = if i2 < at { i2 } else { i2 - 1 };
                            if i1 == at {
                                assert(e[i2] == b[a2]);
                                let j = choose|j: int| 0 <= j < k && (#[trigger] g[j]).1 == b[a2].1;
                            } else if i2 == at {
                                assert(e[i1] == b[a1]);
                                let j = choose|j: int| 0 <= j < k && (#[trigger] g[j]).1 == b[a1].1;
                            } else {
                                assert(e[i1] == b[a1]);
                                assert(e[i2] == b[a2]);
                            }
                        }
                        assert forall|i: int| 0 <= i < e.len() implies (#[trigger] e[i]).1@ < catalog.next_spec() by {
                            if i < at {
                                assert(e[i] == b[i]);
                            } else if i > at {
                                assert(e[i] == b[i - 1]);
                            }
                        }
                    }
                },
            }
            proof {
                assert forall|p: (bool, Seq<Seq<char>>)| #[trigger] catalog.identifier_spec(p)
                    == last_given(g, p, k + 1) by {
                    if p != path@ {
                        assert(before.identifier_spec(p) == last_given(g, p, k as int));
                    }
                }
            }
            seen.push((identifier, path.duplicate()));
            k = k + 1;
        }
        Ok(catalog)
    }

    /// The root directory.
    pub fn root(&self) -> (root: &FsPath)
        ensures
            root@ == self.root_spec(),
    {
        &self.root
    }

    /// Changes the root directory. Identifiers are unaffected: each is keyed
    /// by a path relative to the root, not by a path on this machine.
    pub fn set_root(&mut self, root: FsPath)
        ensures
            final(self).root_spec() == root@,
            final(self).entries() == old(self).entries(),
            final(self).next_spec() == old(self).next_spec(),
    {
        self.root = root;
    }

    /// The next identifier to assign.
    pub fn next(&self) -> (next: u32)
        ensures
            next == self.next_spec(),
    {
        self.next
    }

    /// The identifier of the track at `path`, relative to the root, if it
    /// has been seen before.
    pub fn identifier_for(&self, path: &FsPath) -> (identifier: Option<TrackId>)
        requires
            self.well_formed(),
        ensures
            identifier == self.identifier_spec(path@),
    {
        match self.find(path) {
            Ok(i) => {
                proof {
                    self.lemma_identifier_at(i as int);
                }
                Some(self.tracks[i].1)
            },
            Err(i) => {
                proof {
                    assert forall|k: int| 0 <= k < self.entries().len() implies (#[trigger] self.entries()[k]).0
                        != path@ by {
                        lemma_path_order(self.entries()[k].0, path@, path@);
                    }
                }
                None
            },
        }
    }

    /// The entry at `i` is the one `identifier_spec` finds for its path.
    proof fn lemma_identifier_at(self, i: int)
        requires
            self.well_formed(),
            0 <= i < self.entries().len(),
        ensures
            self.identifier_spec(self.entries()[i].0) == Some(self.entries()[i].1),
    {
        lemma_identifier_at(self.entries(), i);
    }

    /// The path of a track relative to the root, if it is in the catalog.
    pub fn path_of(&self, identifier: TrackId) -> (path: Option<&FsPath>)
        requires
            self.well_formed(),
        ensures
            match path {
                Some(p) => exists|i: int|
                    0 <= i < self.entries().len() && (#[trigger] self.entries()[i]) == (p@, identifier),
                None => forall|i: int| 0 <= i < self.entries().len() ==> (#[trigger] self.entries()[i]).1 != identifier,
            },
    {
        let mut i: usize = 0;
        while i < self.tracks.len()
            invariant
                i <= self.entries().len(),
                forall|k: int| 0 <= k < i ==> (#[trigger] self.entries()[k]).1 != identifier,
            decreases self.tracks.len() - i,
        {
            if self.tracks[i].1 == identifier {
                assert(self.entries()[i as int] == (self.tracks@[i as int].0@, identifier));
                return Some(&self.tracks[i].0);
            }
            i = i + 1;
        }
        None
    }

    /// Every track, as an identifier and a path relative to the root, in
    /// path order.
    pub fn tracks(&self) -> (tracks: Vec<(TrackId, FsPath)>)
        ensures
            tracks@.len() == self.entries().len(),
            forall|i: int| 0 <= i < tracks@.len() ==> (#[trigger] tracks@[i]).0 == self.entries()[i].1
                && tracks@[i].1@ == self.entries()[i].0,
    {
        let mut tracks: Vec<(TrackId, FsPath)> = Vec::new();
        let mut i: usize = 0;
        while i < self.tracks.len()
            invariant
                i <= self.entries().len(),
                tracks@.len() == i,
                forall|k: int| 0 <= k < i ==> (#[trigger] tracks@[k]).0 == self.entries()[k].1
                    && tracks@[k].1@ == self.entries()[k].0,
            decreases self.tracks.len() - i,
        {
            let (path, identifier) = &self.tracks[i];
            tracks.push((*identifier, path.duplicate()));
            i = i + 1;
        }
        tracks
    }

    /// How many tracks have ever been seen.
    pub fn len(&self) -> (n: usize)
        ensures
            n == self.entries().len(),
    {
        self.tracks.len()
    }

    /// Whether no track has been seen.
    pub fn is_empty(&self) -> (b: bool)
        ensures
            b == (self.entries().len() == 0),
    {
        self.tracks.len() == 0
    }

    /// Puts `path` at position `at` with `identifier`, replacing the entry
    /// there if `replace`.
    fn place(&mut self, at: usize, path: FsPath, identifier: TrackId, replace: bool)
        requires
            replace ==> at < old(self).entries().len() && old(self).entries()[at as int].0 == path@,
            !replace ==> at <= old(self).entries().len() && (forall|k: int|
                0 <= k < at ==> path_order(#[trigger] old(self).entries()[k].0, path@) < 0) && (forall|k: int|
                at <= k < old(self).entries().len() ==> path_order(path@, #[trigger] old(self).entries()[k].0) < 0),
            in_path_order(old(self).entries()),
        ensures
            in_path_order(final(self).entries()),
            final(self).root_spec() == old(self).root_spec(),
            final(self).next_spec() == old(self).next_spec(),
            replace ==> final(self).entries() == old(self).entries().update(at as int, (path@, identifier)),
            !replace ==> final(self).entries() == old(self).entries().insert(at as int, (path@, identifier)),
            final(self).identifier_spec(path@) == Some(identifier),
            forall|other: (bool, Seq<Seq<char>>)|
                other != path@ ==> #[trigger] final(self).identifier_spec(other) == old(self).identifier_spec(other),
    {
        let ghost old_self = *self;
        let ghost before = self.entries();
        let ghost p = path@;
        if replace {
            self.tracks.set(at, (path, identifier));
            assert(self.entries() =~= before.update(at as int, (p, identifier)));
        } else {
            self.tracks.insert(at, (path, identifier));
            assert(self.entries() =~= before.insert(at as int, (p, identifier)));
            assert forall|i: int, j: int|
                0 <= i < j < self.entries().len() implies path_order(
                #[trigger] self.entries()[i].0,
                #[trigger] self.entries()[j].0,
            ) < 0 by {
                if i < at && j > at {
                    lemma_path_order(before[i].0, p, before[j - 1].0);
                }
            }
        }
        proof {
            let e = self.entries();
            assert(e[at as int] == (p, identifier));
            lemma_identifier_at(e, at as int);
            assert forall|other: (bool, Seq<Seq<char>>)| other != p implies #[trigger] identifier_in(e, other)
                == identifier_in(before, other) by {
                if exists|k: int| 0 <= k < before.len() && (#[trigger] before[k]).0 == other {
                    let k = choose|k: int| 0 <= k < before.len() && (#[trigger] before[k]).0 == other;
                    lemma_identifier_at(before, k);
                    let k2 = if replace || k < at { k } else { k + 1 };
                    assert(e[k2] == before[k]);
                    lemma_identifier_at(e, k2);
                } else {
                    assert forall|k: int| 0 <= k < e.len() implies (#[trigger] e[k]).0 != other by {
                        if replace {
                            if k != at {
                                assert(e[k] == before[k]);
                            }
                        } else if k < at {
                            assert(e[k] == before[k]);
                        } else if k > at {
                            assert(e[k] == before[k - 1]);
                        }
                    }
                }
            }
        }
    }

    /// The identifier of the track at `path`, assigning the next one if it
    /// has not been seen before.
    ///
    /// More than `u32::MAX` tracks cannot be identified: the caller rules out
    /// a new track once the last identifier has been assigned.
    pub fn identify(&mut self, path: &FsPath) -> (identifier: TrackId)
        requires
            old(self).well_formed(),
            old(self).identifier_spec(path@) is None ==> old(self).next_spec() < u32::MAX,
        ensures
            final(self).well_formed(),
            final(self).root_spec() == old(self).root_spec(),
            final(self).identifier_spec(path@) == Some(identifier),
            old(self).identifier_spec(path@) matches Some(known) ==> identifier == known && *final(self)
                == *old(self),
            old(self).identifier_spec(path@) is None ==> identifier@ == old(self).next_spec()
                && final(self).next_spec() == old(self).next_spec() + 1
                && final(self).entries().len() == old(self).entries().len() + 1,
            forall|other: (bool, Seq<Seq<char>>)|
                other != path@ ==> #[trigger] final(self).identifier_spec(other) == old(self).identifier_spec(other),
    {
        match self.find(path) {
            Ok(i) => {
                proof {
                    self.lemma_identifier_at(i as int);
                }
                self.tracks[i].1
            },
            Err(at) => {
                let ghost before = *self;
                proof {
                    assert forall|k: int| 0 <= k < before.entries().len() implies (#[trigger] before.entries()[k]).0
                        != path@ by {
                        lemma_path_order(before.entries()[k].0, path@, path@);
                    }
                }
                let identifier = TrackId::new(self.next);
                self.place(at, path.duplicate(), identifier, false);
                let ghost mid = *self;
                self.next = self.next + 1;
                proof {
                    let e = self.entries();
                    assert(e == mid.entries());
                    assert forall|other: (bool, Seq<Seq<char>>)| other != path@ implies #[trigger] self.identifier_spec(other)
                        == before.identifier_spec(other) by {
                        assert(self.identifier_spec(other) == mid.identifier_spec(other));
                    }
                    assert(e == before.entries().insert(at as int, (path@, identifier)));
                    assert forall|i: int, j: int| 0 <= i < j < e.len() implies #[trigger] e[i].1 != #[trigger] e[j].1 by {
                        if i != at as int && j != at as int {
                            let i0 = if i < at { i } else { i - 1 };
                            let j0 = if j < at { j } else { j - 1 };
                            assert(e[i] == before.entries()[i0]);
                            assert(e[j] == before.entries()[j0]);
                        } else if i == at as int {
                            let j0 = j - 1;
                            assert(e[j] == before.entries()[j0]);
                        } else {
                            assert(e[i] == before.entries()[i]);
                        }
                    }
                    assert forall|i: int| 0 <= i < e.len() implies (#[trigger] e[i]).1@ < self.next_spec() by {
                        if i < at {
                            assert(e[i] == before.entries()[i]);
                        } else if i > at {
                            assert(e[i] == before.entries()[i - 1]);
                        }
                    }
                }
                identifier
            },
        }
    }
}

/// Among entries in path order, the identifier given last to a path is the
/// one the entries give it.
proof fn lemma_last_given_sorted(entries: Seq<((bool, Seq<Seq<char>>), TrackId)>, p: (bool, Seq<Seq<char>>), n: int)
    requires
        in_path_order(entries),
        0 <= n <= entries.len(),
    ensures
        last_given(entries, p, n) == identifier_in(entries.take(n), p),
    decreases n,
{
    let prefix = entries.take(n);
    assert(in_path_order(prefix));
    if n == 0 {
        assert(!(exists|i: int| 0 <= i < prefix.len() && (#[trigger] prefix[i]).0 == p));
    } else {
        lemma_last_given_sorted(entries, p, n - 1);
        let shorter = entries.take(n - 1);
        if entries[n - 1].0 == p {
            assert(prefix[n - 1] == entries[n - 1]);
            lemma_identifier_at(prefix, n - 1);
        } else if exists|i: int| 0 <= i < shorter.len() && (#[trigger] shorter[i]).0 == p {
            let i = choose|i: int| 0 <= i < shorter.len() && (#[trigger] shorter[i]).0 == p;
            lemma_identifier_at(shorter, i);
            assert(prefix[i] == shorter[i]);
            lemma_identifier_at(prefix, i);
        } else {
            assert forall|i: int| 0 <= i < prefix.len() implies (#[trigger] prefix[i]).0 != p by {
                if i < n - 1 {
                    assert(prefix[i] == shorter[i]);
                }
            }
        }
    }
}

/// A catalog survives being stored: its entries, given back to `restore`
/// with its next identifier, are never refused, and every path keeps the
/// identifier it had while no other path gains one.
pub proof fn lemma_restore_round_trip(catalog: Catalog)
    requires
        catalog.well_formed(),
    ensures
        forall|k: int|
            0 <= k < catalog.entries().len() ==> !#[trigger] unrestorable(catalog.entries(), catalog.next_spec(), k),
        forall|p: (bool, Seq<Seq<char>>)|
            #[trigger] last_given(catalog.entries(), p, catalog.entries().len() as int) == catalog.identifier_spec(p),
{
    let e = catalog.entries();
    assert forall|k: int| 0 <= k < e.len() implies !#[trigger] unrestorable(e, catalog.next_spec(), k) by {
        assert(e[k].1@ < catalog.next_spec());
        if exists|j: int| 0 <= j < k && (#[trigger] e[j]).1 == e[k].1 {
            let j = choose|j: int| 0 <= j < k && (#[trigger] e[j]).1 == e[k].1;
            assert(e[j].1 != e[k].1);
        }
    }
    assert forall|p: (bool, Seq<Seq<char>>)|
        #[trigger] last_given(e, p, e.len() as int) == catalog.identifier_spec(p) by {
        lemma_last_given_sorted(e, p, e.len() as int);
        assert(e.take(e.len() as int) =~= e);
    }
}

/// A catalog restored from its own root, next identifier and entries is
/// the catalog it was stored from: the same root, the same next identifier
/// and the same entries.
pub proof fn lemma_restored_catalog_is_the_same(catalog: Catalog, restored: Catalog)
    requires
        catalog.well_formed(),
        restores(restored, catalog.root_spec(), catalog.next_spec(), catalog.entries()),
    ensures
        restored.root_spec() == catalog.root_spec(),
        restored.next_spec() == catalog.next_spec(),
        restored.entries() == catalog.entries(),
{
    lemma_restore_round_trip(catalog);
    assert forall|p: (bool, Seq<Seq<char>>)| #[trigger] identifier_in(restored.entries(), p)
        == identifier_in(catalog.entries(), p) by {
        assert(restored.identifier_spec(p) == last_given(catalog.entries(), p, catalog.entries().len() as int));
    }
    lemma_same_entries(restored.entries(), catalog.entries());
}

} // verus!
