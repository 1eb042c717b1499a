//! A music collection: a catalog of the tracks below a root, the history
//! recorded against them, and the events read from its file that this
//! version could not parse, kept to be written back unchanged.

use crate::catalog::Catalog;
use crate::catalog::first_unrestorable;
use crate::catalog::given;
use crate::catalog::lemma_restore_round_trip;
use crate::catalog::last_given;
use crate::catalog::restore_problem;
use crate::catalog::unrestorable;
use crate::encoding::tagged_from;
use crate::encoding::decode_tagged;
use crate::encoding::encode_tagged;
use crate::encoding::is_tagged_json;
use crate::encoding::lemma_tagged_from_same;
use crate::encoding::lemma_tagged_round_trip;
use crate::filesystem::Error;
use crate::formats::display_name;
use crate::history::History;
use crate::json::Json;
use crate::json::copy_json;
use crate::json::entry;
use crate::json::field;
use crate::json::find_member;
use crate::json::member;
use crate::json::parse_json;
use crate::json::parsed_json;
use crate::json::encode_json;
use crate::json::encoded_json;
use crate::library::DiscoveredTrack;
use crate::path::FsPath;
use crate::path::file_name_spec;
use crate::path::lemma_path_text_parses;
use crate::path::plain_path;
use crate::path::lemma_path_order;
use crate::path::parsed;
use crate::path::path_text;
use crate::path::same_text;
use crate::path::shared_prefix;
use crate::text;
use crate::track::numbered;
use crate::path::path_order;
use crate::path::split_name;
use crate::path::starts_with_spec;
use crate::track::TrackId;
use crate::track_events::TimeTaggedTrackEvent;
use crate::track_events::TimeTaggedTrackEvents;
use vstd::prelude::*;

verus! {

broadcast use {crate::track::lemma_track_id_eq, crate::track::lemma_numbered};

/// The events among `events` this version understands, in order.
pub open spec fn known_of(events: Seq<Json>) -> Seq<TimeTaggedTrackEvent>
    decreases events.len(),
{
    if events.len() == 0 {
        Seq::empty()
    } else {
        let before = known_of(events.drop_last());
        match tagged_from(events.last()) {
            Some(e) => before.push(e),
            None => before,
        }
    }
}

/// The events among `events` this version does not understand, in order.
pub open spec fn unknown_of(events: Seq<Json>) -> Seq<Json>
    decreases events.len(),
{
    if events.len() == 0 {
        Seq::empty()
    } else {
        let before = unknown_of(events.drop_last());
        match tagged_from(events.last()) {
            Some(_) => before,
            None => before.push(events.last()),
        }
    }
}

/// A track's stored events, split into those this version understands and
/// those it only carries.
pub fn split(events: Vec<Json>) -> (parts: (TimeTaggedTrackEvents, Vec<Json>))
    ensures
        parts.0@ == known_of(events@),
        parts.1@ == unknown_of(events@),
{
    let ghost all = events@;
    let mut rest = events;
    let mut known: Vec<TimeTaggedTrackEvent> = Vec::new();
    let mut kept: Vec<Json> = Vec::new();
    let total = rest.len();
    let mut i: usize = 0;
    while rest.len() > 0
        invariant
            all.len() == total,
            i + rest@.len() == all.len(),
            rest@ == all.skip(i as int),
            known@ == known_of(all.take(i as int)),
            kept@ == unknown_of(all.take(i as int)),
        decreases rest@.len(),
    {
        let value = rest.remove(0);
        proof {
            assert(value == all[i as int]);
            assert(all.take(i + 1).drop_last() =~= all.take(i as int));
            assert(all.take(i + 1).last() == all[i as int]);
            assert(rest@ =~= all.skip(i + 1));
        }
        match decode_tagged(&value) {
            Some(e) => known.push(e),
            None => kept.push(value),
        }
        i = i + 1;
    }
    assert(all.take(i as int) =~= all);
    (TimeTaggedTrackEvents::from_vec(known), kept)
}

/// The views of a list of paths.
pub open spec fn path_views(paths: Seq<FsPath>) -> Seq<(bool, Seq<Seq<char>>)> {
    paths.map_values(|p: FsPath| p@)
}

/// Whether the paths come in path order.
pub open spec fn in_order(paths: Seq<(bool, Seq<Seq<char>>)>) -> bool {
    forall|i: int, j: int| 0 <= i < j < paths.len() ==> path_order(#[trigger] paths[i], #[trigger] paths[j]) <= 0
}

/// Whether `sorted` holds `paths` in path order.
pub open spec fn sorted_from(paths: Seq<(bool, Seq<Seq<char>>)>, sorted: Seq<(bool, Seq<Seq<char>>)>) -> bool {
    in_order(sorted) && sorted.to_multiset() == paths.to_multiset()
}

/// Paths in path order.
pub fn sort_paths(paths: Vec<FsPath>) -> (sorted: Vec<FsPath>)
    ensures
        sorted_from(path_views(paths@), path_views(sorted@)),
{
    broadcast use vstd::seq_lib::group_to_multiset_ensures;

    let ghost all = path_views(paths@);
    let mut rest = paths;
    let mut sorted: Vec<FsPath> = Vec::new();
    let total = rest.len();
    let mut k: usize = 0;
    while rest.len() > 0
        invariant
            all.len() == total,
            k + rest@.len() == all.len(),
            path_views(rest@) == all.skip(k as int),
            in_order(path_views(sorted@)),
            path_views(sorted@).to_multiset() == all.take(k as int).to_multiset(),
        decreases rest@.len(),
    {
        let ghost before = path_views(rest@);
        let ghost old_rest = rest@;
        let next = rest.remove(0);
        proof {
            assert(next == old_rest[0]);
            assert(before[0] == old_rest[0]@);
            assert(all.skip(k as int)[0] == all[k as int]);
            assert(next@ == all[k as int]);
            assert(rest@ =~= old_rest.subrange(1, old_rest.len() as int));
            assert forall|i: int| 0 <= i < path_views(rest@).len() implies path_views(rest@)[i] == all.skip(k + 1)[i] by {
                assert(path_views(rest@)[i] == before[i + 1]);
            }
            assert(path_views(rest@) =~= all.skip(k + 1));
        }
        let mut at: usize = 0;
        while at < sorted.len() && sorted[at].order_with(&next) <= 0
            invariant
                at <= sorted@.len(),
                forall|i: int| 0 <= i < at ==> path_order((#[trigger] sorted@[i])@, next@) <= 0,
            decreases sorted@.len() - at,
        {
            at = at + 1;
        }
        let ghost s0 = path_views(sorted@);
        sorted.insert(at, next);
        proof {
            let s1 = path_views(sorted@);
            assert(s1 =~= s0.insert(at as int, next@));
            assert forall|i: int, j: int| 0 <= i < j < s1.len() implies path_order(#[trigger] s1[i], #[trigger] s1[j]) <= 0 by {
                if i < at && j == at {
                    assert(s1[i] == s0[i]);
                } else if i == at && j > at {
                    assert(s1[j] == s0[j - 1]);
                    if at < s0.len() {
                        lemma_path_order(s0[at as int], next@, next@);
                        if j - 1 > at {
                            lemma_path_order(next@, s0[at as int], s0[j - 1]);
                            lemma_path_order(s0[at as int], s0[j - 1], next@);
                            lemma_path_order(next@, s0[j - 1], s0[at as int]);
                        }
                    }
                } else if i < at && j > at {
                    assert(s1[i] == s0[i]);
                    assert(s1[j] == s0[j - 1]);
                } else if j < at {
                    assert(s1[i] == s0[i]);
                    assert(s1[j] == s0[j]);
                } else {
                    assert(s1[i] == s0[i - 1]);
                    assert(s1[j] == s0[j - 1]);
                }
            }
            assert(all.take(k + 1) =~= all.take(k as int).push(all[k as int]));
            vstd::seq_lib::to_multiset_insert(s0, at as int, next@);
            vstd::seq_lib::to_multiset_build(all.take(k as int), all[k as int]);
        }
        k = k + 1;
    }
    assert(all.take(k as int) =~= all);
    sorted
}

/// A path below `root`, relative to it.
pub open spec fn relative_to(path: (bool, Seq<Seq<char>>), root: (bool, Seq<Seq<char>>)) -> (bool, Seq<Seq<char>>) {
    (false, path.1.subrange(root.1.len() as int, path.1.len() as int))
}

/// The paths of `tracks` relative to `root`, in order.
pub open spec fn relative_paths(tracks: Seq<DiscoveredTrack>, root: (bool, Seq<Seq<char>>)) -> Seq<(bool, Seq<Seq<char>>)> {
    tracks.map_values(|t: DiscoveredTrack| relative_to(t.path@, root))
}

/// The paths among `paths` that `catalog` does not know, each once, in the
/// order they first appear: those a scan assigns new identifiers.
pub open spec fn fresh_paths(catalog: Catalog, paths: Seq<(bool, Seq<Seq<char>>)>) -> Seq<(bool, Seq<Seq<char>>)>
    decreases paths.len(),
{
    if paths.len() == 0 {
        Seq::empty()
    } else {
        let before = fresh_paths(catalog, paths.drop_last());
        if catalog.identifier_spec(paths.last()) is Some || before.contains(paths.last()) {
            before
        } else {
            before.push(paths.last())
        }
    }
}

/// No path is fresh twice, and no more paths are fresh than were given.
proof fn lemma_fresh_paths(catalog: Catalog, paths: Seq<(bool, Seq<Seq<char>>)>)
    ensures
        fresh_paths(catalog, paths).no_duplicates(),
        fresh_paths(catalog, paths).len() <= paths.len(),
        forall|i: int| 0 <= i < fresh_paths(catalog, paths).len() ==> catalog.identifier_spec(
            #[trigger] fresh_paths(catalog, paths)[i],
        ) is None,
    decreases paths.len(),
{
    if paths.len() > 0 {
        lemma_fresh_paths(catalog, paths.drop_last());
    }
}

/// The paths among `paths` that are below `root`, in order.
pub open spec fn paths_below(paths: Seq<(bool, Seq<Seq<char>>)>, root: (bool, Seq<Seq<char>>)) -> Seq<(bool, Seq<Seq<char>>)>
    decreases paths.len(),
{
    if paths.len() == 0 {
        Seq::empty()
    } else {
        let before = paths_below(paths.drop_last(), root);
        if starts_with_spec(paths.last(), root) {
            before.push(paths.last())
        } else {
            before
        }
    }
}

/// The name a track at `path` is shown under: its file name without the
/// extension.
pub open spec fn shown_name(path: (bool, Seq<Seq<char>>)) -> Seq<char> {
    match file_name_spec(path) {
        Some(file) => split_name(file).0,
        None => Seq::empty(),
    }
}

/// A root directory, the tracks below it, and the events recorded against
/// each.
#[derive(Debug)]
pub struct Collection {
    catalog: Catalog,
    history: History,
    kept: Vec<(TrackId, Vec<Json>)>,
}

/// Whether no two of `kept` are for the same track.
pub open spec fn kept_distinct(kept: Seq<(TrackId, Vec<Json>)>) -> bool {
    forall|i: int, j: int| 0 <= i < j < kept.len() ==> #[trigger] kept[i].0 != #[trigger] kept[j].0
}

/// The events kept unparsed for a track, if any.
pub open spec fn kept_for(kept: Seq<(TrackId, Vec<Json>)>, id: TrackId) -> Option<Seq<Json>> {
    if exists|i: int| 0 <= i < kept.len() && (#[trigger] kept[i]).0 == id {
        Some(kept[choose|i: int| 0 <= i < kept.len() && (#[trigger] kept[i]).0 == id].1@)
    } else {
        None
    }
}

impl Collection {
    /// The tracks below the root and their identifiers.
    pub closed spec fn catalog_spec(&self) -> Catalog {
        self.catalog
    }

    /// The events recorded against every track.
    pub closed spec fn history_spec(&self) -> History {
        self.history
    }

    /// The events this version could not parse, by track.
    pub closed spec fn kept_spec(&self) -> Seq<(TrackId, Vec<Json>)> {
        self.kept@
    }

    /// The parts agree: the catalog and the history are well formed, and no
    /// track has two lists of kept events.
    pub open spec fn well_formed(&self) -> bool {
        &&& self.catalog_spec().well_formed()
        &&& self.history_spec().well_formed()
        &&& kept_distinct(self.kept_spec())
    }

    /// An empty collection for the music below `root`.
    pub fn new(root: FsPath) -> (collection: Collection)
        ensures
            collection.well_formed(),
            collection.catalog_spec().root_spec() == root@,
            collection.catalog_spec().next_spec() == 0,
            collection.catalog_spec().entries().len() == 0,
            collection.history_spec().events() == Map::<u32, Seq<TimeTaggedTrackEvent>>::empty(),
            collection.kept_spec().len() == 0,
    {
        Collection { catalog: Catalog::new(root), history: History::new(), kept: Vec::new() }
    }

    /// The root directory.
    pub fn root(&self) -> (root: &FsPath)
        ensures
            root@ == self.catalog_spec().root_spec(),
    {
        self.catalog.root()
    }

    /// Changes the root directory. Identifiers, and the history recorded
    /// against them, are unaffected.
    pub fn set_root(&mut self, root: FsPath)
        ensures
            final(self).catalog_spec().root_spec() == root@,
            final(self).catalog_spec().entries() == old(self).catalog_spec().entries(),
            final(self).catalog_spec().next_spec() == old(self).catalog_spec().next_spec(),
            final(self).history_spec() == old(self).history_spec(),
            final(self).kept_spec() == old(self).kept_spec(),
    {
        self.catalog.set_root(root);
    }

    /// The tracks below the root and their identifiers.
    pub fn catalog(&self) -> (catalog: &Catalog)
        ensures
            *catalog == self.catalog_spec(),
    {
        &self.catalog
    }

    /// The events recorded against every track.
    pub fn history(&self) -> (history: &History)
        ensures
            *history == self.history_spec(),
    {
        &self.history
    }

    /// The events recorded against every track, for modification.
    pub fn history_mut(&mut self) -> (history: &mut History)
        ensures
            *history == old(self).history_spec(),
            final(self).history_spec() == *final(history),
            final(self).catalog_spec() == old(self).catalog_spec(),
            final(self).kept_spec() == old(self).kept_spec(),
    {
        &mut self.history
    }

    /// The directory a scan walks: `under`, or the root if none is given.
    /// Refused when it is not below the root, as its files would have no
    /// path relative to the root to be known by.
    pub fn scan_directory(&self, under: Option<&FsPath>) -> (directory: Result<FsPath, Error>)
        ensures
            match under {
                None => directory matches Ok(d) && d@ == self.catalog_spec().root_spec(),
                Some(u) => if starts_with_spec(u@, self.catalog_spec().root_spec()) {
                    directory matches Ok(d) && d@ == u@
                } else {
                    directory matches Err(Error::OutsideRoot { path, root }) && path@ == u@ && root@
                        == self.catalog_spec().root_spec()
                },
            },
    {
        let root = self.catalog.root();
        match under {
            None => Ok(root.duplicate()),
            Some(u) => {
                if u.starts_with(root) {
                    Ok(u.duplicate())
                } else {
                    Err(Error::OutsideRoot { path: u.duplicate(), root: root.duplicate() })
                }
            },
        }
    }

    /// The tracks among the audio files found by a scan: each file below the
    /// root, in path order, with the identifier the catalog gives its path
    /// relative to the root and the name it is shown under. Files seen for
    /// the first time are assigned identifiers, which reach the disk only when
    /// the collection is next saved; every identifier already assigned is
    /// kept.
    ///
    /// The caller rules out assigning past the last identifier there is.
    pub fn scan_found(&mut self, files: Vec<FsPath>) -> (tracks: Vec<DiscoveredTrack>)
        requires
            old(self).well_formed(),
            old(self).catalog_spec().next_spec() + files@.len() <= u32::MAX,
        ensures
            final(self).well_formed(),
            final(self).catalog_spec().root_spec() == old(self).catalog_spec().root_spec(),
            final(self).history_spec() == old(self).history_spec(),
            final(self).kept_spec() == old(self).kept_spec(),
            exists|sorted: Seq<(bool, Seq<Seq<char>>)>|
                sorted_from(path_views(files@), sorted) && #[trigger] paths_below(
                    sorted,
                    old(self).catalog_spec().root_spec(),
                ) == tracks@.map_values(|t: DiscoveredTrack| t.path@),
            forall|i: int| 0 <= i < tracks@.len() ==> final(self).catalog_spec().identifier_spec(
                relative_to((#[trigger] tracks@[i]).path@, old(self).catalog_spec().root_spec()),
            ) == Some(tracks@[i].identifier),
            forall|i: int| 0 <= i < tracks@.len() ==> (#[trigger] tracks@[i]).name@ == shown_name(tracks@[i].path@),
            forall|p: (bool, Seq<Seq<char>>)| #[trigger] old(self).catalog_spec().identifier_spec(p) is Some
                ==> final(self).catalog_spec().identifier_spec(p) == old(self).catalog_spec().identifier_spec(p),
            ({
                let fresh = fresh_paths(
                    old(self).catalog_spec(),
                    relative_paths(tracks@, old(self).catalog_spec().root_spec()),
                );
                &&& final(self).catalog_spec().next_spec() == old(self).catalog_spec().next_spec() + fresh.len()
                &&& forall|i: int| 0 <= i < fresh.len() ==> final(self).catalog_spec().identifier_spec(
                    #[trigger] fresh[i],
                ) == Some(numbered((old(self).catalog_spec().next_spec() + i) as u32))
                &&& forall|p: (bool, Seq<Seq<char>>)| old(self).catalog_spec().identifier_spec(p) is None
                    && !fresh.contains(p) ==> #[trigger] final(self).catalog_spec().identifier_spec(p) is None
            }),
    {
        let ghost root_view = self.catalog.root_spec();
        let ghost start = self.catalog;
        let ghost given = path_views(files@);
        let sorted = sort_paths(files);
        let ghost all = path_views(sorted@);
        proof {
            vstd::seq_lib::to_multiset_len(all);
            vstd::seq_lib::to_multiset_len(given);
        }
        let root = self.catalog.root().duplicate();
        let mut rest = sorted;
        let total = rest.len();
        let mut tracks: Vec<DiscoveredTrack> = Vec::new();
        let mut k: usize = 0;
        while rest.len() > 0
            invariant
                self.well_formed(),
                root@ == root_view,
                self.catalog_spec().root_spec() == root_view,
                self.history_spec() == old(self).history_spec(),
                self.kept_spec() == old(self).kept_spec(),
                all.len() == total,
                total == files@.len(),
                k + rest@.len() == all.len(),
                path_views(rest@) == all.skip(k as int),
                self.catalog_spec().next_spec() <= start.next_spec() + k,
                start.next_spec() + files@.len() <= u32::MAX,
                paths_below(all.take(k as int), root_view) == tracks@.map_values(|t: DiscoveredTrack| t.path@),
                forall|i: int| 0 <= i < tracks@.len() ==> self.catalog_spec().identifier_spec(
                    relative_to((#[trigger] tracks@[i]).path@, root_view),
                ) == Some(tracks@[i].identifier),
                forall|i: int| 0 <= i < tracks@.len() ==> (#[trigger] tracks@[i]).name@ == shown_name(tracks@[i].path@),
                forall|p: (bool, Seq<Seq<char>>)| #[trigger] start.identifier_spec(p) is Some
                    ==> self.catalog_spec().identifier_spec(p) == start.identifier_spec(p),
                tracks@.len() <= k,
                self.catalog_spec().next_spec() == start.next_spec() + fresh_paths(
                    start,
                    relative_paths(tracks@, root_view),
                ).len(),
                forall|i: int| 0 <= i < fresh_paths(start, relative_paths(tracks@, root_view)).len()
                    ==> self.catalog_spec().identifier_spec(
                    #[trigger] fresh_paths(start, relative_paths(tracks@, root_view))[i],
                ) == Some(numbered((start.next_spec() + i) as u32)),
                forall|p: (bool, Seq<Seq<char>>)| start.identifier_spec(p) is None && !fresh_paths(
                    start,
                    relative_paths(tracks@, root_view),
                ).contains(p) ==> #[trigger] self.catalog_spec().identifier_spec(p) is None,
            decreases rest@.len(),
        {
            let ghost before_rest = path_views(rest@);
            let ghost old_rest = rest@;
            let file = rest.remove(0);
            proof {
                assert(file == old_rest[0]);
                assert(before_rest[0] == old_rest[0]@);
                assert(all.skip(k as int)[0] == all[k as int]);
                assert(rest@ =~= old_rest.subrange(1, old_rest.len() as int));
                assert forall|i: int| 0 <= i < path_views(rest@).len() implies path_views(rest@)[i] == all.skip(k + 1)[i] by {
                    assert(path_views(rest@)[i] == before_rest[i + 1]);
                }
                assert(all.take(k + 1) =~= all.take(k as int).push(all[k as int]));
                assert(all.take(k + 1).drop_last() =~= all.take(k as int));
                assert(all.take(k + 1).last() == all[k as int]);
                assert(file@ == all[k as int]);
            }
            let ghost tracks_before = tracks@;
            match file.strip_prefix(&root) {
                None => {},
                Some(below_root) => {
                    let ghost before = self.catalog;
                    let identifier = self.catalog.identify(&below_root);
                    let name = display_name(&file);
                    tracks.push(DiscoveredTrack { identifier, name, path: file });
                    proof {
                        let t = tracks@;
                        assert(t.map_values(|t: DiscoveredTrack| t.path@) =~= tracks_before.map_values(
                            |t: DiscoveredTrack| t.path@,
                        ).push(all[k as int]));
                        assert forall|i: int| 0 <= i < t.len() implies self.catalog_spec().identifier_spec(
                            relative_to((#[trigger] t[i]).path@, root_view),
                        ) == Some(t[i].identifier) by {
                            if i < tracks_before.len() {
                                assert(t[i] == tracks_before[i]);
                                let rel = relative_to(t[i].path@, root_view);
                                if rel != below_root@ {
                                    assert(before.identifier_spec(rel) == Some(t[i].identifier));
                                }
                            }
                        }
                        assert forall|i: int| 0 <= i < t.len() implies (#[trigger] t[i]).name@ == shown_name(t[i].path@) by {
                            if i < tracks_before.len() {
                                assert(t[i] == tracks_before[i]);
                            }
                        }
                        assert forall|p: (bool, Seq<Seq<char>>)| #[trigger] start.identifier_spec(p) is Some
                            implies self.catalog_spec().identifier_spec(p) == start.identifier_spec(p) by {
                            assert(before.identifier_spec(p) == start.identifier_spec(p));
                        }
                        let rel_before = relative_paths(tracks_before, root_view);
                        let rel = relative_paths(t, root_view);
                        assert(rel =~= rel_before.push(below_root@));
                        assert(rel.drop_last() =~= rel_before);
                        let fb = fresh_paths(start, rel_before);
                        let fa = fresh_paths(start, rel);
                        lemma_fresh_paths(start, rel_before);
                        if start.identifier_spec(below_root@) is Some || fb.contains(below_root@) {
                            assert(fa == fb);
                            if fb.contains(below_root@) {
                                let j = choose|j: int| 0 <= j < fb.len() && fb[j] == below_root@;
                                assert(before.identifier_spec(fb[j]) is Some);
                            }
                            assert(self.catalog == before);
                        } else {
                            assert(fa == fb.push(below_root@));
                            assert(before.identifier_spec(below_root@) is None);
                            let fresh_id = numbered((start.next_spec() + fb.len()) as u32);
                            assert(fresh_id@ == identifier@);
                            assert(fresh_id == identifier);
                            assert forall|i: int| 0 <= i < fa.len() implies self.catalog_spec().identifier_spec(
                                #[trigger] fa[i],
                            ) == Some(numbered((start.next_spec() + i) as u32)) by {
                                if i < fb.len() {
                                    assert(fa[i] == fb[i]);
                                    assert(fb[i] != below_root@);
                                }
                            }
                            assert forall|p: (bool, Seq<Seq<char>>)| start.identifier_spec(p) is None && !fa.contains(p)
                                implies #[trigger] self.catalog_spec().identifier_spec(p) is None by {
                                assert(fa[fa.len() - 1] == below_root@);
                                if fb.contains(p) {
                                    let j = choose|j: int| 0 <= j < fb.len() && fb[j] == p;
                                    assert(fa[j] == p);
                                }
                            }
                        }
                    }
                },
            }
            k = k + 1;
        }
        proof {
            assert(all.take(k as int) =~= all);
        }
        tracks
    }

    /// Records events kept unparsed for a track, replacing any it had.
    fn keep(&mut self, identifier: TrackId, events: Vec<Json>)
        requires
            kept_distinct(old(self).kept_spec()),
        ensures
            kept_distinct(final(self).kept_spec()),
            final(self).catalog_spec() == old(self).catalog_spec(),
            final(self).history_spec() == old(self).history_spec(),
            forall|id: TrackId| #[trigger] kept_for(final(self).kept_spec(), id) == if id == identifier {
                Some(events@)
            } else {
                kept_for(old(self).kept_spec(), id)
            },
    {
        let ghost before = self.kept@;
        let ghost given = events@;
        let mut i: usize = 0;
        while i < self.kept.len()
            invariant
                i <= self.kept@.len(),
                self.kept@ == before,
                before == old(self).kept@,
                kept_distinct(before),
                events@ == given,
                self.catalog == old(self).catalog,
                self.history == old(self).history,
                forall|k: int| 0 <= k < i ==> (#[trigger] self.kept@[k]).0 != identifier,
            decreases self.kept.len() - i,
        {
            if self.kept[i].0 == identifier {
                self.kept.remove(i);
                let entry = (identifier, events);
                let ghost placed = entry;
                self.kept.insert(i, entry);
                proof {
                    let after = self.kept@;
                    assert(after =~= before.remove(i as int).insert(i as int, placed));
                    assert(after =~= before.update(i as int, placed));
                    assert(after[i as int].1@ == given);
                    assert forall|a: int, b: int| 0 <= a < b < after.len() implies #[trigger] after[a].0 != #[trigger] after[b].0 by {
                        assert(after[a].0 == before[a].0);
                        assert(after[b].0 == before[b].0);
                    }
                    assert forall|id: TrackId| #[trigger] kept_for(after, id) == if id == identifier {
                        Some(given)
                    } else {
                        kept_for(before, id)
                    } by {
                        if id == identifier {
                            assert(after[i as int].0 == id);
                            let c = choose|c: int| 0 <= c < after.len() && (#[trigger] after[c]).0 == id;
                            if c != i as int {
                                assert(after[c].0 == before[c].0);
                                assert(before[i as int].0 == identifier);
                            }
                        } else {
                            if exists|c: int| 0 <= c < before.len() && (#[trigger] before[c]).0 == id {
                                let c = choose|c: int| 0 <= c < before.len() && (#[trigger] before[c]).0 == id;
                                assert(after[c] == before[c]);
                                let d = choose|d: int| 0 <= d < after.len() && (#[trigger] after[d]).0 == id;
                                assert(after[d] == before[d]);
                                if c != d {
                                    if c < d {
                                        assert(before[c].0 != before[d].0);
                                    } else {
                                        assert(before[d].0 != before[c].0);
                                    }
                                }
                            } else {
                                assert forall|d: int| 0 <= d < after.len() implies (#[trigger] after[d]).0 != id by {
                                    if d != i as int {
                                        assert(after[d] == before[d]);
                                    }
                                }
                            }
                        }
                    }
                }
                return;
            }
            i = i + 1;
        }
        let entry = (identifier, events);
        let ghost placed = entry;
        self.kept.push(entry);
        proof {
            let after = self.kept@;
            assert(after =~= before.push(placed));
            assert forall|a: int, b: int| 0 <= a < b < after.len() implies #[trigger] after[a].0 != #[trigger] after[b].0 by {
                if b == after.len() - 1 {
                    assert(after[a] == before[a]);
                } else {
                    assert(after[a] == before[a]);
                    assert(after[b] == before[b]);
                }
            }
            assert forall|id: TrackId| #[trigger] kept_for(after, id) == if id == identifier {
                Some(given)
            } else {
                kept_for(before, id)
            } by {
                let last = after.len() - 1;
                if id == identifier {
                    assert(after[last].0 == id);
                    let c = choose|c: int| 0 <= c < after.len() && (#[trigger] after[c]).0 == id;
                    if c != last {
                        assert(after[c] == before[c]);
                    }
                } else {
                    if exists|c: int| 0 <= c < before.len() && (#[trigger] before[c]).0 == id {
                        let c = choose|c: int| 0 <= c < before.len() && (#[trigger] before[c]).0 == id;
                        assert(after[c] == before[c]);
                        let d = choose|d: int| 0 <= d < after.len() && (#[trigger] after[d]).0 == id;
                        if d != last {
                            assert(after[d] == before[d]);
                            if c < d {
                                assert(before[c].0 != before[d].0);
                            } else if d < c {
                                assert(before[d].0 != before[c].0);
                            }
                        }
                    } else {
                        assert forall|d: int| 0 <= d < after.len() implies (#[trigger] after[d]).0 != id by {
                            if d != last {
                                assert(after[d] == before[d]);
                            }
                        }
                    }
                }
            }
        }
    }

    /// The events kept unparsed for `identifier`, if any.
    pub fn kept_for(&self, identifier: TrackId) -> (kept: Option<&Vec<Json>>)
        requires
            self.well_formed(),
        ensures
            match kept {
                Some(k) => kept_for(self.kept_spec(), identifier) == Some(k@),
                None => kept_for(self.kept_spec(), identifier) is None,
            },
    {
        let mut i: usize = 0;
        while i < self.kept.len()
            invariant
                self.well_formed(),
                i <= self.kept@.len(),
                forall|k: int| 0 <= k < i ==> (#[trigger] self.kept@[k]).0 != identifier,
            decreases self.kept.len() - i,
        {
            if self.kept[i].0 == identifier {
                proof {
                    assert(self.kept@[i as int].0 == identifier);
                    let c = choose|c: int| 0 <= c < self.kept@.len() && (#[trigger] self.kept@[c]).0 == identifier;
                    if c < i {
                        assert(self.kept@[c].0 != self.kept@[i as int].0);
                    } else if c > i {
                        assert(self.kept@[i as int].0 != self.kept@[c].0);
                    }
                }
                return Some(&self.kept[i].1);
            }
            i = i + 1;
        }
        None
    }
}

/// A value as an identifier: an unsigned integer within `u32`.
pub open spec fn u32_from(value: Option<Json>) -> Option<u32> {
    match value {
        Some(Json::Unsigned(n)) => if n <= u32::MAX as u64 {
            Some(n as u32)
        } else {
            None
        },
        _ => None,
    }
}

/// A value as a path: a string, read as a path.
pub open spec fn path_from(value: Option<Json>) -> Option<(bool, Seq<Seq<char>>)> {
    match value {
        Some(Json::Text(s)) => Some(parsed(s@)),
        _ => None,
    }
}

/// A value as a list.
pub open spec fn list_from(value: Option<Json>) -> Option<Seq<Json>> {
    match value {
        Some(Json::List(items)) => Some(items@),
        _ => None,
    }
}

/// A value as a list, an absent one counting as empty.
pub open spec fn list_or_empty(value: Option<Json>) -> Option<Seq<Json>> {
    match value {
        None => Some(Seq::empty()),
        Some(Json::List(items)) => Some(items@),
        _ => None,
    }
}

/// One track of a current file: its identifier, its path relative to the
/// root, and its events.
pub open spec fn stored_track(value: Json) -> Option<(u32, (bool, Seq<Seq<char>>), Seq<Json>)> {
    match (
        value,
        u32_from(member(value, "id"@)),
        path_from(member(value, "path"@)),
        list_from(member(value, "events"@)),
    ) {
        (Json::Object(_), Some(id), Some(path), Some(events)) => Some((id, path, events)),
        _ => None,
    }
}

/// The tracks of a current file among the first `n` of `items`, if every
/// one is one.
pub open spec fn stored_tracks(items: Seq<Json>, n: int) -> Option<Seq<(u32, (bool, Seq<Seq<char>>), Seq<Json>)>>
    decreases n,
{
    if n <= 0 {
        Some(Seq::empty())
    } else {
        match (stored_tracks(items, n - 1), stored_track(items[n - 1])) {
            (Some(before), Some(track)) => Some(before.push(track)),
            _ => None,
        }
    }
}

/// What a current file holds: the root, the next identifier, and the tracks.
pub open spec fn current_file(value: Json) -> Option<((bool, Seq<Seq<char>>), u32, Seq<(u32, (bool, Seq<Seq<char>>), Seq<Json>)>)> {
    match (
        value,
        path_from(member(value, "root"@)),
        u32_from(member(value, "next_id"@)),
        list_or_empty(member(value, "tracks"@)),
    ) {
        (Json::Object(_), Some(root), Some(next), Some(items)) => match stored_tracks(items, items.len() as int) {
            Some(tracks) => Some((root, next, tracks)),
            None => None,
        },
        _ => None,
    }
}

/// The paths and identifiers of a current file's tracks, as `restore` takes
/// them.
pub open spec fn identified(tracks: Seq<(u32, (bool, Seq<Seq<char>>), Seq<Json>)>) -> Seq<((bool, Seq<Seq<char>>), TrackId)> {
    tracks.map_values(|t: (u32, (bool, Seq<Seq<char>>), Seq<Json>)| (t.1, numbered(t.0)))
}

/// The history the tracks describe: each identifier holds the events
/// understood of the last track with it.
pub open spec fn history_of(tracks: Seq<(u32, (bool, Seq<Seq<char>>), Seq<Json>)>) -> Map<u32, Seq<TimeTaggedTrackEvent>>
    decreases tracks.len(),
{
    if tracks.len() == 0 {
        Map::empty()
    } else {
        history_of(tracks.drop_last()).insert(tracks.last().0, known_of(tracks.last().2))
    }
}

/// The events kept unparsed that the tracks describe: an identifier holds
/// those of the last track with it that had any.
pub open spec fn kept_of(tracks: Seq<(u32, (bool, Seq<Seq<char>>), Seq<Json>)>) -> Map<u32, Seq<Json>>
    decreases tracks.len(),
{
    if tracks.len() == 0 {
        Map::empty()
    } else {
        let before = kept_of(tracks.drop_last());
        let unknown = unknown_of(tracks.last().2);
        if unknown.len() > 0 {
            before.insert(tracks.last().0, unknown)
        } else {
            before
        }
    }
}

/// The layout version a file claims.
pub open spec fn version_from(value: Json) -> Option<u32> {
    match value {
        Json::Object(_) => u32_from(member(value, "version"@)),
        _ => None,
    }
}

/// The identifier of the track at `path`, parsed from a field.
fn u32_member(value: &Json, key: &str) -> (n: Option<u32>)
    ensures
        n == u32_from(member(*value, key@)),
{
    match find_member(value, key) {
        Some(Json::Unsigned(n)) => {
            if *n <= u32::MAX as u64 {
                Some(*n as u32)
            } else {
                None
            }
        },
        _ => None,
    }
}

/// A path held in a field.
fn path_member(value: &Json, key: &str) -> (path: Option<FsPath>)
    ensures
        match path {
            Some(p) => path_from(member(*value, key@)) == Some(p@),
            None => path_from(member(*value, key@)) is None,
        },
{
    match find_member(value, key) {
        Some(Json::Text(s)) => Some(FsPath::new(s.as_str())),
        _ => None,
    }
}

/// Takes the list held in the field `key` out of an object.
fn take_list(value: Json, key: &str) -> (list: Option<Vec<Json>>)
    ensures
        match list {
            Some(items) => list_from(member(value, key@)) == Some(items@),
            None => list_from(member(value, key@)) is None,
        },
{
    match value {
        Json::Object(fields) => {
            let ghost all = fields@;
            let mut fields = fields;
            match position_of(&fields, key) {
                Some(i) => {
                    let (_, found) = fields.remove(i);
                    match found {
                        Json::List(items) => Some(items),
                        _ => None,
                    }
                },
                None => None,
            }
        },
        _ => None,
    }
}

/// Takes the list held in the field `key` out of an object, an absent field
/// counting as an empty list.
fn take_list_or_empty(value: Json, key: &str) -> (list: Option<Vec<Json>>)
    ensures
        match list {
            Some(items) => list_or_empty(member(value, key@)) == Some(items@),
            None => list_or_empty(member(value, key@)) is None,
        },
{
    match value {
        Json::Object(fields) => {
            let mut fields = fields;
            match position_of(&fields, key) {
                Some(i) => {
                    let (_, found) = fields.remove(i);
                    match found {
                        Json::List(items) => Some(items),
                        _ => None,
                    }
                },
                None => Some(Vec::new()),
            }
        },
        _ => Some(Vec::new()),
    }
}

/// Where the first field named `key` is.
fn position_of(fields: &Vec<(String, Json)>, key: &str) -> (at: Option<usize>)
    ensures
        match at {
            Some(i) => i < fields@.len() && field(fields@, key@) == Some(fields@[i as int].1),
            None => field(fields@, key@) is None,
        },
{
    let wanted = text::owned(key);
    let mut i: usize = 0;
    assert(fields@.skip(0) =~= fields@);
    while i < fields.len()
        invariant
            i <= fields@.len(),
            wanted@ == key@,
            field(fields@, key@) == field(fields@.skip(i as int), key@),
        decreases fields.len() - i,
    {
        proof {
            assert(fields@.skip(i as int)[0] == fields@[i as int]);
            assert(fields@.skip(i as int).drop_first() =~= fields@.skip(i + 1));
        }
        if same_text(&fields[i].0, &wanted) {
            return Some(i);
        }
        i = i + 1;
    }
    None
}

/// One track of a current file.
fn parse_track(value: Json) -> (track: Option<(u32, FsPath, Vec<Json>)>)
    ensures
        match track {
            Some(t) => stored_track(value) == Some((t.0, t.1@, t.2@)),
            None => stored_track(value) is None,
        },
{
    match value {
        Json::Object(_) => {},
        _ => return None,
    }
    let id = match u32_member(&value, "id") {
        Some(id) => id,
        None => return None,
    };
    let path = match path_member(&value, "path") {
        Some(path) => path,
        None => return None,
    };
    match take_list(value, "events") {
        Some(events) => Some((id, path, events)),
        None => None,
    }
}

/// The tracks of a current file, if every one is one.
#[verifier::loop_isolation(false)]
fn parse_tracks(items: Vec<Json>) -> (tracks: Option<Vec<(u32, FsPath, Vec<Json>)>>)
    ensures
        match tracks {
            Some(t) => stored_tracks(items@, items@.len() as int) == Some(track_values(t@)),
            None => stored_tracks(items@, items@.len() as int) is None,
        },
{
    let ghost all = items@;
    let mut rest = items;
    let total = rest.len();
    let mut tracks: Vec<(u32, FsPath, Vec<Json>)> = Vec::new();
    let mut k: usize = 0;
    while rest.len() > 0
        invariant
            all.len() == total,
            k + rest@.len() == all.len(),
            rest@ == all.skip(k as int),
            stored_tracks(all, k as int) == Some(track_values(tracks@)),
        decreases rest@.len(),
    {
        let ghost old_rest = rest@;
        let value = rest.remove(0);
        proof {
            assert(value == all[k as int]);
            assert(rest@ =~= all.skip(k + 1));
        }
        match parse_track(value) {
            Some(track) => {
                let ghost before = tracks@;
                let ghost t = track;
                tracks.push(track);
                assert(track_values(tracks@) =~= track_values(before).push((t.0, t.1@, t.2@)));
            },
            None => {
                proof {
                    assert(stored_tracks(all, k as int + 1) is None);
                    lemma_stored_tracks_fail(all, k as int + 1, all.len() as int);
                }
                return None;
            },
        }
        k = k + 1;
    }
    Some(tracks)
}

/// Once a track fails to parse, every longer prefix fails too.
proof fn lemma_stored_tracks_fail(items: Seq<Json>, n: int, m: int)
    requires
        0 < n <= m,
        stored_tracks(items, n) is None,
    ensures
        stored_tracks(items, m) is None,
    decreases m - n,
{
    if n < m {
        lemma_stored_tracks_fail(items, n + 1, m);
    }
}

/// The parsed tracks, as values.
pub open spec fn track_values(tracks: Seq<(u32, FsPath, Vec<Json>)>) -> Seq<(u32, (bool, Seq<Seq<char>>), Seq<Json>)> {
    tracks.map_values(|x: (u32, FsPath, Vec<Json>)| (x.0, x.1@, x.2@))
}

/// The events kept unparsed for the track numbered `n`, as a map gives them.
pub open spec fn map_entry(m: Map<u32, Seq<Json>>, n: u32) -> Option<Seq<Json>> {
    if m.contains_key(n) {
        Some(m[n])
    } else {
        None
    }
}

/// Whether `collection` is what a current file with this root, next
/// identifier and tracks describes.
pub open spec fn describes(
    collection: Collection,
    root: (bool, Seq<Seq<char>>),
    next: u32,
    tracks: Seq<(u32, (bool, Seq<Seq<char>>), Seq<Json>)>,
) -> bool {
    &&& collection.well_formed()
    &&& collection.catalog_spec().root_spec() == root
    &&& collection.catalog_spec().next_spec() == next
    &&& forall|p: (bool, Seq<Seq<char>>)| #[trigger] collection.catalog_spec().identifier_spec(p)
        == last_given(identified(tracks), p, tracks.len() as int)
    &&& collection.history_spec().events() == history_of(tracks)
    &&& forall|n: u32| #[trigger] kept_for(collection.kept_spec(), numbered(n)) == map_entry(kept_of(tracks), n)
}

/// The collection a current file describes, or a description of why it is
/// unusable: the first track whose identifier is not below the next one, or
/// is shared with an earlier track.
fn restored(root: FsPath, next: u32, tracks: Vec<(u32, FsPath, Vec<Json>)>) -> (restored: Result<Collection, String>)
    ensures
        match restored {
            Ok(c) => {
                &&& forall|k: int| 0 <= k < tracks@.len() ==> !#[trigger] unrestorable(identified(track_values(tracks@)), next, k)
                &&& describes(c, root@, next, track_values(tracks@))
            },
            Err(message) => exists|k: int|
                first_unrestorable(identified(track_values(tracks@)), next, k) && message@ == restore_problem(
                    identified(track_values(tracks@)),
                    next,
                    k,
                ),
        },
{
    let ghost t = track_values(tracks@);
    let mut pairs: Vec<(FsPath, TrackId)> = Vec::new();
    let mut i: usize = 0;
    while i < tracks.len()
        invariant
            t == track_values(tracks@),
            i <= tracks@.len(),
            given(pairs@) == identified(t).take(i as int),
        decreases tracks.len() - i,
    {
        let ghost before = pairs@;
        let copy = tracks[i].1.duplicate();
        let id = TrackId::new(tracks[i].0);
        proof {
            assert(numbered(tracks@[i as int].0)@ == tracks@[i as int].0);
            assert(id == numbered(tracks@[i as int].0));
            assert(t[i as int] == (tracks@[i as int].0, tracks@[i as int].1@, tracks@[i as int].2@));
        }
        let entry = (copy, id);
        let ghost e = entry;
        pairs.push(entry);
        proof {
            assert(pairs@ == before.push(e));
            assert(given(pairs@) =~= given(before).push((e.0@, e.1)));
        }
        assert(given(pairs@) =~= identified(t).take(i + 1));
        i = i + 1;
    }
    assert(identified(t).take(i as int) =~= identified(t));
    let ghost root_view = root@;
    let catalog = match Catalog::restore(root, next, pairs) {
        Ok(catalog) => catalog,
        Err(message) => return Err(message),
    };
    let mut collection = Collection { catalog, history: History::new(), kept: Vec::new() };
    proof {
        assert(t.take(0) =~= Seq::<(u32, (bool, Seq<Seq<char>>), Seq<Json>)>::empty());
        assert(collection.history_spec().events() =~= history_of(t.take(0)));
    }
    let mut rest = tracks;
    let total = rest.len();
    let mut k: usize = 0;
    while rest.len() > 0
        invariant
            t.len() == total,
            k + rest@.len() == t.len(),
            track_values(rest@) == t.skip(k as int),
            collection.well_formed(),
            collection.catalog_spec().root_spec() == root_view,
            collection.catalog_spec().next_spec() == next,
            forall|p: (bool, Seq<Seq<char>>)| #[trigger] collection.catalog_spec().identifier_spec(p)
                == last_given(identified(t), p, t.len() as int),
            collection.history_spec().events() == history_of(t.take(k as int)),
            forall|n: u32| #[trigger] kept_for(collection.kept_spec(), numbered(n)) == map_entry(kept_of(t.take(k as int)), n),
        decreases rest@.len(),
    {
        let ghost old_rest = rest@;
        let (number, _, events) = rest.remove(0);
        proof {
            assert(track_values(old_rest)[0] == t[k as int]);
            assert(t.skip(k as int)[0] == t[k as int]);
            assert(rest@ =~= old_rest.subrange(1, old_rest.len() as int));
            assert forall|j: int| 0 <= j < track_values(rest@).len() implies track_values(rest@)[j] == t.skip(k + 1)[j] by {
                assert(track_values(rest@)[j] == track_values(old_rest)[j + 1]);
            }
            assert(track_values(rest@) =~= t.skip(k + 1));
            assert(number == t[k as int].0);
            assert(events@ == t[k as int].2);
            assert(t.take(k + 1).drop_last() =~= t.take(k as int));
            assert(t.take(k + 1).last() == t[k as int]);
        }
        let (known, unknown) = split(events);
        let identifier = TrackId::new(number);
        let ghost unknown_view = unknown@;
        let ghost kept_before = collection.kept_spec();
        collection.history.store(identifier, known);
        if unknown.len() > 0 {
            collection.keep(identifier, unknown);
        }
        proof {
            assert(numbered(number)@ == number);
            assert(identifier == numbered(number));
            assert forall|n: u32| #[trigger] kept_for(collection.kept_spec(), numbered(n)) == map_entry(kept_of(t.take(k + 1)), n) by {
                if n != number {
                    assert(numbered(n)@ != identifier@);
                    assert(kept_for(kept_before, numbered(n)) == map_entry(kept_of(t.take(k as int)), n));
                }
            }
        }
        k = k + 1;
    }
    proof {
        assert(t.take(k as int) =~= t);
    }
    Ok(collection)
}

/// A value as the directory a first-version file remembered: absent or
/// null for none.
pub open spec fn directory_from(value: Option<Json>) -> Option<Option<(bool, Seq<Seq<char>>)>> {
    match value {
        None => Some(None),
        Some(Json::Null) => Some(None),
        Some(Json::Text(s)) => Some(Some(parsed(s@))),
        _ => None,
    }
}

/// One track of a first-version file: its absolute path and its events.
pub open spec fn old_track(value: Json) -> Option<((bool, Seq<Seq<char>>), Seq<Json>)> {
    match (value, path_from(member(value, "path"@)), list_from(member(value, "events"@))) {
        (Json::Object(_), Some(path), Some(events)) => Some((path, events)),
        _ => None,
    }
}

/// The tracks of a first-version file among the first `n` of `items`.
pub open spec fn old_tracks(items: Seq<Json>, n: int) -> Option<Seq<((bool, Seq<Seq<char>>), Seq<Json>)>>
    decreases n,
{
    if n <= 0 {
        Some(Seq::empty())
    } else {
        match (old_tracks(items, n - 1), old_track(items[n - 1])) {
            (Some(before), Some(track)) => Some(before.push(track)),
            _ => None,
        }
    }
}

/// What a first-version file holds: the directory it remembered, if any,
/// and its tracks.
pub open spec fn first_file(value: Json) -> Option<(Option<(bool, Seq<Seq<char>>)>, Seq<((bool, Seq<Seq<char>>), Seq<Json>)>)> {
    match (value, directory_from(member(value, "default_directory"@)), list_or_empty(member(value, "tracks"@))) {
        (Json::Object(_), Some(directory), Some(items)) => match old_tracks(items, items.len() as int) {
            Some(tracks) => Some((directory, tracks)),
            None => None,
        },
        _ => None,
    }
}

/// The directory a path is in.
pub open spec fn parent_of(path: (bool, Seq<Seq<char>>)) -> (bool, Seq<Seq<char>>) {
    (path.0, path.1.drop_last())
}

/// The directories of the first `n` paths, reduced to what they share.
pub open spec fn shared_of(paths: Seq<(bool, Seq<Seq<char>>)>, n: int) -> (bool, Seq<Seq<char>>)
    decreases n,
{
    if n <= 1 {
        parent_of(paths[0])
    } else {
        shared_prefix(shared_of(paths, n - 1), parent_of(paths[n - 1]))
    }
}

/// The deepest directory containing every one of `paths`, which are files:
/// none when there are no paths, when one of them has no directory, or when
/// what they share is empty.
pub open spec fn deepest_directory(paths: Seq<(bool, Seq<Seq<char>>)>) -> Option<(bool, Seq<Seq<char>>)> {
    if paths.len() == 0 || exists|i: int| 0 <= i < paths.len() && (#[trigger] paths[i]).1.len() == 0 {
        None
    } else {
        let shared = shared_of(paths, paths.len() as int);
        if !shared.0 && shared.1.len() == 0 {
            None
        } else {
            Some(shared)
        }
    }
}

/// The deepest directory containing every one of `paths`.
fn deepest_shared_directory(paths: &Vec<FsPath>) -> (directory: Option<FsPath>)
    ensures
        match directory {
            Some(d) => deepest_directory(path_views(paths@)) == Some(d@),
            None => deepest_directory(path_views(paths@)) is None,
        },
{
    let ghost all = path_views(paths@);
    let mut shared: Option<FsPath> = None;
    let mut i: usize = 0;
    while i < paths.len()
        invariant
            all == path_views(paths@),
            i <= paths@.len(),
            forall|k: int| 0 <= k < i ==> (#[trigger] all[k]).1.len() > 0,
            i == 0 <==> shared is None,
            shared matches Some(s) ==> s@ == shared_of(all, i as int),
        decreases paths.len() - i,
    {
        let directory = match paths[i].parent() {
            Some(directory) => directory,
            None => {
                proof {
                    assert(all[i as int].1.len() == 0);
                }
                return None;
            },
        };
        shared = match shared {
            None => Some(directory),
            Some(so_far) => Some(so_far.shared_with(&directory)),
        };
        i = i + 1;
    }
    match shared {
        None => None,
        Some(s) => {
            if s.is_empty() {
                None
            } else {
                Some(s)
            }
        },
    }
}

/// The views of first-version tracks.
pub open spec fn old_values(tracks: Seq<(FsPath, Vec<Json>)>) -> Seq<((bool, Seq<Seq<char>>), Seq<Json>)> {
    tracks.map_values(|t: (FsPath, Vec<Json>)| (t.0@, t.1@))
}

/// Whether the tracks come in path order.
pub open spec fn tracks_in_order(tracks: Seq<((bool, Seq<Seq<char>>), Seq<Json>)>) -> bool {
    forall|i: int, j: int| 0 <= i < j < tracks.len() ==> path_order(#[trigger] tracks[i].0, #[trigger] tracks[j].0) <= 0
}

/// `track` placed among `sorted`: after every track whose path does not
/// come after its own, so that tracks of one path keep their order.
pub open spec fn insert_by_path(
    sorted: Seq<((bool, Seq<Seq<char>>), Seq<Json>)>,
    track: ((bool, Seq<Seq<char>>), Seq<Json>),
) -> Seq<((bool, Seq<Seq<char>>), Seq<Json>)>
    decreases sorted.len(),
{
    if sorted.len() == 0 {
        seq![track]
    } else if path_order(sorted[0].0, track.0) <= 0 {
        seq![sorted[0]] + insert_by_path(sorted.drop_first(), track)
    } else {
        seq![track] + sorted
    }
}

/// First-version tracks sorted by path, those of one path in the order they
/// were listed.
pub open spec fn by_path(tracks: Seq<((bool, Seq<Seq<char>>), Seq<Json>)>) -> Seq<((bool, Seq<Seq<char>>), Seq<Json>)>
    decreases tracks.len(),
{
    if tracks.len() == 0 {
        Seq::empty()
    } else {
        insert_by_path(by_path(tracks.drop_last()), tracks.last())
    }
}

/// Placing a track at the first position whose track comes after it is
/// placing it by path.
proof fn lemma_insert_by_path_at(
    sorted: Seq<((bool, Seq<Seq<char>>), Seq<Json>)>,
    track: ((bool, Seq<Seq<char>>), Seq<Json>),
    k: int,
)
    requires
        0 <= k <= sorted.len(),
        forall|j: int| 0 <= j < k ==> path_order((#[trigger] sorted[j]).0, track.0) <= 0,
        k == sorted.len() || path_order(sorted[k].0, track.0) > 0,
    ensures
        insert_by_path(sorted, track) == sorted.insert(k, track),
    decreases sorted.len(),
{
    if sorted.len() == 0 {
        assert(sorted.insert(k, track) =~= seq![track]);
    } else if k == 0 {
        assert(sorted.insert(0, track) =~= seq![track] + sorted);
    } else {
        let rest = sorted.drop_first();
        assert forall|j: int| 0 <= j < k - 1 implies path_order((#[trigger] rest[j]).0, track.0) <= 0 by {
            assert(rest[j] == sorted[j + 1]);
        }
        lemma_insert_by_path_at(rest, track, k - 1);
        assert(sorted.insert(k, track) =~= seq![sorted[0]] + rest.insert(k - 1, track));
    }
}

/// First-version tracks in path order.
fn sort_tracks(tracks: Vec<(FsPath, Vec<Json>)>) -> (sorted: Vec<(FsPath, Vec<Json>)>)
    ensures
        old_values(sorted@) == by_path(old_values(tracks@)),
        tracks_in_order(old_values(sorted@)),
        old_values(sorted@).to_multiset() == old_values(tracks@).to_multiset(),
{
    broadcast use vstd::seq_lib::group_to_multiset_ensures;

    let ghost all = old_values(tracks@);
    let mut rest = tracks;
    let mut sorted: Vec<(FsPath, Vec<Json>)> = Vec::new();
    let total = rest.len();
    let mut k: usize = 0;
    while rest.len() > 0
        invariant
            all.len() == total,
            k + rest@.len() == all.len(),
            old_values(rest@) == all.skip(k as int),
            tracks_in_order(old_values(sorted@)),
            old_values(sorted@) == by_path(all.take(k as int)),
            old_values(sorted@).to_multiset() == all.take(k as int).to_multiset(),
        decreases rest@.len(),
    {
        let ghost before = old_values(rest@);
        let ghost old_rest = rest@;
        let next = rest.remove(0);
        proof {
            assert(next == old_rest[0]);
            assert(before[0] == (old_rest[0].0@, old_rest[0].1@));
            assert(all.skip(k as int)[0] == all[k as int]);
            assert(rest@ =~= old_rest.subrange(1, old_rest.len() as int));
            assert forall|i: int| 0 <= i < old_values(rest@).len() implies old_values(rest@)[i] == all.skip(k + 1)[i] by {
                assert(old_values(rest@)[i] == before[i + 1]);
            }
            assert(old_values(rest@) =~= all.skip(k + 1));
        }
        let mut at: usize = 0;
        while at < sorted.len() && sorted[at].0.order_with(&next.0) <= 0
            invariant
                at <= sorted@.len(),
                forall|i: int| 0 <= i < at ==> path_order((#[trigger] sorted@[i]).0@, next.0@) <= 0,
            decreases sorted@.len() - at,
        {
            at = at + 1;
        }
        let ghost s0 = old_values(sorted@);
        let ghost x = (next.0@, next.1@);
        proof {
            assert forall|j: int| 0 <= j < at implies path_order((#[trigger] s0[j]).0, x.0) <= 0 by {
                assert(s0[j].0 == sorted@[j].0@);
            }
            if at < s0.len() {
                assert(s0[at as int].0 == sorted@[at as int].0@);
            }
            lemma_insert_by_path_at(s0, x, at as int);
            assert(all.take(k + 1).drop_last() =~= all.take(k as int));
            assert(all.take(k + 1).last() == x);
        }
        sorted.insert(at, next);
        proof {
            let s1 = old_values(sorted@);
            assert(s1 =~= s0.insert(at as int, x));
            assert forall|i: int, j: int| 0 <= i < j < s1.len() implies path_order(#[trigger] s1[i].0, #[trigger] s1[j].0) <= 0 by {
                if i < at && j == at {
                    assert(s1[i] == s0[i]);
                } else if i == at && j > at {
                    assert(s1[j] == s0[j - 1]);
                    lemma_path_order(s0[at as int].0, x.0, x.0);
                    if j - 1 > at {
                        lemma_path_order(x.0, s0[at as int].0, s0[j - 1].0);
                        lemma_path_order(s0[at as int].0, s0[j - 1].0, x.0);
                        lemma_path_order(x.0, s0[j - 1].0, s0[at as int].0);
                    }
                } else if i < at && j > at {
                    assert(s1[i] == s0[i]);
                    assert(s1[j] == s0[j - 1]);
                } else if j < at {
                    assert(s1[i] == s0[i]);
                    assert(s1[j] == s0[j]);
                } else {
                    assert(s1[i] == s0[i - 1]);
                    assert(s1[j] == s0[j - 1]);
                }
            }
            assert(all[k as int] == x);
            assert(all.take(k + 1) =~= all.take(k as int).push(all[k as int]));
            vstd::seq_lib::to_multiset_insert(s0, at as int, x);
            vstd::seq_lib::to_multiset_build(all.take(k as int), all[k as int]);
        }
        k = k + 1;
    }
    assert(all.take(k as int) =~= all);
    sorted
}

/// The tracks of `tracks` below `root`, each with its path made relative to
/// the root, in order.
pub open spec fn rebased(tracks: Seq<((bool, Seq<Seq<char>>), Seq<Json>)>, root: (bool, Seq<Seq<char>>)) -> Seq<((bool, Seq<Seq<char>>), Seq<Json>)>
    decreases tracks.len(),
{
    if tracks.len() == 0 {
        Seq::empty()
    } else {
        let before = rebased(tracks.drop_last(), root);
        if starts_with_spec(tracks.last().0, root) {
            before.push((relative_to(tracks.last().0, root), tracks.last().1))
        } else {
            before
        }
    }
}

/// How many distinct paths the tracks have.
pub open spec fn distinct_count(tracks: Seq<((bool, Seq<Seq<char>>), Seq<Json>)>) -> nat
    decreases tracks.len(),
{
    if tracks.len() == 0 {
        0
    } else if numbering(tracks.drop_last()).contains_key(tracks.last().0) {
        distinct_count(tracks.drop_last())
    } else {
        distinct_count(tracks.drop_last()) + 1
    }
}

/// The number each path is given: paths are numbered from zero in the order
/// they first appear.
pub open spec fn numbering(tracks: Seq<((bool, Seq<Seq<char>>), Seq<Json>)>) -> Map<(bool, Seq<Seq<char>>), nat>
    decreases tracks.len(),
{
    if tracks.len() == 0 {
        Map::empty()
    } else {
        let before = numbering(tracks.drop_last());
        if before.contains_key(tracks.last().0) {
            before
        } else {
            before.insert(tracks.last().0, distinct_count(tracks.drop_last()))
        }
    }
}

/// The history carried over: each number holds the events understood of
/// the last track with its path.
pub open spec fn carried_history(tracks: Seq<((bool, Seq<Seq<char>>), Seq<Json>)>) -> Map<u32, Seq<TimeTaggedTrackEvent>>
    decreases tracks.len(),
{
    if tracks.len() == 0 {
        Map::empty()
    } else {
        carried_history(tracks.drop_last()).insert(
            numbering(tracks)[tracks.last().0] as u32,
            known_of(tracks.last().1),
        )
    }
}

/// The events carried over unparsed: a number holds those of the last track
/// with its path that had any.
pub open spec fn carried_kept(tracks: Seq<((bool, Seq<Seq<char>>), Seq<Json>)>) -> Map<u32, Seq<Json>>
    decreases tracks.len(),
{
    if tracks.len() == 0 {
        Map::empty()
    } else {
        let before = carried_kept(tracks.drop_last());
        let unknown = unknown_of(tracks.last().1);
        if unknown.len() > 0 {
            before.insert(numbering(tracks)[tracks.last().0] as u32, unknown)
        } else {
            before
        }
    }
}

/// Whether `collection` is what carrying over `tracks`, in this order, onto
/// `root` gives: a catalog numbering their paths relative to the root in the
/// order they first appear, and the events of each.
pub open spec fn carried_onto(collection: Collection, root: (bool, Seq<Seq<char>>), tracks: Seq<((bool, Seq<Seq<char>>), Seq<Json>)>) -> bool {
    let below = rebased(tracks, root);
    &&& collection.well_formed()
    &&& collection.catalog_spec().root_spec() == root
    &&& collection.catalog_spec().next_spec() == distinct_count(below)
    &&& forall|p: (bool, Seq<Seq<char>>)| #[trigger] collection.catalog_spec().identifier_spec(p) == if numbering(below).contains_key(p) {
        Some(numbered(numbering(below)[p] as u32))
    } else {
        None
    }
    &&& collection.history_spec().events() == carried_history(below)
    &&& forall|n: u32| #[trigger] kept_for(collection.kept_spec(), numbered(n)) == map_entry(carried_kept(below), n)
}

/// The paths of first-version tracks.
pub open spec fn old_paths(tracks: Seq<((bool, Seq<Seq<char>>), Seq<Json>)>) -> Seq<(bool, Seq<Seq<char>>)> {
    tracks.map_values(|t: ((bool, Seq<Seq<char>>), Seq<Json>)| t.0)
}

/// The root a first-version file is carried over onto: the directory it
/// remembered, or else the deepest one containing every track.
pub open spec fn carried_root(
    directory: Option<(bool, Seq<Seq<char>>)>,
    tracks: Seq<((bool, Seq<Seq<char>>), Seq<Json>)>,
) -> Option<(bool, Seq<Seq<char>>)> {
    match directory {
        Some(d) => Some(d),
        None => deepest_directory(old_paths(tracks)),
    }
}

/// Numbering a path seen before changes nothing, and a new one takes the
/// next number.
proof fn lemma_numbering_step(tracks: Seq<((bool, Seq<Seq<char>>), Seq<Json>)>)
    requires
        tracks.len() > 0,
    ensures
        numbering(tracks).contains_key(tracks.last().0),
        forall|p: (bool, Seq<Seq<char>>)| p != tracks.last().0 ==> #[trigger] numbering(tracks).contains_key(p)
            == numbering(tracks.drop_last()).contains_key(p),
        forall|p: (bool, Seq<Seq<char>>)| p != tracks.last().0 && numbering(tracks.drop_last()).contains_key(p)
            ==> #[trigger] numbering(tracks)[p] == numbering(tracks.drop_last())[p],
        numbering(tracks.drop_last()).contains_key(tracks.last().0) ==> numbering(tracks)[tracks.last().0]
            == numbering(tracks.drop_last())[tracks.last().0],
{
}

/// The collection a first-version file's tracks describe, carried over
/// onto the directory it remembered or, if none, the deepest directory
/// containing every track; `None` when no such directory can be found.
/// Tracks are taken in path order, and those outside the root are dropped.
fn carried_over(directory: Option<FsPath>, tracks: Vec<(FsPath, Vec<Json>)>) -> (carried: Option<Collection>)
    requires
        tracks@.len() < u32::MAX,
    ensures
        ({
            let sorted = by_path(old_values(tracks@));
            match (carried_root(
                match directory {
                    Some(d) => Some(d@),
                    None => None,
                },
                sorted,
            ), carried) {
                (None, None) => true,
                (Some(root), Some(c)) => carried_onto(c, root, sorted),
                _ => false,
            }
        }),
{
    let ghost given = old_values(tracks@);
    let sorted = sort_tracks(tracks);
    let ghost s = old_values(sorted@);
    proof {
        vstd::seq_lib::to_multiset_len(s);
        vstd::seq_lib::to_multiset_len(given);
    }
    let root = match directory {
        Some(d) => d,
        None => {
            let mut paths: Vec<FsPath> = Vec::new();
            let mut i: usize = 0;
            while i < sorted.len()
                invariant
                    i <= sorted@.len(),
                    s == old_values(sorted@),
                    path_views(paths@) == old_paths(s).take(i as int),
                decreases sorted.len() - i,
            {
                let copy = sorted[i].0.duplicate();
                let ghost before = paths@;
                paths.push(copy);
                proof {
                    assert(path_views(paths@) =~= path_views(before).push(copy@));
                    assert(old_paths(s).take(i + 1) =~= old_paths(s).take(i as int).push(s[i as int].0));
                }
                i = i + 1;
            }
            assert(old_paths(s).take(i as int) =~= old_paths(s));
            match deepest_shared_directory(&paths) {
                Some(d) => d,
                None => return None,
            }
        },
    };
    let ghost r = root@;
    let mut collection = Collection::new(root.duplicate());
    proof {
        assert(s.take(0) =~= Seq::<((bool, Seq<Seq<char>>), Seq<Json>)>::empty());
        assert(collection.history_spec().events() =~= carried_history(rebased(s.take(0), r)));
    }
    let mut rest = sorted;
    let total = rest.len();
    let mut k: usize = 0;
    while rest.len() > 0
        invariant
            s.len() == total,
            total < u32::MAX,
            k + rest@.len() == s.len(),
            old_values(rest@) == s.skip(k as int),
            root@ == r,
            collection.well_formed(),
            collection.catalog_spec().root_spec() == r,
            collection.catalog_spec().next_spec() == distinct_count(rebased(s.take(k as int), r)),
            distinct_count(rebased(s.take(k as int), r)) <= k,
            forall|p: (bool, Seq<Seq<char>>)| #[trigger] collection.catalog_spec().identifier_spec(p) == if numbering(
                rebased(s.take(k as int), r),
            ).contains_key(p) {
                Some(numbered(numbering(rebased(s.take(k as int), r))[p] as u32))
            } else {
                None
            },
            collection.history_spec().events() == carried_history(rebased(s.take(k as int), r)),
            forall|n: u32| #[trigger] kept_for(collection.kept_spec(), numbered(n)) == map_entry(
                carried_kept(rebased(s.take(k as int), r)),
                n,
            ),
        decreases rest@.len(),
    {
        let ghost old_rest = rest@;
        let (path, events) = rest.remove(0);
        let ghost prefix = s.take(k as int);
        let ghost next_prefix = s.take(k + 1);
        proof {
            assert(old_values(old_rest)[0] == s[k as int]);
            assert(s.skip(k as int)[0] == s[k as int]);
            assert(rest@ =~= old_rest.subrange(1, old_rest.len() as int));
            assert forall|j: int| 0 <= j < old_values(rest@).len() implies old_values(rest@)[j] == s.skip(k + 1)[j] by {
                assert(old_values(rest@)[j] == old_values(old_rest)[j + 1]);
            }
            assert(old_values(rest@) =~= s.skip(k + 1));
            assert(next_prefix.drop_last() =~= prefix);
            assert(next_prefix.last() == s[k as int]);
            assert(path@ == s[k as int].0);
            assert(events@ == s[k as int].1);
        }
        match path.strip_prefix(&root) {
            None => {
                proof {
                    assert(rebased(next_prefix, r) == rebased(prefix, r));
                }
            },
            Some(relative) => {
                let ghost below = rebased(prefix, r);
                let ghost after = rebased(next_prefix, r);
                proof {
                    assert(after == below.push((relative@, events@)));
                    assert(after.drop_last() =~= below);
                    lemma_numbering_step(after);
                }
                let ghost before = collection.catalog_spec();
                let identifier = collection.catalog.identify(&relative);
                let (known, unknown) = split(events);
                let ghost kept_before = collection.kept_spec();
                collection.history.store(identifier, known);
                if unknown.len() > 0 {
                    collection.keep(identifier, unknown);
                }
                proof {
                    let number = numbering(after)[relative@];
                    assert(identifier == numbered(number as u32)) by {
                        if numbering(below).contains_key(relative@) {
                            assert(before.identifier_spec(relative@) == Some(numbered(numbering(below)[relative@] as u32)));
                        } else {
                            assert(numbered(distinct_count(below) as u32)@ == distinct_count(below) as u32);
                        }
                    }
                    assert forall|p: (bool, Seq<Seq<char>>)| #[trigger] collection.catalog_spec().identifier_spec(p) == if numbering(after).contains_key(p) {
                        Some(numbered(numbering(after)[p] as u32))
                    } else {
                        None
                    } by {
                        if p != relative@ {
                            assert(before.identifier_spec(p) == if numbering(below).contains_key(p) {
                                Some(numbered(numbering(below)[p] as u32))
                            } else {
                                None
                            });
                        }
                    }
                    assert(collection.history_spec().events() == carried_history(after));
                    assert forall|n: u32| #[trigger] kept_for(collection.kept_spec(), numbered(n)) == map_entry(carried_kept(after), n) by {
                        if n != number as u32 {
                            assert(numbered(n)@ != identifier@);
                            assert(kept_for(kept_before, numbered(n)) == map_entry(carried_kept(below), n));
                        }
                    }
                }
            },
        }
        k = k + 1;
    }
    proof {
        assert(s.take(k as int) =~= s);
    }
    Some(collection)
}

/// One track of a first-version file.
fn parse_old_track(value: Json) -> (track: Option<(FsPath, Vec<Json>)>)
    ensures
        match track {
            Some(t) => old_track(value) == Some((t.0@, t.1@)),
            None => old_track(value) is None,
        },
{
    match value {
        Json::Object(_) => {},
        _ => return None,
    }
    let path = match path_member(&value, "path") {
        Some(path) => path,
        None => return None,
    };
    match take_list(value, "events") {
        Some(events) => Some((path, events)),
        None => None,
    }
}

/// The tracks of a first-version file, if every one is one.
#[verifier::loop_isolation(false)]
fn parse_old_tracks(items: Vec<Json>) -> (tracks: Option<Vec<(FsPath, Vec<Json>)>>)
    ensures
        match tracks {
            Some(t) => old_tracks(items@, items@.len() as int) == Some(old_values(t@)),
            None => old_tracks(items@, items@.len() as int) is None,
        },
{
    let ghost all = items@;
    let mut rest = items;
    let total = rest.len();
    let mut tracks: Vec<(FsPath, Vec<Json>)> = Vec::new();
    let mut k: usize = 0;
    while rest.len() > 0
        invariant
            all.len() == total,
            k + rest@.len() == all.len(),
            rest@ == all.skip(k as int),
            old_tracks(all, k as int) == Some(old_values(tracks@)),
        decreases rest@.len(),
    {
        let value = rest.remove(0);
        proof {
            assert(value == all[k as int]);
            assert(rest@ =~= all.skip(k + 1));
        }
        match parse_old_track(value) {
            Some(track) => {
                let ghost before = tracks@;
                let ghost t = track;
                tracks.push(track);
                assert(old_values(tracks@) =~= old_values(before).push((t.0@, t.1@)));
            },
            None => {
                proof {
                    assert(old_tracks(all, k as int + 1) is None);
                    lemma_old_tracks_fail(all, k as int + 1, all.len() as int);
                }
                return None;
            },
        }
        k = k + 1;
    }
    Some(tracks)
}

/// Once a track fails to parse, every longer prefix fails too.
proof fn lemma_old_tracks_fail(items: Seq<Json>, n: int, m: int)
    requires
        0 < n <= m,
        old_tracks(items, n) is None,
    ensures
        old_tracks(items, m) is None,
    decreases m - n,
{
    if n < m {
        lemma_old_tracks_fail(items, n + 1, m);
    }
}

/// Parsed tracks are as many as the items they came from.
proof fn lemma_old_tracks_len(items: Seq<Json>, n: int)
    requires
        0 <= n <= items.len(),
        old_tracks(items, n) is Some,
    ensures
        old_tracks(items, n).unwrap().len() == n,
    decreases n,
{
    if n > 0 {
        lemma_old_tracks_len(items, n - 1);
    }
}

/// How many tracks a file lists, counting nothing when it lists none.
pub open spec fn listed_count(value: Json) -> nat {
    match list_or_empty(member(value, "tracks"@)) {
        Some(items) => items.len(),
        None => 0,
    }
}

/// Whether `loaded` is what loading a file at `file` that holds `value`
/// gives: refused unless it names a version; a first-version file carried
/// over in path order; a current file restored, or refused at the first
/// track that cannot be restored; any other version refused.
pub open spec fn json_outcome(file: (bool, Seq<Seq<char>>), value: Json, loaded: Result<Option<Collection>, Error>) -> bool {
    match version_from(value) {
        None => loaded matches Err(Error::File { path, .. }) && path@ == file,
        Some(version) => if version == 1 {
            match first_file(value) {
                None => loaded matches Err(Error::File { path, .. }) && path@ == file,
                Some((directory, tracks)) => {
                    let sorted = by_path(tracks);
                    match (carried_root(directory, sorted), loaded) {
                        (None, Ok(None)) => true,
                        (Some(root), Ok(Some(c))) => carried_onto(c, root, sorted),
                        _ => false,
                    }
                },
            }
        } else if version == COLLECTION_VERSION {
            current_outcome(file, value, loaded)
        } else {
            loaded matches Err(Error::UnsupportedVersion { path, version: v }) && path@ == file
                && v == version
        },
    }
}

/// Whether `loaded` is what reading a current file holding `value` gives.
pub open spec fn current_outcome(file: (bool, Seq<Seq<char>>), value: Json, loaded: Result<Option<Collection>, Error>) -> bool {
    match current_file(value) {
        None => loaded matches Err(Error::File { path, .. }) && path@ == file,
        Some((root, next, tracks)) => match loaded {
            Ok(Some(c)) => {
                &&& forall|k: int| 0 <= k < tracks.len() ==> !#[trigger] unrestorable(identified(tracks), next, k)
                &&& describes(c, root, next, tracks)
            },
            Err(Error::File { path, message }) => path@ == file && exists|k: int|
                #[trigger] first_unrestorable(identified(tracks), next, k) && message@ == restore_problem(
                    identified(tracks),
                    next,
                    k,
                ),
            _ => false,
        },
    }
}

/// What a file listing more tracks than there are identifiers is refused
/// with.
pub const TOO_MANY_TRACKS: &'static str = "the file lists more tracks than there are identifiers";

/// Whether a file holding `value` lists more tracks than there are
/// identifiers.
fn lists_too_many(value: &Json) -> (too_many: bool)
    ensures
        too_many == (listed_count(*value) >= u32::MAX),
{
    match find_member(value, "tracks") {
        Some(Json::List(items)) => items.len() >= u32::MAX as usize,
        _ => false,
    }
}

/// The version this build writes collection files as.
pub const COLLECTION_VERSION: u32 = 2;

/// `dirs::data_dir`: the platform's directory for application data, if it
/// reports one, as text. Which directory that is depends on the platform and
/// the environment; nothing is stated of it.
#[verifier::external_body]
fn platform_data_directory() -> Option<String> {
    dirs::data_dir().map(|directory| directory.to_string_lossy().into_owned())
}

/// A collection stored in a single file.
#[derive(Debug, Clone, PartialEq, Eq)]
pub struct CollectionFile {
    path: FsPath,
}

impl CollectionFile {
    /// The file's path.
    pub closed spec fn path_spec(&self) -> (bool, Seq<Seq<char>>) {
        self.path@
    }

    /// The collection file inside the platform data directory: `state.json`
    /// in a directory `jive` of its own there. Refused when the platform
    /// reports no data directory.
    pub fn in_data_directory() -> (file: Result<CollectionFile, Error>)
        ensures
            match file {
                Ok(f) => f.path_spec().1.len() >= 2 && f.path_spec().1[f.path_spec().1.len() - 2] == "jive"@
                    && f.path_spec().1.last() == "state.json"@,
                Err(e) => e is NoDataDirectory,
            },
    {
        match platform_data_directory() {
            None => Err(Error::NoDataDirectory),
            Some(directory) => {
                let base = FsPath::new(directory.as_str());
                let path = base.join("jive").join("state.json");
                Ok(CollectionFile { path })
            },
        }
    }

    /// The collection file at `path`.
    pub fn at(path: FsPath) -> (file: CollectionFile)
        ensures
            file.path_spec() == path@,
    {
        CollectionFile { path }
    }

    /// The path of the file.
    pub fn path(&self) -> (path: &FsPath)
        ensures
            path@ == self.path_spec(),
    {
        &self.path
    }

    /// An error about this file.
    fn failure(&self, message: &str) -> (e: Error)
        ensures
            e matches Error::File { path, message: m } && path@ == self.path_spec() && m@ == message@,
    {
        Error::File { path: self.path.duplicate(), message: text::owned(message) }
    }

    /// What a first-version file describes.
    fn load_first(&self, value: Json) -> (loaded: Result<Option<Collection>, Error>)
        requires
            value is Object,
            listed_count(value) < u32::MAX,
        ensures
            match first_file(value) {
                None => loaded matches Err(Error::File { path, .. }) && path@ == self.path_spec(),
                Some((directory, tracks)) => {
                    let sorted = by_path(tracks);
                    match (carried_root(directory, sorted), loaded) {
                        (None, Ok(None)) => true,
                        (Some(root), Ok(Some(c))) => carried_onto(c, root, sorted),
                        _ => false,
                    }
                },
            },
    {
        let directory = match find_member(&value, "default_directory") {
            None => None,
            Some(Json::Null) => None,
            Some(Json::Text(s)) => Some(FsPath::new(s.as_str())),
            Some(_) => return Err(self.failure("the remembered directory is not a path")),
        };
        let ghost v = value;
        let items = match take_list_or_empty(value, "tracks") {
            Some(items) => items,
            None => return Err(self.failure("the tracks are not a list")),
        };
        let ghost item_values = items@;
        let tracks = match parse_old_tracks(items) {
            Some(tracks) => tracks,
            None => return Err(self.failure("a track is not shaped like one")),
        };
        let ghost directory_view = match &directory {
            Some(d) => Some(d@),
            None => None,
        };
        let ghost track_views = old_values(tracks@);
        proof {
            lemma_old_tracks_len(item_values, item_values.len() as int);
            assert(first_file(v) == Some((directory_view, track_views)));
        }
        let carried = carried_over(directory, tracks);
        Ok(carried)
    }

    /// What a current file describes.
    fn load_current(&self, value: Json) -> (loaded: Result<Option<Collection>, Error>)
        requires
            value is Object,
        ensures
            current_outcome(self.path_spec(), value, loaded),
    {
        let root = match path_member(&value, "root") {
            Some(root) => root,
            None => return Err(self.failure("the file has no root directory")),
        };
        let next = match u32_member(&value, "next_id") {
            Some(next) => next,
            None => return Err(self.failure("the file has no next identifier")),
        };
        let ghost v = value;
        let items = match take_list_or_empty(value, "tracks") {
            Some(items) => items,
            None => return Err(self.failure("the tracks are not a list")),
        };
        let tracks = match parse_tracks(items) {
            Some(tracks) => tracks,
            None => return Err(self.failure("a track is not shaped like one")),
        };
        let ghost root_view = root@;
        let ghost t = track_values(tracks@);
        proof {
            assert(current_file(v) == Some((root_view, next, t)));
        }
        match restored(root, next, tracks) {
            Ok(collection) => {
                assert(describes(collection, root_view, next, t));
                assert(forall|k: int| 0 <= k < t.len() ==> !#[trigger] unrestorable(identified(t), next, k));
                assert(current_outcome(self.path_spec(), v, Ok(Some(collection))));
                Ok(Some(collection))
            },
            Err(message) => {
                assert(exists|k: int| first_unrestorable(identified(t), next, k) && message@ == restore_problem(identified(t), next, k));
                let ghost m = message@;
                let e = Error::File { path: self.path.duplicate(), message };
                proof {
                    let k = choose|k: int| first_unrestorable(identified(t), next, k) && m == restore_problem(identified(t), next, k);
                    assert(first_unrestorable(identified(t), next, k) && m == restore_problem(identified(t), next, k));
                    assert(e matches Error::File { path, message: mm } && path@ == self.path_spec() && mm@ == m);
                }
                let ghost r: Result<Option<Collection>, Error> = Err(e);
                assert(match r {
                    Err(Error::File { path, message }) => path@ == self.path_spec(),
                    _ => false,
                });
                assert(match r {
                    Err(Error::File { path, message }) => exists|k: int| first_unrestorable(identified(t), next, k) && message@ == restore_problem(identified(t), next, k),
                    _ => false,
                });
                assert(match current_file(v) {
                    Some((root, nx, tracks)) => tracks == t && nx == next,
                    None => false,
                });
                assert(match current_file(v) {
                    Some((root, nx, tracks)) => match r {
                        Err(Error::File { path, message }) => path@ == self.path_spec(),
                        _ => false,
                    },
                    None => false,
                });
                assert(current_outcome(self.path_spec(), v, r));
                Err(e)
            },
        }
    }

    /// The collection a file holds, from its text, or `None` when there is
    /// no file yet. The text is parsed as JSON and loaded as `load_parsed`
    /// says; text that is not JSON is reported against this file with the
    /// parser's message, and a file listing more tracks than there are
    /// identifiers is refused.
    pub fn load_text(&self, contents: Option<&str>) -> (loaded: Result<Option<Collection>, Error>)
        ensures
            match contents {
                None => loaded matches Ok(None),
                Some(text) => match parsed_json(text@) {
                    Err(reason) => loaded matches Err(Error::File { path, message }) && path@
                        == self.path_spec() && message@ == reason,
                    Ok(value) => exists|json: Json| #[trigger] json.value() == value && if listed_count(json)
                        < u32::MAX {
                        json_outcome(self.path_spec(), json, loaded)
                    } else {
                        loaded matches Err(Error::File { path, message }) && path@ == self.path_spec()
                            && message@ == TOO_MANY_TRACKS@
                    },
                },
            },
    {
        let text = match contents {
            None => return self.load_parsed(None),
            Some(text) => text,
        };
        let parsed = parse_json(text);
        match parsed {
            Err(reason) => self.load_parsed(Some(Err(reason))),
            Ok(json) => {
                if lists_too_many(&json) {
                    Err(self.failure(TOO_MANY_TRACKS))
                } else {
                    self.load_parsed(Some(Ok(json)))
                }
            },
        }
    }

    /// The collection a file holds, from what reading it gave: nothing when
    /// there is no file, the reason it could not be read or parsed as JSON,
    /// or the JSON it holds.
    ///
    /// A current file is restored; an unusable one is reported against this
    /// file. A first-version file, keyed by absolute path, is carried over:
    /// rebased onto the directory it remembered or, if it remembered none,
    /// onto the deepest directory containing every track; tracks outside that
    /// directory are dropped, and with no directory to rebase onto the file
    /// holds no collection. A file from a later version is refused. Events
    /// this version cannot parse are kept, to be written back unchanged.
    pub fn load_parsed(&self, written: Option<Result<Json, String>>) -> (loaded: Result<Option<Collection>, Error>)
        requires
            match written {
                Some(Ok(value)) => listed_count(value) < u32::MAX,
                _ => true,
            },
        ensures
            match written {
                None => loaded matches Ok(None),
                Some(Err(reason)) => loaded matches Err(Error::File { path, message })
                    && path@ == self.path_spec() && message@ == reason@,
                Some(Ok(value)) => json_outcome(self.path_spec(), value, loaded),
            },
    {
        let value = match written {
            None => return Ok(None),
            Some(Err(reason)) => return Err(Error::File { path: self.path.duplicate(), message: reason }),
            Some(Ok(value)) => value,
        };
        let version = match value {
            Json::Object(_) => match u32_member(&value, "version") {
                Some(version) => version,
                None => return Err(self.failure("the file has no version this build can read")),
            },
            _ => return Err(self.failure("the file does not hold a collection")),
        };
        if version == 1 {
            self.load_first(value)
        } else if version == COLLECTION_VERSION {
            self.load_current(value)
        } else {
            Err(Error::UnsupportedVersion { path: self.path.duplicate(), version: version as u64 })
        }
    }
}

/// The events recorded against a track in a history, or none.
pub open spec fn recorded_for(history: Map<u32, Seq<TimeTaggedTrackEvent>>, id: TrackId) -> Seq<TimeTaggedTrackEvent> {
    if history.contains_key(id@) {
        history[id@]
    } else {
        Seq::empty()
    }
}

/// Whether `events` are a track's stored events: those recorded, encoded,
/// then those kept unparsed, as they were read.
pub open spec fn stored_events(events: Seq<Json>, recorded: Seq<TimeTaggedTrackEvent>, kept: Seq<Json>) -> bool {
    &&& events.len() == recorded.len() + kept.len()
    &&& forall|j: int| 0 <= j < recorded.len() ==> is_tagged_json(#[trigger] events[j], recorded[j])
    &&& forall|j: int| 0 <= j < kept.len() ==> (#[trigger] events[recorded.len() + j]).value() == kept[j].value()
}

/// Whether `value` is what a track is written as.
pub open spec fn written_track(value: Json, id: TrackId, path: (bool, Seq<Seq<char>>), recorded: Seq<TimeTaggedTrackEvent>, kept: Seq<Json>) -> bool {
    match value {
        Json::Object(fields) => {
            &&& fields@.len() == 3
            &&& fields@[0].0@ == "id"@ && fields@[0].1 == Json::Unsigned(id@ as u64)
            &&& fields@[1].0@ == "path"@
            &&& fields@[1].1 matches Json::Text(p) && p@ == path_text(path)
            &&& fields@[2].0@ == "events"@
            &&& fields@[2].1 matches Json::List(events) && stored_events(events@, recorded, kept)
        },
        _ => false,
    }
}

/// Whether `value` is what `collection` is written as: its version, root,
/// next identifier, and every track of its catalog in path order.
pub open spec fn written_collection(value: Json, collection: Collection) -> bool {
    let entries = collection.catalog_spec().entries();
    match value {
        Json::Object(fields) => {
            &&& fields@.len() == 4
            &&& fields@[0].0@ == "version"@ && fields@[0].1 == Json::Unsigned(COLLECTION_VERSION as u64)
            &&& fields@[1].0@ == "root"@
            &&& fields@[1].1 matches Json::Text(r) && r@ == path_text(collection.catalog_spec().root_spec())
            &&& fields@[2].0@ == "next_id"@ && fields@[2].1 == Json::Unsigned(collection.catalog_spec().next_spec() as u64)
            &&& fields@[3].0@ == "tracks"@
            &&& fields@[3].1 matches Json::List(items) && items@.len() == entries.len()
                && forall|i: int| 0 <= i < entries.len() ==> written_track(
                    #[trigger] items@[i],
                    entries[i].1,
                    entries[i].0,
                    recorded_for(collection.history_spec().events(), entries[i].1),
                    match kept_for(collection.kept_spec(), entries[i].1) {
                        Some(k) => k,
                        None => Seq::empty(),
                    },
                )
        },
        _ => false,
    }
}

impl Collection {
    /// The text the collection is saved as: its JSON, as `to_json` writes
    /// it, indented; or why it could not be written.
    pub fn to_text(&self) -> (text: Result<String, String>)
        requires
            self.well_formed(),
        ensures
            exists|written: Json| #[trigger] written_collection(written, *self) && match text {
                Ok(t) => encoded_json(written.value()) == Ok::<Seq<char>, Seq<char>>(t@),
                Err(m) => encoded_json(written.value()) == Err::<Seq<char>, Seq<char>>(m@),
            },
    {
        let written = self.to_json();
        encode_json(&written)
    }

    /// What the collection is written as: the version, the root, the next
    /// identifier, and every track of the catalog in path order, each with
    /// its identifier, its path relative to the root, and its events: those
    /// recorded, then those kept unparsed, unchanged.
    pub fn to_json(&self) -> (written: Json)
        requires
            self.well_formed(),
        ensures
            written_collection(written, *self),
    {
        let tracks = self.catalog.tracks();
        let ghost entries = self.catalog_spec().entries();
        let mut items: Vec<Json> = Vec::new();
        let mut i: usize = 0;
        while i < tracks.len()
            invariant
                self.well_formed(),
                entries == self.catalog_spec().entries(),
                tracks@.len() == entries.len(),
                forall|k: int| 0 <= k < tracks@.len() ==> (#[trigger] tracks@[k]).0 == entries[k].1 && tracks@[k].1@ == entries[k].0,
                i <= tracks@.len(),
                items@.len() == i,
                forall|k: int| 0 <= k < i ==> written_track(
                    #[trigger] items@[k],
                    entries[k].1,
                    entries[k].0,
                    recorded_for(self.history_spec().events(), entries[k].1),
                    match kept_for(self.kept_spec(), entries[k].1) {
                        Some(kept) => kept,
                        None => Seq::empty(),
                    },
                ),
            decreases tracks@.len() - i,
        {
            let identifier = tracks[i].0;
            let mut events: Vec<Json> = Vec::new();
            let ghost recorded = recorded_for(self.history_spec().events(), identifier);
            let ghost kept_values = match kept_for(self.kept_spec(), identifier) {
                Some(kept) => kept,
                None => Seq::empty(),
            };
            match self.history.events_for(identifier) {
                Some(known) => {
                    let mut j: usize = 0;
                    while j < known.len()
                        invariant
                            j <= known@.len(),
                            known@ == recorded,
                            events@.len() == j,
                            forall|m: int| 0 <= m < j ==> is_tagged_json(#[trigger] events@[m], recorded[m]),
                        decreases known@.len() - j,
                    {
                        let event = known.get(j);
                        events.push(encode_tagged(&event));
                        j = j + 1;
                    }
                },
                None => {},
            }
            let known_count = events.len();
            match self.kept_for(identifier) {
                Some(kept) => {
                    let mut j: usize = 0;
                    while j < kept.len()
                        invariant
                            j <= kept@.len(),
                            kept@ == kept_values,
                            known_count == recorded.len(),
                            events@.len() == known_count + j,
                            forall|m: int| 0 <= m < recorded.len() ==> is_tagged_json(#[trigger] events@[m], recorded[m]),
                            forall|m: int| 0 <= m < j ==> (#[trigger] events@[known_count + m]).value() == kept_values[m].value(),
                        decreases kept@.len() - j,
                    {
                        let copy = copy_json(&kept[j]);
                        events.push(copy);
                        proof {
                            assert(events@[known_count + j] == copy);
                        }
                        j = j + 1;
                    }
                },
                None => {},
            }
            let mut fields: Vec<(String, Json)> = Vec::new();
            fields.push(entry("id", Json::Unsigned(identifier.number() as u64)));
            fields.push(entry("path", Json::Text(tracks[i].1.to_string())));
            fields.push(entry("events", Json::List(events)));
            items.push(Json::Object(fields));
            i = i + 1;
        }
        let mut fields: Vec<(String, Json)> = Vec::new();
        fields.push(entry("version", Json::Unsigned(COLLECTION_VERSION as u64)));
        fields.push(entry("root", Json::Text(self.catalog.root().to_string())));
        fields.push(entry("next_id", Json::Unsigned(self.catalog.next() as u64)));
        fields.push(entry("tracks", Json::List(items)));
        Json::Object(fields)
    }
}

/// Whether a collection is one that saving and loading brings back: its root
/// and every path of its catalog read back from their text, events are held
/// only against tracks of its catalog, and the events it keeps unparsed are
/// for tracks of its catalog, never none for a track, and none of them
/// parses as an event.
pub open spec fn reloadable(c: Collection) -> bool {
    let entries = c.catalog_spec().entries();
    &&& c.well_formed()
    &&& plain_path(c.catalog_spec().root_spec())
    &&& forall|i: int| 0 <= i < entries.len() ==> plain_path(#[trigger] entries[i].0)
    &&& forall|n: u32| #[trigger] c.history_spec().events().contains_key(n) ==> exists|i: int|
        0 <= i < entries.len() && (#[trigger] entries[i]).1@ == n
    &&& forall|id: TrackId| #[trigger] kept_for(c.kept_spec(), id) matches Some(k) ==> {
        &&& exists|i: int| 0 <= i < entries.len() && (#[trigger] entries[i]).1 == id
        &&& k.len() > 0
        &&& forall|j: int| 0 <= j < k.len() ==> tagged_from(#[trigger] k[j]) is None
    }
}

/// Whether two lists of events kept unparsed hold the same values.
pub open spec fn same_kept(a: Option<Seq<Json>>, b: Option<Seq<Json>>) -> bool {
    match (a, b) {
        (None, None) => true,
        (Some(x), Some(y)) => x.len() == y.len() && forall|j: int| 0 <= j < x.len() ==> (#[trigger] x[j]).value()
            == y[j].value(),
        _ => false,
    }
}

/// Whether `loaded` holds what `c` does: the same root and next identifier,
/// every path with the identifier it had, every track of the catalog with
/// the events recorded against it, none for any other, and the same events
/// kept unparsed.
pub open spec fn same_collection(loaded: Collection, c: Collection) -> bool {
    let entries = c.catalog_spec().entries();
    &&& loaded.well_formed()
    &&& loaded.catalog_spec().root_spec() == c.catalog_spec().root_spec()
    &&& loaded.catalog_spec().next_spec() == c.catalog_spec().next_spec()
    &&& forall|p: (bool, Seq<Seq<char>>)| #[trigger] loaded.catalog_spec().identifier_spec(p)
        == c.catalog_spec().identifier_spec(p)
    &&& forall|id: TrackId| #[trigger] recorded_for(loaded.history_spec().events(), id) == recorded_for(
        c.history_spec().events(),
        id,
    )
    &&& forall|n: u32| #[trigger] loaded.history_spec().events().contains_key(n) <==> exists|i: int|
        0 <= i < entries.len() && (#[trigger] entries[i]).1@ == n
    &&& forall|id: TrackId| same_kept(#[trigger] kept_for(loaded.kept_spec(), id), kept_for(c.kept_spec(), id))
}

/// The field at `k` is the first named `key`.
proof fn lemma_field_at(f: Seq<(String, Json)>, k: int, key: Seq<char>)
    requires
        0 <= k < f.len(),
        f[k].0@ == key,
        forall|j: int| 0 <= j < k ==> (#[trigger] f[j]).0@ != key,
    ensures
        field(f, key) == Some(f[k].1),
    decreases k,
{
    if k > 0 {
        let rest = f.drop_first();
        assert(f[0].0@ != key);
        assert forall|j: int| 0 <= j < k - 1 implies (#[trigger] rest[j]).0@ != key by {
            assert(rest[j] == f[j + 1]);
        }
        lemma_field_at(rest, k - 1, key);
    }
}

/// The events a track is written with.
pub open spec fn written_events(item: Json) -> Seq<Json> {
    item->Object_0@[2].1->List_0@
}

/// The tracks a collection is written with, as reading a file gives them.
pub open spec fn written_tracks(c: Collection, items: Seq<Json>) -> Seq<(u32, (bool, Seq<Seq<char>>), Seq<Json>)> {
    let entries = c.catalog_spec().entries();
    Seq::new(entries.len(), |i: int| (entries[i].1@, entries[i].0, written_events(items[i])))
}

/// A track written as `written_track` says reads back as its identifier,
/// its path and its events.
proof fn lemma_track_reads_back(item: Json, id: TrackId, path: (bool, Seq<Seq<char>>), recorded: Seq<TimeTaggedTrackEvent>, kept: Seq<Json>)
    requires
        written_track(item, id, path, recorded, kept),
        plain_path(path),
    ensures
        stored_track(item) == Some((id@, path, written_events(item))),
{
    reveal_strlit("id");
    reveal_strlit("path");
    reveal_strlit("events");
    let f = item->Object_0@;
    assert("id"@.len() != "path"@.len() && "id"@.len() != "events"@.len() && "path"@.len() != "events"@.len());
    lemma_field_at(f, 0, "id"@);
    lemma_field_at(f, 1, "path"@);
    lemma_field_at(f, 2, "events"@);
    lemma_path_text_parses(path);
}

/// The first `k` tracks of a written collection read back.
proof fn lemma_tracks_read_back(c: Collection, items: Seq<Json>, k: int)
    requires
        reloadable(c),
        items.len() == c.catalog_spec().entries().len(),
        forall|i: int| 0 <= i < items.len() ==> written_track(
            #[trigger] items[i],
            c.catalog_spec().entries()[i].1,
            c.catalog_spec().entries()[i].0,
            recorded_for(c.history_spec().events(), c.catalog_spec().entries()[i].1),
            match kept_for(c.kept_spec(), c.catalog_spec().entries()[i].1) {
                Some(kept) => kept,
                None => Seq::empty(),
            },
        ),
        0 <= k <= items.len(),
    ensures
        stored_tracks(items, k) == Some(written_tracks(c, items).take(k)),
    decreases k,
{
    let entries = c.catalog_spec().entries();
    if k > 0 {
        lemma_tracks_read_back(c, items, k - 1);
        let i = k - 1;
        lemma_track_reads_back(
            items[i],
            entries[i].1,
            entries[i].0,
            recorded_for(c.history_spec().events(), entries[i].1),
            match kept_for(c.kept_spec(), entries[i].1) {
                Some(kept) => kept,
                None => Seq::empty(),
            },
        );
        assert(written_tracks(c, items).take(k - 1).push(written_tracks(c, items)[i]) =~= written_tracks(
            c,
            items,
        ).take(k));
    }
}

/// A track's stored events split back into those recorded and those kept.
proof fn lemma_events_split(events: Seq<Json>, recorded: Seq<TimeTaggedTrackEvent>, kept: Seq<Json>, m: int)
    requires
        stored_events(events, recorded, kept),
        forall|j: int| 0 <= j < kept.len() ==> tagged_from(#[trigger] kept[j]) is None,
        0 <= m <= events.len(),
    ensures
        known_of(events.take(m)) == recorded.take(if m < recorded.len() { m } else { recorded.len() as int }),
        unknown_of(events.take(m)) == if m <= recorded.len() {
            Seq::<Json>::empty()
        } else {
            events.subrange(recorded.len() as int, m)
        },
    decreases m,
{
    let r = recorded.len() as int;
    if m == 0 {
        assert(recorded.take(0) =~= Seq::<TimeTaggedTrackEvent>::empty());
    } else {
        lemma_events_split(events, recorded, kept, m - 1);
        let prefix = events.take(m);
        assert(prefix.drop_last() =~= events.take(m - 1));
        assert(prefix.last() == events[m - 1]);
        if m - 1 < r {
            lemma_tagged_round_trip(events[m - 1], recorded[m - 1]);
            assert(recorded.take(m - 1).push(recorded[m - 1]) =~= recorded.take(m));
        } else {
            let j = m - 1 - r;
            assert(events[r + j].value() == kept[j].value());
            lemma_tagged_from_same(events[m - 1], kept[j]);
            if m - 1 == r {
                assert(Seq::<Json>::empty().push(events[m - 1]) =~= events.subrange(r, m));
            } else {
                assert(events.subrange(r, m - 1).push(events[m - 1]) =~= events.subrange(r, m));
            }
        }
    }
}

/// The history and kept events that the first `k` tracks of a written
/// collection describe.
proof fn lemma_written_history(c: Collection, items: Seq<Json>, k: int)
    requires
        reloadable(c),
        items.len() == c.catalog_spec().entries().len(),
        forall|i: int| 0 <= i < items.len() ==> written_track(
            #[trigger] items[i],
            c.catalog_spec().entries()[i].1,
            c.catalog_spec().entries()[i].0,
            recorded_for(c.history_spec().events(), c.catalog_spec().entries()[i].1),
            match kept_for(c.kept_spec(), c.catalog_spec().entries()[i].1) {
                Some(kept) => kept,
                None => Seq::empty(),
            },
        ),
        0 <= k <= items.len(),
    ensures
        ({
            let tracks = written_tracks(c, items).take(k);
            let entries = c.catalog_spec().entries();
            &&& forall|n: u32| #[trigger] history_of(tracks).contains_key(n) <==> exists|i: int|
                0 <= i < k && (#[trigger] entries[i]).1@ == n
            &&& forall|i: int| 0 <= i < k ==> history_of(tracks)[(#[trigger] entries[i]).1@]
                == recorded_for(c.history_spec().events(), entries[i].1)
            &&& forall|n: u32| #[trigger] kept_of(tracks).contains_key(n) <==> exists|i: int|
                0 <= i < k && (#[trigger] entries[i]).1@ == n && kept_for(c.kept_spec(), entries[i].1) is Some
            &&& forall|i: int| 0 <= i < k && kept_for(c.kept_spec(), (#[trigger] entries[i]).1) is Some
                ==> same_kept(Some(kept_of(tracks)[entries[i].1@]), kept_for(c.kept_spec(), entries[i].1))
        }),
    decreases k,
{
    let entries = c.catalog_spec().entries();
    let all = written_tracks(c, items);
    if k == 0 {
        assert(all.take(0) =~= Seq::<(u32, (bool, Seq<Seq<char>>), Seq<Json>)>::empty());
    } else {
        lemma_written_history(c, items, k - 1);
        let i = k - 1;
        let tracks = all.take(k);
        assert(tracks.drop_last() =~= all.take(k - 1));
        assert(tracks.last() == all[i]);
        let id = entries[i].1;
        let recorded = recorded_for(c.history_spec().events(), id);
        let kept = match kept_for(c.kept_spec(), id) {
            Some(kept) => kept,
            None => Seq::<Json>::empty(),
        };
        let events = written_events(items[i]);
        assert(written_track(items[i], id, entries[i].0, recorded, kept));
        assert(stored_events(events, recorded, kept));
        assert(forall|j: int| 0 <= j < kept.len() ==> tagged_from(#[trigger] kept[j]) is None);
        lemma_events_split(events, recorded, kept, events.len() as int);
        assert(events.take(events.len() as int) =~= events);
        assert(recorded.take(recorded.len() as int) =~= recorded);
        assert(known_of(events) == recorded);
        let unknown = unknown_of(events);
        assert(unknown.len() == kept.len());
        assert forall|j: int| 0 <= j < unknown.len() implies (#[trigger] unknown[j]).value() == kept[j].value() by {
            assert(unknown[j] == events[recorded.len() + j]);
        }
        assert forall|a: int| 0 <= a < i implies (#[trigger] entries[a]).1@ != id@ by {
            assert(entries[a].1 != entries[i].1);
        }
        assert forall|a: int| 0 <= a < k implies history_of(tracks)[(#[trigger] entries[a]).1@]
            == recorded_for(c.history_spec().events(), entries[a].1) by {
            if a < i {
                assert(entries[a].1@ != id@);
            }
        }
        let before = all.take(k - 1);
        assert(history_of(tracks) == history_of(before).insert(id@, known_of(events)));
        assert forall|n: u32| #[trigger] history_of(tracks).contains_key(n) <==> exists|a: int|
            0 <= a < k && (#[trigger] entries[a]).1@ == n by {
            if n == id@ {
                assert(entries[i].1@ == n);
            }
            if history_of(before).contains_key(n) {
                let a = choose|a: int| 0 <= a < k - 1 && (#[trigger] entries[a]).1@ == n;
                assert(0 <= a < k && entries[a].1@ == n);
            }
            if exists|a: int| 0 <= a < k && (#[trigger] entries[a]).1@ == n {
                let a = choose|a: int| 0 <= a < k && (#[trigger] entries[a]).1@ == n;
                if a < k - 1 {
                    assert(history_of(before).contains_key(n));
                }
            }
        }
        assert(kept_for(c.kept_spec(), id) is Some <==> kept.len() > 0);
        assert(kept_of(tracks) == if unknown.len() > 0 {
            kept_of(before).insert(id@, unknown)
        } else {
            kept_of(before)
        });
        assert forall|n: u32| #[trigger] kept_of(tracks).contains_key(n) <==> exists|a: int|
            0 <= a < k && (#[trigger] entries[a]).1@ == n && kept_for(c.kept_spec(), entries[a].1) is Some by {
            if n == id@ && kept_for(c.kept_spec(), id) is Some {
                assert(entries[i].1@ == n);
            }
            if kept_of(before).contains_key(n) {
                let a = choose|a: int|
                    0 <= a < k - 1 && (#[trigger] entries[a]).1@ == n && kept_for(c.kept_spec(), entries[a].1) is Some;
                assert(0 <= a < k && entries[a].1@ == n);
            }
            if exists|a: int| 0 <= a < k && (#[trigger] entries[a]).1@ == n && kept_for(c.kept_spec(), entries[a].1) is Some {
                let a = choose|a: int|
                    0 <= a < k && (#[trigger] entries[a]).1@ == n && kept_for(c.kept_spec(), entries[a].1) is Some;
                if a < k - 1 {
                    assert(kept_of(before).contains_key(n));
                } else {
                    assert(kept.len() > 0);
                }
            }
        }
        assert forall|a: int| 0 <= a < k && kept_for(c.kept_spec(), (#[trigger] entries[a]).1) is Some
            implies same_kept(Some(kept_of(tracks)[entries[a].1@]), kept_for(c.kept_spec(), entries[a].1)) by {
            if a < i {
                assert(entries[a].1@ != id@);
            } else {
                assert(kept.len() > 0);
            }
        }
    }
}

/// Saving a collection and loading what was saved brings the collection
/// back: reading the file `written_collection` describes, as a current file
/// is read, gives a collection with the same root and next identifier, every
/// path with the identifier it had, every track of the catalog with the
/// events recorded against it, and the same events kept unparsed.
pub proof fn lemma_saved_collection_loads_back(
    c: Collection,
    written: Json,
    file: (bool, Seq<Seq<char>>),
    loaded: Result<Option<Collection>, Error>,
)
    requires
        reloadable(c),
        written_collection(written, c),
        current_outcome(file, written, loaded),
    ensures
        version_from(written) == Some(COLLECTION_VERSION),
        loaded matches Ok(Some(l)) && same_collection(l, c),
{
    lemma_loads_back(c, written, file, loaded);
}

/// What a collection brought back by loading what was saved is saved as
/// loads back again, so saving and loading may be repeated session after
/// session: the loaded collection is reloadable as the saved one was.
pub proof fn lemma_reloaded_collection_reloads(c: Collection, loaded: Collection)
    requires
        reloadable(c),
        same_collection(loaded, c),
    ensures
        reloadable(loaded),
{
    let entries = c.catalog_spec().entries();
    let others = loaded.catalog_spec().entries();
    assert forall|i: int| 0 <= i < others.len() implies plain_path(#[trigger] others[i].0) by {
        let p = others[i].0;
        assert(loaded.catalog_spec().identifier_spec(p) is Some);
        assert(c.catalog_spec().identifier_spec(p) is Some);
        let j = choose|j: int| 0 <= j < entries.len() && (#[trigger] entries[j]).0 == p;
        assert(plain_path(entries[j].0));
    }
    assert forall|n: u32| #[trigger] loaded.history_spec().events().contains_key(n) implies exists|i: int|
        0 <= i < others.len() && (#[trigger] others[i]).1@ == n by {
        let i = choose|i: int| 0 <= i < entries.len() && (#[trigger] entries[i]).1@ == n;
        lemma_entry_in_both(c, loaded, i);
    }
    assert forall|id: TrackId| #[trigger] kept_for(loaded.kept_spec(), id) is Some implies {
        &&& exists|i: int| 0 <= i < others.len() && (#[trigger] others[i]).1 == id
        &&& kept_for(loaded.kept_spec(), id)->Some_0.len() > 0
        &&& forall|j: int| 0 <= j < kept_for(loaded.kept_spec(), id)->Some_0.len() ==> tagged_from(
            #[trigger] kept_for(loaded.kept_spec(), id)->Some_0[j],
        ) is None
    } by {
        let k = kept_for(loaded.kept_spec(), id)->Some_0;
        assert(same_kept(kept_for(loaded.kept_spec(), id), kept_for(c.kept_spec(), id)));
        let theirs = kept_for(c.kept_spec(), id)->Some_0;
        let i = choose|i: int| 0 <= i < entries.len() && (#[trigger] entries[i]).1 == id;
        lemma_entry_in_both(c, loaded, i);
        assert forall|j: int| 0 <= j < k.len() implies tagged_from(#[trigger] k[j]) is None by {
            assert(k[j].value() == theirs[j].value());
            lemma_tagged_from_same(k[j], theirs[j]);
        }
    }
}

/// A track of the saved catalog is a track of the loaded one, under the
/// same identifier.
proof fn lemma_entry_in_both(c: Collection, loaded: Collection, i: int)
    requires
        reloadable(c),
        same_collection(loaded, c),
        0 <= i < c.catalog_spec().entries().len(),
    ensures
        exists|j: int| 0 <= j < loaded.catalog_spec().entries().len()
            && (#[trigger] loaded.catalog_spec().entries()[j]).1 == c.catalog_spec().entries()[i].1,
{
    let entries = c.catalog_spec().entries();
    let others = loaded.catalog_spec().entries();
    let p = entries[i].0;
    crate::catalog::lemma_identifier_at(entries, i);
    assert(loaded.catalog_spec().identifier_spec(p) == Some(entries[i].1));
    assert(exists|j: int| 0 <= j < others.len() && (#[trigger] others[j]).0 == p);
    let j = choose|j: int| 0 <= j < others.len() && (#[trigger] others[j]).0 == p;
    crate::catalog::lemma_identifier_at(others, j);
    assert(others[j].1 == entries[i].1);
}

/// Saving then loading, as `lemma_saved_collection_loads_back` states.
proof fn lemma_loads_back(
    c: Collection,
    written: Json,
    file: (bool, Seq<Seq<char>>),
    loaded: Result<Option<Collection>, Error>,
)
    requires
        reloadable(c),
        written_collection(written, c),
        current_outcome(file, written, loaded),
    ensures
        version_from(written) == Some(COLLECTION_VERSION),
        loaded matches Ok(Some(l)) && same_collection(l, c),
{
    let entries = c.catalog_spec().entries();
    let f = written->Object_0@;
    reveal_strlit("version");
    reveal_strlit("root");
    reveal_strlit("next_id");
    reveal_strlit("tracks");
    assert("version"@[0] != "root"@[0] && "version"@[0] != "next_id"@[0] && "version"@[0] != "tracks"@[0]);
    assert("root"@[0] != "next_id"@[0] && "root"@[0] != "tracks"@[0] && "next_id"@[0] != "tracks"@[0]);
    lemma_field_at(f, 0, "version"@);
    lemma_field_at(f, 1, "root"@);
    lemma_field_at(f, 2, "next_id"@);
    lemma_field_at(f, 3, "tracks"@);
    let root = c.catalog_spec().root_spec();
    let next = c.catalog_spec().next_spec();
    lemma_path_text_parses(root);
    let items = f[3].1->List_0@;
    lemma_tracks_read_back(c, items, items.len() as int);
    let tracks = written_tracks(c, items);
    assert(tracks.take(items.len() as int) =~= tracks);
    assert(current_file(written) == Some((root, next, tracks)));
    assert(identified(tracks) =~= entries) by {
        assert forall|i: int| 0 <= i < entries.len() implies #[trigger] identified(tracks)[i] == entries[i] by {
            crate::track::lemma_numbered(entries[i].1@);
            crate::track::lemma_track_id_eq(numbered(entries[i].1@), entries[i].1);
        }
    }
    lemma_restore_round_trip(c.catalog_spec());
    assert forall|k: int| 0 <= k < tracks.len() implies !#[trigger] unrestorable(identified(tracks), next, k) by {
        assert(!unrestorable(entries, next, k));
    }
    if let Err(e) = loaded {
        if let Error::File { path, message } = e {
            let k = choose|k: int| first_unrestorable(identified(tracks), next, k) && message@ == restore_problem(
                identified(tracks),
                next,
                k,
            );
            assert(!unrestorable(identified(tracks), next, k));
        }
    }
    let l = loaded->Ok_0->Some_0;
    lemma_written_history(c, items, items.len() as int);
    assert forall|p: (bool, Seq<Seq<char>>)| #[trigger] l.catalog_spec().identifier_spec(p)
        == c.catalog_spec().identifier_spec(p) by {
        assert(last_given(identified(tracks), p, tracks.len() as int) == last_given(entries, p, entries.len() as int));
    }
    assert forall|n: u32| #[trigger] l.history_spec().events().contains_key(n) <==> exists|i: int|
        0 <= i < entries.len() && (#[trigger] entries[i]).1@ == n by {}
    assert forall|id: TrackId| #[trigger] recorded_for(l.history_spec().events(), id) == recorded_for(
        c.history_spec().events(),
        id,
    ) by {
        if exists|i: int| 0 <= i < entries.len() && (#[trigger] entries[i]).1@ == id@ {
            let i = choose|i: int| 0 <= i < entries.len() && (#[trigger] entries[i]).1@ == id@;
            assert(entries[i].1 == id);
        } else {
            assert(!c.history_spec().events().contains_key(id@));
        }
    }
    assert forall|id: TrackId| same_kept(#[trigger] kept_for(l.kept_spec(), id), kept_for(c.kept_spec(), id)) by {
        crate::track::lemma_numbered(id@);
        crate::track::lemma_track_id_eq(numbered(id@), id);
        assert(kept_for(l.kept_spec(), numbered(id@)) == map_entry(kept_of(tracks), id@));
        if let Some(k) = kept_for(c.kept_spec(), id) {
            let i = choose|i: int| 0 <= i < entries.len() && (#[trigger] entries[i]).1 == id;
            assert(entries[i].1@ == id@);
        } else {
            if kept_of(tracks).contains_key(id@) {
                let i = choose|i: int|
                    0 <= i < entries.len() && (#[trigger] entries[i]).1@ == id@ && kept_for(c.kept_spec(), entries[i].1) is Some;
                assert(entries[i].1 == id);
            }
        }
    }
}

} // verus!
