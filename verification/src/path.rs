//! Paths, as the sequence of components they name.
//!
//! A path is absolute or relative, and a list of components. Parsing follows
//! the rules of a Unix path: separators are `/`, repeated separators and a
//! trailing one are ignored, and `.` is dropped except as the first
//! component of a relative path.

use crate::text;
use vstd::prelude::*;

verus! {

/// A path: whether it starts at the root, and the components below that.
#[derive(Debug, Clone, PartialEq, Eq, Hash, Default)]
pub struct FsPath {
    absolute: bool,
    parts: Vec<String>,
}

/// The components of a path, each as its characters.
pub open spec fn parts_view(parts: Seq<String>) -> Seq<Seq<char>> {
    parts.map_values(|part: String| part@)
}

impl View for FsPath {
    type V = (bool, Seq<Seq<char>>);

    closed spec fn view(&self) -> (bool, Seq<Seq<char>>) {
        (self.absolute, parts_view(self.parts@))
    }
}

/// The pieces between separators, empty ones included.
pub open spec fn segments(s: Seq<char>) -> Seq<Seq<char>>
    decreases s.len(),
{
    if s.len() == 0 {
        seq![Seq::<char>::empty()]
    } else {
        let before = segments(s.drop_last());
        if s.last() == '/' {
            before.push(Seq::empty())
        } else {
            before.update(before.len() - 1, before.last().push(s.last()))
        }
    }
}

/// Whether the segment at position `k` is a component: it is not empty, and
/// it is not `.` unless it comes first.
pub open spec fn kept_segment(k: int, segment: Seq<char>) -> bool {
    segment.len() > 0 && (segment != seq!['.'] || k == 0)
}

/// The components among the first `n` segments.
pub open spec fn kept_segments(all: Seq<Seq<char>>, n: int) -> Seq<Seq<char>>
    decreases n,
{
    if n <= 0 {
        Seq::empty()
    } else {
        let before = kept_segments(all, n - 1);
        if kept_segment(n - 1, all[n - 1]) {
            before.push(all[n - 1])
        } else {
            before
        }
    }
}

/// The path a text names.
pub open spec fn parsed(s: Seq<char>) -> (bool, Seq<Seq<char>>) {
    let all = segments(s);
    (s.len() > 0 && s[0] == '/', kept_segments(all, all.len() as int))
}

proof fn lemma_segments_nonempty(s: Seq<char>)
    ensures
        segments(s).len() >= 1,
    decreases s.len(),
{
    if s.len() > 0 {
        lemma_segments_nonempty(s.drop_last());
    }
}

/// `/` and the components, joined by `/`.
pub open spec fn joined(parts: Seq<Seq<char>>) -> Seq<char>
    decreases parts.len(),
{
    if parts.len() == 0 {
        Seq::empty()
    } else if parts.len() == 1 {
        parts[0]
    } else {
        joined(parts.drop_last()) + seq!['/'] + parts.last()
    }
}

/// The text of a path.
pub open spec fn path_text(path: (bool, Seq<Seq<char>>)) -> Seq<char> {
    if path.0 {
        seq!['/'] + joined(path.1)
    } else if path.1.len() == 0 {
        Seq::empty()
    } else {
        joined(path.1)
    }
}

/// Whether `prefix` holds the first components of `path`, both being absolute
/// or both relative.
pub open spec fn starts_with_spec(path: (bool, Seq<Seq<char>>), prefix: (bool, Seq<Seq<char>>)) -> bool {
    path.0 == prefix.0 && prefix.1.len() <= path.1.len() && path.1.subrange(0, prefix.1.len() as int)
        == prefix.1
}

/// The name of the last component, unless there is none or it is `..`.
pub open spec fn file_name_spec(path: (bool, Seq<Seq<char>>)) -> Option<Seq<char>> {
    if path.1.len() == 0 || path.1.last() == seq!['.', '.'] {
        None
    } else {
        Some(path.1.last())
    }
}

/// The position of the last `.` in `name`, if it has one.
pub open spec fn last_dot(name: Seq<char>) -> Option<int>
    decreases name.len(),
{
    if name.len() == 0 {
        None
    } else if name.last() == '.' {
        Some(name.len() - 1)
    } else {
        last_dot(name.drop_last())
    }
}

/// A file name split into its stem and its extension: the extension follows
/// the last `.`, unless that `.` begins the name.
pub open spec fn split_name(name: Seq<char>) -> (Seq<char>, Option<Seq<char>>) {
    match last_dot(name) {
        Some(at) => if at == 0 {
            (name, None)
        } else {
            (name.subrange(0, at), Some(name.subrange(at + 1, name.len() as int)))
        },
        None => (name, None),
    }
}

proof fn lemma_last_dot(name: Seq<char>)
    ensures
        match last_dot(name) {
            Some(at) => 0 <= at < name.len() && name[at] == '.' && forall|k: int|
                at < k < name.len() ==> name[k] != '.',
            None => forall|k: int| 0 <= k < name.len() ==> name[k] != '.',
        },
    decreases name.len(),
{
    if name.len() > 0 && name.last() != '.' {
        lemma_last_dot(name.drop_last());
        assert forall|k: int| 0 <= k < name.len() - 1 implies name.drop_last()[k] == name[k] by {}
    }
}

/// How two texts compare, character by character and then by length: -1
/// when `a` comes first, 1 when `b` does, 0 when they are the same.
pub open spec fn text_order(a: Seq<char>, b: Seq<char>) -> int
    decreases a.len(),
{
    if a.len() == 0 {
        if b.len() == 0 {
            0
        } else {
            -1
        }
    } else if b.len() == 0 {
        1
    } else if (a[0] as int) < (b[0] as int) {
        -1
    } else if (a[0] as int) > (b[0] as int) {
        1
    } else {
        text_order(a.drop_first(), b.drop_first())
    }
}

/// The order of two texts is an order: it reverses when they swap, it is
/// zero only for the same text, and it is transitive.
pub proof fn lemma_text_order(a: Seq<char>, b: Seq<char>, c: Seq<char>)
    ensures
        -1 <= text_order(a, b) <= 1,
        text_order(a, b) == -text_order(b, a),
        text_order(a, b) == 0 <==> a == b,
        text_order(a, b) < 0 && text_order(b, c) < 0 ==> text_order(a, c) < 0,
    decreases a.len(),
{
    if a.len() > 0 && b.len() > 0 && c.len() > 0 {
        lemma_text_order(a.drop_first(), b.drop_first(), c.drop_first());
    } else if a.len() > 0 && b.len() > 0 {
        lemma_text_order(a.drop_first(), b.drop_first(), c);
    }
    if a.len() > 0 && b.len() > 0 && a[0] == b[0] && text_order(a.drop_first(), b.drop_first()) == 0 {
        assert(a =~= seq![a[0]] + a.drop_first());
        assert(b =~= seq![b[0]] + b.drop_first());
    }
    if a == b && a.len() > 0 {
        assert(a.drop_first() == b.drop_first());
    }
    if a.len() == 0 && b.len() == 0 {
        assert(a =~= b);
    }
}

/// How a component ranks before its name is compared: the current
/// directory, then the parent directory, then every other name.
pub open spec fn component_rank(part: Seq<char>) -> int {
    if part == seq!['.'] {
        2
    } else if part == seq!['.', '.'] {
        3
    } else {
        4
    }
}

/// How two components compare: by rank, then by name.
pub open spec fn component_order(x: Seq<char>, y: Seq<char>) -> int {
    if component_rank(x) < component_rank(y) {
        -1
    } else if component_rank(x) > component_rank(y) {
        1
    } else {
        text_order(x, y)
    }
}

/// How two lists of components compare, component by component and then by
/// length.
pub open spec fn parts_order(xs: Seq<Seq<char>>, ys: Seq<Seq<char>>) -> int
    decreases xs.len(),
{
    if xs.len() == 0 {
        if ys.len() == 0 {
            0
        } else {
            -1
        }
    } else if ys.len() == 0 {
        1
    } else if component_order(xs[0], ys[0]) != 0 {
        component_order(xs[0], ys[0])
    } else {
        parts_order(xs.drop_first(), ys.drop_first())
    }
}

proof fn lemma_component_order(x: Seq<char>, y: Seq<char>, z: Seq<char>)
    ensures
        -1 <= component_order(x, y) <= 1,
        component_order(x, y) == -component_order(y, x),
        component_order(x, y) == 0 <==> x == y,
        component_order(x, y) < 0 && component_order(y, z) < 0 ==> component_order(x, z) < 0,
{
    lemma_text_order(x, y, z);
}

proof fn lemma_parts_order(xs: Seq<Seq<char>>, ys: Seq<Seq<char>>, zs: Seq<Seq<char>>)
    ensures
        -1 <= parts_order(xs, ys) <= 1,
        parts_order(xs, ys) == -parts_order(ys, xs),
        parts_order(xs, ys) == 0 <==> xs == ys,
        parts_order(xs, ys) < 0 && parts_order(ys, zs) < 0 ==> parts_order(xs, zs) < 0,
    decreases xs.len(),
{
    if xs.len() > 0 && ys.len() > 0 {
        let zf = if zs.len() > 0 { zs[0] } else { Seq::empty() };
        lemma_component_order(xs[0], ys[0], zf);
        lemma_component_order(ys[0], zf, xs[0]);
        lemma_component_order(xs[0], zf, ys[0]);
        let zr = if zs.len() > 0 { zs.drop_first() } else { zs };
        lemma_parts_order(xs.drop_first(), ys.drop_first(), zr);
        if component_order(xs[0], ys[0]) == 0 && parts_order(xs.drop_first(), ys.drop_first()) == 0 {
            assert(xs =~= seq![xs[0]] + xs.drop_first());
            assert(ys =~= seq![ys[0]] + ys.drop_first());
        }
        if xs == ys {
            assert(xs.drop_first() == ys.drop_first());
        }
    }
    if xs.len() == 0 && ys.len() == 0 {
        assert(xs =~= ys);
    }
}

/// How two paths compare, as std orders paths: component by component, the
/// root coming before any other component.
pub open spec fn path_order(a: (bool, Seq<Seq<char>>), b: (bool, Seq<Seq<char>>)) -> int {
    if a.0 == b.0 {
        parts_order(a.1, b.1)
    } else if a.0 {
        if b.1.len() == 0 {
            1
        } else {
            -1
        }
    } else {
        if a.1.len() == 0 {
            -1
        } else {
            1
        }
    }
}

/// The order of paths is an order: it reverses when they swap, it is zero
/// only for the same path, and it is transitive.
pub proof fn lemma_path_order(a: (bool, Seq<Seq<char>>), b: (bool, Seq<Seq<char>>), c: (bool, Seq<Seq<char>>))
    ensures
        -1 <= path_order(a, b) <= 1,
        path_order(a, b) == -path_order(b, a),
        path_order(a, b) == 0 <==> a == b,
        path_order(a, b) < 0 && path_order(b, c) < 0 ==> path_order(a, c) < 0,
{
    lemma_parts_order(a.1, b.1, c.1);
    lemma_parts_order(b.1, c.1, a.1);
    lemma_parts_order(a.1, c.1, b.1);
}

/// How two strings compare, as `text_order`.
fn order_of_texts(a: &String, b: &String) -> (o: i8)
    ensures
        o == text_order(a@, b@),
{
    let x = text::chars_of(a.as_str());
    let y = text::chars_of(b.as_str());
    let mut i: usize = 0;
    assert(x@.skip(0) =~= x@);
    assert(y@.skip(0) =~= y@);
    while i < x.len() && i < y.len()
        invariant
            x@ == a@,
            y@ == b@,
            i <= x@.len(),
            i <= y@.len(),
            text_order(a@, b@) == text_order(x@.skip(i as int), y@.skip(i as int)),
        decreases x.len() - i,
    {
        if x[i] != y[i] {
            proof {
                assert(x@.skip(i as int)[0] == x@[i as int]);
                assert(y@.skip(i as int)[0] == y@[i as int]);
            }
            if x[i] < y[i] {
                return -1;
            } else {
                return 1;
            }
        }
        proof {
            assert(x@.skip(i as int).drop_first() =~= x@.skip(i + 1));
            assert(y@.skip(i as int).drop_first() =~= y@.skip(i + 1));
        }
        i = i + 1;
    }
    if x.len() == y.len() {
        0
    } else if i == x.len() {
        -1
    } else {
        1
    }
}

/// The rank of a component, as `component_rank`.
fn rank_of(part: &String) -> (rank: i8)
    ensures
        rank == component_rank(part@),
{
    let chars = text::chars_of(part.as_str());
    if chars.len() == 1 && chars[0] == '.' {
        assert(chars@ =~= seq!['.']);
        2
    } else if chars.len() == 2 && chars[0] == '.' && chars[1] == '.' {
        assert(chars@ =~= seq!['.', '.']);
        3
    } else {
        proof {
            if chars@ == seq!['.'] {
                assert(chars@[0] == '.');
            }
            if chars@ == seq!['.', '.'] {
                assert(chars@[0] == '.' && chars@[1] == '.');
            }
        }
        4
    }
}

/// How two components compare, as `component_order`.
fn order_of_components(x: &String, y: &String) -> (o: i8)
    ensures
        o == component_order(x@, y@),
{
    let rx = rank_of(x);
    let ry = rank_of(y);
    if rx < ry {
        -1
    } else if rx > ry {
        1
    } else {
        order_of_texts(x, y)
    }
}

/// The leading components two lists share.
pub open spec fn common_parts(x: Seq<Seq<char>>, y: Seq<Seq<char>>) -> Seq<Seq<char>>
    decreases x.len(),
{
    if x.len() == 0 || y.len() == 0 || x[0] != y[0] {
        Seq::empty()
    } else {
        seq![x[0]] + common_parts(x.drop_first(), y.drop_first())
    }
}

/// The longest leading run of components two paths share: nothing when one
/// is absolute and the other is not.
pub open spec fn shared_prefix(a: (bool, Seq<Seq<char>>), b: (bool, Seq<Seq<char>>)) -> (bool, Seq<Seq<char>>) {
    if a.0 == b.0 {
        (a.0, common_parts(a.1, b.1))
    } else {
        (false, Seq::empty())
    }
}

/// A copy of a string.
pub fn copy_string(s: &String) -> (copy: String)
    ensures
        copy@ == s@,
{
    text::owned(s.as_str())
}

/// A copy of a list of strings.
pub fn copy_strings(parts: &Vec<String>) -> (copy: Vec<String>)
    ensures
        parts_view(copy@) == parts_view(parts@),
{
    let mut copy: Vec<String> = Vec::new();
    let mut i: usize = 0;
    while i < parts.len()
        invariant
            i <= parts.len(),
            parts_view(copy@) == parts_view(parts@.subrange(0, i as int)),
        decreases parts.len() - i,
    {
        let ghost before = copy@;
        let part = copy_string(&parts[i]);
        copy.push(part);
        i = i + 1;
        assert(copy@ == before.push(part));
        assert(parts_view(copy@) =~= parts_view(before).push(part@));
        assert(parts_view(parts@.subrange(0, i as int)) =~= parts_view(parts@.subrange(0, i - 1)).push(parts@[i - 1]@));
    }
    assert(parts@.subrange(0, parts.len() as int) =~= parts@);
    copy
}

/// Whether two strings hold the same characters.
pub fn same_text(a: &String, b: &String) -> (same: bool)
    ensures
        same == (a@ == b@),
{
    let x = text::chars_of(a.as_str());
    let y = text::chars_of(b.as_str());
    if x.len() != y.len() {
        return false;
    }
    let mut i: usize = 0;
    while i < x.len()
        invariant
            x.len() == y.len(),
            x@ == a@,
            y@ == b@,
            i <= x.len(),
            forall|k: int| 0 <= k < i ==> x@[k] == y@[k],
        decreases x.len() - i,
    {
        if x[i] != y[i] {
            return false;
        }
        i = i + 1;
    }
    assert(x@ =~= y@);
    true
}

impl FsPath {
    /// The path that `text` names.
    pub fn new(text: &str) -> (path: FsPath)
        ensures
            path@ == parsed(text@),
    {
        let chars = text::chars_of(text);
        let mut pieces: Vec<Vec<char>> = Vec::new();
        pieces.push(Vec::new());
        let mut i: usize = 0;
        while i < chars.len()
            invariant
                i <= chars@.len(),
                chars@ == text@,
                pieces@.len() >= 1,
                pieces@.map_values(|s: Vec<char>| s@) == segments(chars@.subrange(0, i as int)),
            decreases chars.len() - i,
        {
            proof {
                assert(chars@.subrange(0, i + 1).drop_last() =~= chars@.subrange(0, i as int));
            }
            let c = chars[i];
            let ghost before = pieces@.map_values(|s: Vec<char>| s@);
            if c == '/' {
                pieces.push(Vec::new());
                assert(pieces@.map_values(|s: Vec<char>| s@) =~= before.push(Seq::empty()));
            } else {
                let last = pieces.len() - 1;
                let mut segment = pieces.remove(last);
                segment.push(c);
                pieces.push(segment);
                assert(pieces@.map_values(|s: Vec<char>| s@) =~= before.update(
                    before.len() - 1,
                    before.last().push(c),
                ));
            }
            i = i + 1;
        }
        assert(chars@.subrange(0, chars@.len() as int) =~= chars@);
        let ghost all = segments(text@);
        let mut parts: Vec<String> = Vec::new();
        let mut k: usize = 0;
        while k < pieces.len()
            invariant
                k <= pieces@.len(),
                pieces@.map_values(|s: Vec<char>| s@) == all,
                parts_view(parts@) == kept_segments(all, k as int),
            decreases pieces.len() - k,
        {
            let segment = &pieces[k];
            let is_dot = segment.len() == 1 && segment[0] == '.';
            proof {
                assert(segment@ == all[k as int]);
                if segment.len() == 1 {
                    if segment[0] == '.' {
                        assert(segment@ =~= seq!['.']);
                    } else {
                        assert(segment@[0] != seq!['.'][0]);
                    }
                } else {
                    assert(segment@.len() != 1);
                }
            }
            if segment.len() > 0 && (!is_dot || k == 0) {
                parts.push(text::string_of(segment));
            }
            k = k + 1;
            assert(parts_view(parts@) =~= kept_segments(all, k as int));
        }
        let absolute = chars.len() > 0 && chars[0] == '/';
        FsPath { absolute, parts }
    }

    /// Whether the path starts at the root.
    pub fn is_absolute(&self) -> (b: bool)
        ensures
            b == self@.0,
    {
        self.absolute
    }

    /// How many components the path has.
    pub fn component_count(&self) -> (n: usize)
        ensures
            n == self@.1.len(),
    {
        self.parts.len()
    }

    /// The component at `index`.
    pub fn component(&self, index: usize) -> (part: String)
        requires
            index < self@.1.len(),
        ensures
            part@ == self@.1[index as int],
    {
        copy_string(&self.parts[index])
    }

    /// How this path compares with `other`, as `path_order`: -1 when this
    /// one comes first, 1 when `other` does, 0 when they are the same.
    pub fn order_with(&self, other: &FsPath) -> (o: i8)
        ensures
            o == path_order(self@, other@),
    {
        if self.absolute != other.absolute {
            if self.absolute {
                return if other.parts.len() == 0 { 1 } else { -1 };
            } else {
                return if self.parts.len() == 0 { -1 } else { 1 };
            }
        }
        let ghost xs = self@.1;
        let ghost ys = other@.1;
        let mut i: usize = 0;
        assert(xs.skip(0) =~= xs);
        assert(ys.skip(0) =~= ys);
        while i < self.parts.len() && i < other.parts.len()
            invariant
                xs == self@.1,
                ys == other@.1,
                self@.0 == other@.0,
                i <= xs.len(),
                i <= ys.len(),
                path_order(self@, other@) == parts_order(xs.skip(i as int), ys.skip(i as int)),
            decreases self.parts.len() - i,
        {
            let o = order_of_components(&self.parts[i], &other.parts[i]);
            proof {
                assert(xs.skip(i as int)[0] == xs[i as int]);
                assert(ys.skip(i as int)[0] == ys[i as int]);
                assert(xs.skip(i as int).drop_first() =~= xs.skip(i + 1));
                assert(ys.skip(i as int).drop_first() =~= ys.skip(i + 1));
            }
            if o != 0 {
                return o;
            }
            i = i + 1;
        }
        if self.parts.len() == other.parts.len() {
            0
        } else if i == self.parts.len() {
            -1
        } else {
            1
        }
    }

    /// The longest leading run of components this path shares with `other`.
    pub fn shared_with(&self, other: &FsPath) -> (shared: FsPath)
        ensures
            shared@ == shared_prefix(self@, other@),
    {
        if self.absolute != other.absolute {
            return FsPath { absolute: false, parts: Vec::new() };
        }
        let ghost x = self@.1;
        let ghost y = other@.1;
        let mut parts: Vec<String> = Vec::new();
        let mut i: usize = 0;
        proof {
            assert(x.skip(0) =~= x);
            assert(y.skip(0) =~= y);
        }
        while i < self.parts.len() && i < other.parts.len() && same_text(&self.parts[i], &other.parts[i])
            invariant
                x == self@.1,
                y == other@.1,
                i <= x.len(),
                i <= y.len(),
                parts_view(parts@) == x.take(i as int),
                x.take(i as int) == y.take(i as int),
                common_parts(x, y) == x.take(i as int) + common_parts(x.skip(i as int), y.skip(i as int)),
            decreases self.parts.len() - i,
        {
            let part = copy_string(&self.parts[i]);
            let ghost before = parts@;
            parts.push(part);
            proof {
                assert(x.skip(i as int)[0] == x[i as int]);
                assert(y.skip(i as int)[0] == y[i as int]);
                assert(x.skip(i as int).drop_first() =~= x.skip(i + 1));
                assert(y.skip(i as int).drop_first() =~= y.skip(i + 1));
                assert(x.take(i + 1) =~= x.take(i as int).push(x[i as int]));
                assert(y.take(i + 1) =~= y.take(i as int).push(y[i as int]));
                assert(parts_view(parts@) =~= parts_view(before).push(part@));
                assert(x.take(i as int) + common_parts(x.skip(i as int), y.skip(i as int)) =~= x.take(i + 1)
                    + common_parts(x.skip(i + 1), y.skip(i + 1)));
            }
            i = i + 1;
        }
        proof {
            if i < x.len() && i < y.len() {
                assert(x.skip(i as int)[0] == x[i as int]);
                assert(y.skip(i as int)[0] == y[i as int]);
            }
            assert(common_parts(x.skip(i as int), y.skip(i as int)) =~= Seq::<Seq<char>>::empty());
            assert(x.take(i as int) + Seq::<Seq<char>>::empty() =~= x.take(i as int));
        }
        FsPath { absolute: self.absolute, parts }
    }

    /// Whether the path is empty: relative, with no components.
    pub fn is_empty(&self) -> (empty: bool)
        ensures
            empty == (!self@.0 && self@.1.len() == 0),
    {
        !self.absolute && self.parts.len() == 0
    }

    /// A copy of this path.
    pub fn duplicate(&self) -> (copy: FsPath)
        ensures
            copy@ == self@,
    {
        FsPath { absolute: self.absolute, parts: copy_strings(&self.parts) }
    }

    /// The path as text: components joined by `/`, after a `/` if absolute.
    pub fn to_string(&self) -> (text: String)
        ensures
            text@ == path_text(self@),
    {
        let mut text = String::new();
        if self.absolute {
            text::push_char(&mut text, '/');
        }
        let ghost start = text@;
        let mut i: usize = 0;
        while i < self.parts.len()
            invariant
                i <= self.parts@.len(),
                start == (if self.absolute { seq!['/'] } else { Seq::<char>::empty() }),
                text@ == start + joined(parts_view(self.parts@).subrange(0, i as int)),
            decreases self.parts.len() - i,
        {
            let ghost previous = parts_view(self.parts@).subrange(0, i as int);
            if i > 0 {
                text::push_char(&mut text, '/');
            }
            text::append(&mut text, self.parts[i].as_str());
            i = i + 1;
            proof {
                let now = parts_view(self.parts@).subrange(0, i as int);
                assert(now.drop_last() =~= previous);
                assert(now.last() == self.parts@[i - 1]@);
                if i > 1 {
                    assert(text@ =~= start + joined(now));
                } else {
                    assert(text@ =~= start + joined(now));
                }
            }
        }
        assert(parts_view(self.parts@).subrange(0, self.parts@.len() as int) =~= parts_view(self.parts@));
        proof {
            if !self.absolute && self.parts@.len() == 0 {
                assert(text@ =~= Seq::<char>::empty());
            }
            if !self.absolute {
                assert(text@ =~= joined(parts_view(self.parts@)));
            }
        }
        text
    }

    /// Whether this path is `prefix` followed by zero or more components.
    pub fn starts_with(&self, prefix: &FsPath) -> (b: bool)
        ensures
            b == starts_with_spec(self@, prefix@),
    {
        if self.absolute != prefix.absolute || prefix.parts.len() > self.parts.len() {
            return false;
        }
        let mut i: usize = 0;
        while i < prefix.parts.len()
            invariant
                prefix.parts@.len() <= self.parts@.len(),
                i <= prefix.parts@.len(),
                forall|k: int| 0 <= k < i ==> self.parts@[k]@ == prefix.parts@[k]@,
            decreases prefix.parts.len() - i,
        {
            if !same_text(&self.parts[i], &prefix.parts[i]) {
                assert(self@.1.subrange(0, prefix@.1.len() as int)[i as int] != prefix@.1[i as int]);
                return false;
            }
            i = i + 1;
        }
        assert(self@.1.subrange(0, prefix@.1.len() as int) =~= prefix@.1);
        true
    }

    /// The relative path that follows `prefix`, or `None` if this path does
    /// not start with it.
    pub fn strip_prefix(&self, prefix: &FsPath) -> (rest: Option<FsPath>)
        ensures
            match rest {
                Some(r) => starts_with_spec(self@, prefix@) && r@ == (
                    false,
                    self@.1.subrange(prefix@.1.len() as int, self@.1.len() as int),
                ),
                None => !starts_with_spec(self@, prefix@),
            },
    {
        if !self.starts_with(prefix) {
            return None;
        }
        let mut parts: Vec<String> = Vec::new();
        let mut i: usize = prefix.parts.len();
        while i < self.parts.len()
            invariant
                prefix.parts@.len() <= i <= self.parts@.len(),
                parts_view(parts@) == parts_view(self.parts@).subrange(
                    prefix.parts@.len() as int,
                    i as int,
                ),
            decreases self.parts.len() - i,
        {
            let ghost before = parts@;
            let part = copy_string(&self.parts[i]);
            parts.push(part);
            i = i + 1;
            assert(parts@ == before.push(part));
            assert(parts_view(parts@) =~= parts_view(before).push(part@));
            assert(parts_view(parts@) =~= parts_view(self.parts@).subrange(
                prefix.parts@.len() as int,
                i as int,
            ));
        }
        Some(FsPath { absolute: false, parts })
    }

    /// The path without its last component, or `None` if it has none.
    pub fn parent(&self) -> (parent: Option<FsPath>)
        ensures
            match parent {
                Some(p) => self@.1.len() > 0 && p@ == (self@.0, self@.1.drop_last()),
                None => self@.1.len() == 0,
            },
    {
        if self.parts.len() == 0 {
            return None;
        }
        let mut parts = copy_strings(&self.parts);
        let _ = parts.pop();
        assert(parts_view(parts@) =~= parts_view(self.parts@).drop_last());
        Some(FsPath { absolute: self.absolute, parts })
    }

    /// This path with one more component.
    pub fn join(&self, part: &str) -> (joined: FsPath)
        ensures
            joined@ == (self@.0, self@.1.push(part@)),
    {
        let mut parts = copy_strings(&self.parts);
        parts.push(text::owned(part));
        assert(parts_view(parts@) =~= parts_view(self.parts@).push(part@));
        FsPath { absolute: self.absolute, parts }
    }

    /// The name of the last component, unless there is none or it is `..`.
    pub fn file_name(&self) -> (name: Option<String>)
        ensures
            match name {
                Some(n) => file_name_spec(self@) == Some(n@),
                None => file_name_spec(self@) is None,
            },
    {
        if self.parts.len() == 0 {
            return None;
        }
        let last = &self.parts[self.parts.len() - 1];
        let chars = text::chars_of(last.as_str());
        if chars.len() == 2 && chars[0] == '.' && chars[1] == '.' {
            assert(chars@ =~= seq!['.', '.']);
            return None;
        }
        proof {
            if chars@ == seq!['.', '.'] {
                assert(chars@[0] == '.' && chars@[1] == '.');
            }
        }
        Some(copy_string(last))
    }

    /// Whether two paths name the same components in the same way.
    pub fn same_as(&self, other: &FsPath) -> (same: bool)
        ensures
            same == (self@ == other@),
    {
        if self.parts.len() != other.parts.len() || self.absolute != other.absolute {
            return false;
        }
        let same = self.starts_with(other);
        proof {
            assert(self@.1 =~= self@.1.subrange(0, other@.1.len() as int));
            if self@ == other@ {
                assert(starts_with_spec(self@, other@));
            }
        }
        same
    }
}

/// The stem and extension of a file name.
pub fn split_file_name(name: &String) -> (split: (String, Option<String>))
    ensures
        split.0@ == split_name(name@).0,
        match split.1 {
            Some(e) => split_name(name@).1 == Some(e@),
            None => split_name(name@).1 is None,
        },
{
    let chars = text::chars_of(name.as_str());
    let mut at: usize = chars.len();
    while at > 0 && chars[at - 1] != '.'
        invariant
            at <= chars@.len(),
            chars@ == name@,
            forall|k: int| at <= k < chars@.len() ==> chars@[k] != '.',
        decreases at,
    {
        at = at - 1;
    }
    proof {
        lemma_last_dot(name@);
        if at > 0 {
            assert(last_dot(name@) == Some(at - 1));
        } else {
            assert(last_dot(name@) is None);
        }
    }
    if at <= 1 {
        return (copy_string(name), None);
    }
    let dot = at - 1;
    let mut stem: Vec<char> = Vec::new();
    let mut extension: Vec<char> = Vec::new();
    let mut i: usize = 0;
    while i < chars.len()
        invariant
            dot < chars@.len(),
            i <= chars@.len(),
            stem@ == chars@.subrange(0, if i < dot { i as int } else { dot as int }),
            extension@ == (if i <= dot + 1 { Seq::<char>::empty() } else { chars@.subrange(dot + 1, i as int) }),
        decreases chars.len() - i,
    {
        if i < dot {
            stem.push(chars[i]);
        } else if i > dot {
            extension.push(chars[i]);
        }
        i = i + 1;
        assert(stem@ =~= chars@.subrange(0, if i < dot { i as int } else { dot as int }));
        assert(extension@ =~= (if i <= dot + 1 { Seq::<char>::empty() } else { chars@.subrange(dot + 1, i as int) }));
    }
    proof {
        if dot + 1 == chars@.len() {
            assert(extension@ =~= chars@.subrange(dot + 1, chars@.len() as int));
        }
    }
    (text::string_of(&stem), Some(text::string_of(&extension)))
}

/// Whether a path reads back from its text: no component is empty or holds
/// a `/`, and a `.` stands only first in a relative path.
pub open spec fn plain_path(path: (bool, Seq<Seq<char>>)) -> bool {
    forall|i: int| 0 <= i < path.1.len() ==> {
        &&& (#[trigger] path.1[i]).len() > 0
        &&& !path.1[i].contains('/')
        &&& (path.1[i] == seq!['.'] ==> i == 0 && !path.0)
    }
}

/// Text without a `/` after a `/` is one more segment.
proof fn lemma_segments_slash(s: Seq<char>, t: Seq<char>)
    requires
        !t.contains('/'),
    ensures
        segments(s + seq!['/'] + t) == segments(s).push(t),
    decreases t.len(),
{
    if t.len() == 0 {
        assert(t =~= Seq::<char>::empty());
        assert(s + seq!['/'] + t =~= s.push('/'));
        assert((s.push('/')).drop_last() =~= s);
        assert((s.push('/')).last() == '/');
    } else {
        let front = t.drop_last();
        assert(!front.contains('/')) by {
            if front.contains('/') {
                let k = choose|k: int| 0 <= k < front.len() && front[k] == '/';
                assert(t[k] == '/');
            }
        }
        lemma_segments_slash(s, front);
        let whole = s + seq!['/'] + t;
        assert(whole.drop_last() =~= s + seq!['/'] + front);
        assert(whole.last() == t.last());
        assert(t.last() != '/') by {
            assert(t[t.len() - 1] == t.last());
        }
        let before = segments(s + seq!['/'] + front);
        assert(before == segments(s).push(front));
        assert(before.update(before.len() - 1, before.last().push(t.last())) =~= segments(s).push(t)) by {
            assert(front.push(t.last()) =~= t);
        }
    }
}

/// Text without a `/` is a single segment.
proof fn lemma_segments_single(t: Seq<char>)
    requires
        !t.contains('/'),
    ensures
        segments(t) == seq![t],
    decreases t.len(),
{
    if t.len() == 0 {
        assert(t =~= Seq::<char>::empty());
    } else {
        let front = t.drop_last();
        assert(!front.contains('/')) by {
            if front.contains('/') {
                let k = choose|k: int| 0 <= k < front.len() && front[k] == '/';
                assert(t[k] == '/');
            }
        }
        lemma_segments_single(front);
        assert(t.last() != '/') by {
            assert(t[t.len() - 1] == t.last());
        }
        assert(seq![front].update(0, front.push(t.last())) =~= seq![t]) by {
            assert(front.push(t.last()) =~= t);
        }
    }
}

/// Components without a `/`, joined after a `/`, are as many segments.
proof fn lemma_segments_after(s: Seq<char>, parts: Seq<Seq<char>>)
    requires
        parts.len() >= 1,
        forall|i: int| 0 <= i < parts.len() ==> !(#[trigger] parts[i]).contains('/'),
    ensures
        segments(s + seq!['/'] + joined(parts)) == segments(s) + parts,
    decreases parts.len(),
{
    if parts.len() == 1 {
        lemma_segments_slash(s, parts[0]);
        assert(segments(s).push(parts[0]) =~= segments(s) + parts);
    } else {
        let front = parts.drop_last();
        assert(forall|i: int| 0 <= i < front.len() ==> front[i] == parts[i]);
        lemma_segments_after(s, front);
        let prefix = s + seq!['/'] + joined(front);
        lemma_segments_slash(prefix, parts.last());
        assert(prefix + seq!['/'] + parts.last() =~= s + seq!['/'] + joined(parts));
        assert((segments(s) + front).push(parts.last()) =~= segments(s) + parts);
    }
}

/// Components without a `/`, joined, are as many segments.
proof fn lemma_segments_joined(parts: Seq<Seq<char>>)
    requires
        parts.len() >= 1,
        forall|i: int| 0 <= i < parts.len() ==> !(#[trigger] parts[i]).contains('/'),
    ensures
        segments(joined(parts)) == parts,
    decreases parts.len(),
{
    if parts.len() == 1 {
        lemma_segments_single(parts[0]);
        assert(seq![parts[0]] =~= parts);
    } else {
        let front = parts.drop_last();
        assert(forall|i: int| 0 <= i < front.len() ==> front[i] == parts[i]);
        lemma_segments_joined(front);
        lemma_segments_slash(joined(front), parts.last());
        assert(front.push(parts.last()) =~= parts);
    }
}

/// Joined components start with the first of them.
proof fn lemma_joined_starts(parts: Seq<Seq<char>>)
    requires
        parts.len() >= 1,
        parts[0].len() > 0,
    ensures
        joined(parts).len() > 0,
        joined(parts)[0] == parts[0][0],
    decreases parts.len(),
{
    if parts.len() > 1 {
        lemma_joined_starts(parts.drop_last());
    }
}

/// Segments that are all components are kept whole.
proof fn lemma_all_kept(all: Seq<Seq<char>>, n: int)
    requires
        0 <= n <= all.len(),
        forall|k: int| 0 <= k < all.len() ==> kept_segment(k, #[trigger] all[k]),
    ensures
        kept_segments(all, n) == all.take(n),
    decreases n,
{
    if n > 0 {
        lemma_all_kept(all, n - 1);
        assert(all.take(n - 1).push(all[n - 1]) =~= all.take(n));
    }
}

/// Behind an empty first segment, segments that are all components are kept.
proof fn lemma_kept_after_root(parts: Seq<Seq<char>>, n: int)
    requires
        0 <= n <= parts.len(),
        forall|k: int| 0 <= k < parts.len() ==> (#[trigger] parts[k]).len() > 0 && parts[k] != seq!['.'],
    ensures
        kept_segments(seq![Seq::<char>::empty()] + parts, n + 1) == parts.take(n),
    decreases n,
{
    let all = seq![Seq::<char>::empty()] + parts;
    if n == 0 {
        assert(all[0] == Seq::<char>::empty());
        assert(kept_segments(all, 0) == Seq::<Seq<char>>::empty());
        assert(parts.take(0) =~= Seq::<Seq<char>>::empty());
    } else {
        lemma_kept_after_root(parts, n - 1);
        assert(all[n] == parts[n - 1]);
        assert(parts.take(n - 1).push(parts[n - 1]) =~= parts.take(n));
    }
}

/// A plain path reads back from its text.
pub proof fn lemma_path_text_parses(path: (bool, Seq<Seq<char>>))
    requires
        plain_path(path),
    ensures
        parsed(path_text(path)) == path,
{
    let (absolute, parts) = path;
    assert forall|i: int| 0 <= i < parts.len() implies !(#[trigger] parts[i]).contains('/') by {
        assert(parts[i] == path.1[i]);
    }
    if absolute {
        let text = seq!['/'] + joined(parts);
        if parts.len() == 0 {
            assert(text =~= Seq::<char>::empty().push('/'));
            assert(text.drop_last() =~= Seq::<char>::empty());
            assert(text.last() == '/');
            assert(segments(Seq::<char>::empty()) == seq![Seq::<char>::empty()]);
            let all = segments(text);
            assert(all == seq![Seq::<char>::empty(), Seq::<char>::empty()]);
            assert(all[0] == Seq::<char>::empty() && all[1] == Seq::<char>::empty());
            assert(kept_segments(all, 0) == Seq::<Seq<char>>::empty());
            assert(kept_segments(all, 1) == Seq::<Seq<char>>::empty());
            assert(kept_segments(all, 2) =~= Seq::<Seq<char>>::empty());
        } else {
            lemma_segments_after(Seq::empty(), parts);
            assert(Seq::<char>::empty() + seq!['/'] + joined(parts) =~= text);
            assert(segments(Seq::<char>::empty()) == seq![Seq::<char>::empty()]);
            assert forall|k: int| 0 <= k < parts.len() implies (#[trigger] parts[k]).len() > 0 && parts[k]
                != seq!['.'] by {
                assert(parts[k] == path.1[k]);
            }
            lemma_kept_after_root(parts, parts.len() as int);
            assert(parts.take(parts.len() as int) =~= parts);
        }
        assert(text[0] == '/');
    } else if parts.len() == 0 {
        assert(path_text(path) == Seq::<char>::empty());
        assert(segments(Seq::<char>::empty()) == seq![Seq::<char>::empty()]);
        let all = seq![Seq::<char>::empty()];
        assert(all[0] == Seq::<char>::empty());
        assert(kept_segments(all, 0) == Seq::<Seq<char>>::empty());
        assert(kept_segments(all, 1) =~= Seq::<Seq<char>>::empty());
    } else {
        let text = joined(parts);
        lemma_segments_joined(parts);
        assert forall|k: int| 0 <= k < parts.len() implies kept_segment(k, #[trigger] parts[k]) by {
            assert(parts[k] == path.1[k]);
        }
        lemma_all_kept(parts, parts.len() as int);
        assert(parts.take(parts.len() as int) =~= parts);
        lemma_joined_starts(parts);
        assert(parts[0].len() > 0);
        assert(parts[0][0] != '/') by {
            assert(!parts[0].contains('/'));
            if parts[0][0] == '/' {
                assert(parts[0].contains('/'));
            }
        }
    }
}

} // verus!
