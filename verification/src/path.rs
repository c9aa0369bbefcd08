//! Unix paths as byte strings: their components, joining and comparison.

use vstd::prelude::*;
use vstd::slice::*;
use vstd::string::*;

use crate::text::bytes_equal;

verus! {

/// The byte that separates the components of a path.
pub const SEPARATOR: u8 = 47;

/// The byte that the names of the current and the parent directory are made
/// of.
pub const DOT: u8 = 46;

/// A path in the file system, as the bytes that name it.
#[derive(Debug, Clone)]
pub struct FsPath {
    pub bytes: Vec<u8>,
}

impl View for FsPath {
    type V = Seq<u8>;

    open spec fn view(&self) -> Seq<u8> {
        self.bytes@
    }
}

/// A component of a path.
#[derive(Debug)]
pub enum Component {
    RootDir,
    CurDir,
    ParentDir,
    Normal(Vec<u8>),
}

/// What a [`Component`] stands for.
pub enum Part {
    Root,
    Here,
    Up,
    Name(Seq<u8>),
}

impl View for Component {
    type V = Part;

    open spec fn view(&self) -> Part {
        match self {
            Component::RootDir => Part::Root,
            Component::CurDir => Part::Here,
            Component::ParentDir => Part::Up,
            Component::Normal(name) => Part::Name(name@),
        }
    }
}

/// The length of the first piece of `p`, up to its first separator.
pub open spec fn piece_end(p: Seq<u8>) -> nat
    decreases p.len(),
{
    if p.len() == 0 || p[0] == SEPARATOR {
        0
    } else {
        1 + piece_end(p.skip(1))
    }
}

/// The component that a piece between separators stands for: none where the
/// piece is empty or a single dot.
pub open spec fn piece_parts(piece: Seq<u8>) -> Seq<Part> {
    if piece.len() == 0 || piece == seq![DOT] {
        seq![]
    } else if piece == seq![DOT, DOT] {
        seq![Part::Up]
    } else {
        seq![Part::Name(piece)]
    }
}

/// The components of `p` apart from a root or a leading dot.
pub open spec fn tail_parts(p: Seq<u8>) -> Seq<Part>
    decreases p.len(),
{
    if p.len() == 0 {
        seq![]
    } else {
        let n = piece_end(p) as int;
        if n < p.len() {
            piece_parts(p.take(n)) + tail_parts(p.skip(n + 1))
        } else {
            piece_parts(p.take(n))
        }
    }
}

/// The root or the leading dot of `p`, if it has one.
pub open spec fn head_parts(p: Seq<u8>) -> Seq<Part> {
    if p.len() > 0 && p[0] == SEPARATOR {
        seq![Part::Root]
    } else if p.take(piece_end(p) as int) == seq![DOT] {
        seq![Part::Here]
    } else {
        seq![]
    }
}

/// The components of the path `p`. Repeated and trailing separators count for
/// nothing, nor does a single dot unless it comes first.
pub open spec fn parts(p: Seq<u8>) -> Seq<Part> {
    head_parts(p) + tail_parts(p)
}

/// Whether `p` starts at the root.
pub open spec fn is_absolute(p: Seq<u8>) -> bool {
    p.len() > 0 && p[0] == SEPARATOR
}

/// The path `rel` taken from the directory `base`: `rel` itself where it is
/// absolute.
pub open spec fn joined(base: Seq<u8>, rel: Seq<u8>) -> Seq<u8> {
    if is_absolute(rel) {
        rel
    } else if base.len() == 0 || base.last() == SEPARATOR {
        base + rel
    } else {
        base + seq![SEPARATOR] + rel
    }
}

/// The last component of `p`, if it is a name.
pub open spec fn file_name(p: Seq<u8>) -> Option<Seq<u8>> {
    if parts(p).len() > 0 && parts(p).last() is Name {
        Some(parts(p).last()->Name_0)
    } else {
        None
    }
}

/// Whether the components of `base` come first among those of `p`.
pub open spec fn is_within(p: Seq<u8>, base: Seq<u8>) -> bool {
    parts(base).is_prefix_of(parts(p))
}

/// Where the component `part` leads from `place`: a parent directory takes the
/// last name back, and the root is its own parent.
pub open spec fn stepped(place: Seq<Part>, part: Part) -> Seq<Part> {
    match part {
        Part::Here => place,
        Part::Up => if place.len() > 0 && place.last() is Name {
            place.drop_last()
        } else if place.len() > 0 && place.last() is Root {
            place
        } else {
            place.push(part)
        },
        _ => place.push(part),
    }
}

/// The place that the components `list` lead to, where no link is on the way.
pub open spec fn resolved(list: Seq<Part>) -> Seq<Part>
    decreases list.len(),
{
    if list.len() == 0 {
        seq![]
    } else {
        stepped(resolved(list.drop_last()), list.last())
    }
}

/// Whether two paths lead to the same place, where no link is on the way.
pub open spec fn is_same_place(p: Seq<u8>, q: Seq<u8>) -> bool {
    resolved(parts(p)) == resolved(parts(q))
}

/// Whether `p` leads to the place that `base` leads to, or to one below it,
/// where no link is on the way.
pub open spec fn is_enclosed(p: Seq<u8>, base: Seq<u8>) -> bool {
    resolved(parts(base)).is_prefix_of(resolved(parts(p)))
}

/// What the components of `list` stand for.
pub open spec fn part_views(list: Seq<Component>) -> Seq<Part> {
    Seq::new(list.len(), |i: int| list[i]@)
}

/// A piece is no longer than the path, holds no separator, and ends the path
/// or comes before one.
pub proof fn lemma_piece_end(p: Seq<u8>)
    ensures
        piece_end(p) <= p.len(),
        forall|i: int| 0 <= i < piece_end(p) ==> p[i] != SEPARATOR,
        piece_end(p) < p.len() ==> p[piece_end(p) as int] == SEPARATOR,
    decreases p.len(),
{
    if p.len() > 0 && p[0] != SEPARATOR {
        lemma_piece_end(p.skip(1));
        assert forall|i: int| 0 <= i < piece_end(p) implies p[i] != SEPARATOR by {
            if i > 0 {
                assert(p.skip(1)[i - 1] == p[i]);
            }
        }
    }
}

/// The first piece of `p` is the run of bytes up to its first separator.
pub proof fn lemma_piece_end_is(p: Seq<u8>, n: int)
    requires
        0 <= n <= p.len(),
        forall|i: int| 0 <= i < n ==> p[i] != SEPARATOR,
        n < p.len() ==> p[n] == SEPARATOR,
    ensures
        piece_end(p) == n,
{
    lemma_piece_end(p);
    let m = piece_end(p) as int;
    if m < n {
        assert(p[m] != SEPARATOR);
    } else if n < m {
        assert(p[n] != SEPARATOR);
    }
}

/// A trailing separator adds no component.
pub proof fn lemma_tail_parts_trailing_separator(p: Seq<u8>)
    ensures
        tail_parts(p + seq![SEPARATOR]) == tail_parts(p),
    decreases p.len(),
{
    let q = p + seq![SEPARATOR];
    lemma_piece_end(p);
    let n = piece_end(p) as int;
    assert forall|i: int| 0 <= i < n implies q[i] != SEPARATOR by {
        assert(q[i] == p[i]);
    }
    lemma_piece_end_is(q, n);
    assert(q.take(n) =~= p.take(n));
    if n < p.len() {
        assert(q.skip(n + 1) =~= p.skip(n + 1) + seq![SEPARATOR]);
        lemma_tail_parts_trailing_separator(p.skip(n + 1));
    } else {
        assert(q.skip(n + 1) =~= Seq::<u8>::empty());
        assert(tail_parts(q.skip(n + 1)) == Seq::<Part>::empty());
        assert(tail_parts(q) =~= piece_parts(p.take(n)));
        if p.len() == 0 {
            assert(p.take(n) =~= Seq::<u8>::empty());
        }
    }
}

/// The components of a path that continues behind a separator are those of
/// its two halves.
pub proof fn lemma_tail_parts_split(a: Seq<u8>, b: Seq<u8>)
    requires
        a.len() > 0,
        a.last() == SEPARATOR,
    ensures
        tail_parts(a + b) == tail_parts(a) + tail_parts(b),
    decreases a.len(),
{
    let q = a + b;
    lemma_piece_end(a);
    let n = piece_end(a) as int;
    if n == a.len() {
        assert(a[a.len() - 1] != SEPARATOR);
    }
    assert forall|i: int| 0 <= i < n implies q[i] != SEPARATOR by {
        assert(q[i] == a[i]);
    }
    lemma_piece_end_is(q, n);
    assert(q.take(n) =~= a.take(n));
    assert(q.skip(n + 1) =~= a.skip(n + 1) + b);
    if n + 1 == a.len() {
        assert(a.skip(n + 1) =~= Seq::<u8>::empty());
        assert(a.skip(n + 1) + b =~= b);
        assert(tail_parts(a.skip(n + 1)) == Seq::<Part>::empty());
        assert(tail_parts(a) =~= piece_parts(a.take(n)));
    } else {
        assert(a.skip(n + 1).last() == SEPARATOR);
        lemma_tail_parts_split(a.skip(n + 1), b);
    }
    assert(tail_parts(q) =~= tail_parts(a) + tail_parts(b));
}

/// Joining a relative path to a directory appends its components.
pub proof fn lemma_parts_of_joined(base: Seq<u8>, rel: Seq<u8>)
    requires
        base.len() > 0,
        !is_absolute(rel),
    ensures
        parts(joined(base, rel)) == parts(base) + tail_parts(rel),
{
    let whole = joined(base, rel);
    let stem = if base.last() == SEPARATOR {
        base
    } else {
        base + seq![SEPARATOR]
    };
    assert(whole =~= stem + rel);
    assert(stem.last() == SEPARATOR);
    lemma_tail_parts_split(stem, rel);
    if base.last() != SEPARATOR {
        lemma_tail_parts_trailing_separator(base);
    }
    lemma_piece_end(base);
    let n = piece_end(base) as int;
    assert forall|i: int| 0 <= i < n implies whole[i] != SEPARATOR by {
        assert(whole[i] == base[i]);
    }
    if n == base.len() {
        assert(base[n - 1] != SEPARATOR);
        assert(stem[n] == SEPARATOR);
    }
    lemma_piece_end_is(whole, n);
    assert(whole.take(n) =~= base.take(n));
    assert(head_parts(whole) == head_parts(base));
    assert(parts(whole) =~= parts(base) + tail_parts(rel));
}

/// The components behind a path's head are names or parent directories.
pub proof fn lemma_tail_parts_kinds(p: Seq<u8>)
    ensures
        forall|i: int|
            0 <= i < tail_parts(p).len() ==> (#[trigger] tail_parts(p)[i]) is Name || tail_parts(
                p,
            )[i] is Up,
    decreases p.len(),
{
    if p.len() > 0 {
        let n = piece_end(p) as int;
        if n < p.len() {
            lemma_tail_parts_kinds(p.skip(n + 1));
        }
    }
}

/// Whether `name` can name an entry of a directory: it is not empty, holds no
/// separator, and is neither of the two names made of dots.
pub open spec fn is_plain_name(name: Seq<u8>) -> bool {
    &&& name.len() > 0
    &&& forall|i: int| 0 <= i < name.len() ==> name[i] != SEPARATOR
    &&& name != seq![DOT]
    &&& name != seq![DOT, DOT]
}

/// The names among the components of a path are plain.
pub proof fn lemma_tail_parts_names(p: Seq<u8>)
    ensures
        forall|i: int|
            0 <= i < tail_parts(p).len() && (#[trigger] tail_parts(p)[i]) is Name ==> is_plain_name(
                tail_parts(p)[i]->Name_0,
            ),
    decreases p.len(),
{
    if p.len() > 0 {
        lemma_piece_end(p);
        let n = piece_end(p) as int;
        if n < p.len() {
            lemma_tail_parts_names(p.skip(n + 1));
        }
    }
}

/// A plain name is a path of one component.
pub proof fn lemma_plain_name_parts(name: Seq<u8>)
    requires
        is_plain_name(name),
    ensures
        !is_absolute(name),
        tail_parts(name) == seq![Part::Name(name)],
        parts(name) == seq![Part::Name(name)],
{
    lemma_piece_end_is(name, name.len() as int);
    assert(name.take(name.len() as int) =~= name);
    assert(parts(name) =~= seq![Part::Name(name)]);
}

/// A name leads on from the place before it.
pub proof fn lemma_resolved_name(list: Seq<Part>, name: Seq<u8>)
    ensures
        resolved(list.push(Part::Name(name))) == resolved(list).push(Part::Name(name)),
{
    let longer = list.push(Part::Name(name));
    assert(longer.drop_last() =~= list);
}

/// A path taken from a directory is the directory, a separator where it does not
/// end in one, and the path, all byte for byte. An absolute path stands for
/// itself, and so does any path where there is no directory.
pub proof fn lemma_joined_keeps_both(base: Seq<u8>, rel: Seq<u8>)
    ensures
        rel.len() > 0 && rel[0] == SEPARATOR ==> joined(base, rel) == rel,
        base.len() == 0 ==> joined(base, rel) == rel,
        !(rel.len() > 0 && rel[0] == SEPARATOR) && base.len() > 0 ==> {
            let whole = joined(base, rel);
            let between = if base[base.len() - 1] == SEPARATOR {
                0int
            } else {
                1
            };
            &&& whole.len() == base.len() + between + rel.len()
            &&& forall|i: int| 0 <= i < base.len() ==> whole[i] == base[i]
            &&& between == 1 ==> whole[base.len() as int] == SEPARATOR
            &&& forall|i: int|
                0 <= i < rel.len() ==> whole[base.len() + between + i] == #[trigger] rel[i]
        },
{
    if base.len() == 0 {
        assert(base + rel =~= rel);
    }
}

/// A component shows what it is, and a path and a name show their bytes.
pub proof fn lemma_component_shows_what_it_is(component: Component, path: FsPath)
    ensures
        component is RootDir <==> component@ is Root,
        component is CurDir <==> component@ is Here,
        component is ParentDir <==> component@ is Up,
        component is Normal ==> component@ == Part::Name(component->Normal_0@),
        path@ == path.bytes@,
{
}

/// The components of a piece without a separator: none where it is empty or a
/// dot, the parent directory where it is two dots, and otherwise its name.
pub proof fn lemma_piece_is_a_component(piece: Seq<u8>)
    requires
        forall|i: int| 0 <= i < piece.len() ==> piece[i] != SEPARATOR,
    ensures
        piece.len() == 0 ==> tail_parts(piece) == Seq::<Part>::empty(),
        piece == seq![DOT] ==> tail_parts(piece) == Seq::<Part>::empty(),
        piece == seq![DOT, DOT] ==> tail_parts(piece) == seq![Part::Up],
        piece.len() > 0 && piece != seq![DOT] && piece != seq![DOT, DOT] ==> tail_parts(piece)
            == seq![Part::Name(piece)],
{
    lemma_piece_end_is(piece, piece.len() as int);
    assert(piece.take(piece.len() as int) =~= piece);
    assert(seq![DOT, DOT].len() == 2 && seq![DOT].len() == 1);
}

/// The components of a path are those of its pieces: what comes before a
/// separator, and what comes behind it. A root comes first where the path
/// starts with a separator, and a leading dot where that is its first piece;
/// and the last is the name of the file where it is a name.
pub proof fn lemma_path_is_its_pieces(head: Seq<u8>, tail: Seq<u8>)
    requires
        forall|i: int| 0 <= i < head.len() ==> head[i] != SEPARATOR,
    ensures
        ({
            let whole = head + seq![SEPARATOR] + tail;
            let list = tail_parts(head) + tail_parts(tail);
            &&& head.len() == 0 ==> parts(whole) == seq![Part::Root] + list
            &&& head == seq![DOT] ==> parts(whole) == seq![Part::Here] + list
            &&& head.len() > 0 && head != seq![DOT] ==> parts(whole) == list
            &&& head == seq![DOT] ==> parts(head) == seq![Part::Here]
            &&& head != seq![DOT] ==> parts(head) == tail_parts(head)
            &&& file_name(whole) is Some <==> parts(whole).len() > 0 && parts(whole)[parts(
                whole,
            ).len() - 1] is Name
            &&& file_name(whole) is Some ==> parts(whole)[parts(whole).len() - 1] == Part::Name(
                file_name(whole)->0,
            )
        }),
{
    let stem = head + seq![SEPARATOR];
    let whole = stem + tail;
    lemma_tail_parts_split(stem, tail);
    lemma_tail_parts_trailing_separator(head);
    assert forall|i: int| 0 <= i < head.len() implies whole[i] != SEPARATOR by {
        assert(whole[i] == head[i]);
    }
    assert(whole[head.len() as int] == SEPARATOR);
    lemma_piece_end_is(whole, head.len() as int);
    assert(whole.take(head.len() as int) =~= head);
    lemma_piece_end_is(head, head.len() as int);
    assert(head.take(head.len() as int) =~= head);
    assert(seq![DOT].len() == 1);
    lemma_piece_is_a_component(head);
    assert(parts(head) =~= head_parts(head) + tail_parts(head));
    assert(head != seq![DOT] ==> parts(head) =~= tail_parts(head));
    assert(parts(whole) =~= head_parts(whole) + (tail_parts(head) + tail_parts(tail)));
    assert(head.len() > 0 && head != seq![DOT] ==> parts(whole) =~= tail_parts(head)
        + tail_parts(tail));
}

/// Where components lead: a name leads on, a dot stays, a parent directory takes
/// a name back, and from the root there is no way up.
pub proof fn lemma_place_of_components(list: Seq<Part>, name: Seq<u8>)
    ensures
        resolved(Seq::<Part>::empty()) == Seq::<Part>::empty(),
        resolved(seq![Part::Root]) == seq![Part::Root],
        resolved(list.push(Part::Name(name))) == resolved(list).push(Part::Name(name)),
        resolved(list.push(Part::Here)) == resolved(list),
        resolved(list.push(Part::Name(name)).push(Part::Up)) == resolved(list),
        resolved(list) == seq![Part::Root] ==> resolved(list.push(Part::Up)) == seq![Part::Root],
        resolved(list).len() == 0 || resolved(list)[resolved(list).len() - 1] is Up ==> resolved(
            list.push(Part::Up),
        ) == resolved(list).push(Part::Up),
{
    lemma_resolved_name(list, name);
    let named = list.push(Part::Name(name));
    assert(named.push(Part::Up).drop_last() =~= named);
    assert(list.push(Part::Here).drop_last() =~= list);
    assert(list.push(Part::Up).drop_last() =~= list);
    assert(resolved(list).push(Part::Name(name)).drop_last() =~= resolved(list));
    assert(seq![Part::Root].drop_last() =~= Seq::<Part>::empty());
    assert(Seq::<Part>::empty().push(Part::Root) =~= seq![Part::Root]);
    reveal_with_fuel(resolved, 2);
    assert(resolved(seq![Part::Root]) =~= seq![Part::Root]);
}

/// The component that `piece` stands for, if any.
fn piece_component(piece: Vec<u8>) -> (component: Option<Component>)
    ensures
        match component {
            Some(c) => piece_parts(piece@) == seq![c@],
            None => piece_parts(piece@) == Seq::<Part>::empty(),
        },
{
    if piece.len() == 0 {
        None
    } else if piece.len() == 1 && piece[0] == DOT {
        assert(piece@ =~= seq![DOT]);
        None
    } else if piece.len() == 2 && piece[0] == DOT && piece[1] == DOT {
        assert(piece@ =~= seq![DOT, DOT]);
        Some(Component::ParentDir)
    } else {
        assert(piece@ != seq![DOT] && piece@ != seq![DOT, DOT]);
        Some(Component::Normal(piece))
    }
}

/// Whether two components are the same.
pub fn same_component(a: &Component, b: &Component) -> (same: bool)
    ensures
        same == (a@ == b@),
{
    match (a, b) {
        (Component::RootDir, Component::RootDir) => true,
        (Component::CurDir, Component::CurDir) => true,
        (Component::ParentDir, Component::ParentDir) => true,
        (Component::Normal(x), Component::Normal(y)) => bytes_equal(x.as_slice(), y.as_slice()),
        _ => false,
    }
}

impl FsPath {
    /// The path that `text` names.
    pub fn from_text(text: &str) -> (path: FsPath)
        ensures
            path@ == text.spec_bytes(),
    {
        FsPath { bytes: text.as_bytes_vec() }
    }

    /// Another copy of the path.
    pub fn duplicate(&self) -> (path: FsPath)
        ensures
            path@ == self@,
    {
        FsPath { bytes: slice_to_vec(self.bytes.as_slice()) }
    }

    /// The path `rel` taken from this directory.
    pub fn join(&self, rel: &FsPath) -> (path: FsPath)
        ensures
            path@ == joined(self@, rel@),
    {
        if rel.bytes.len() > 0 && rel.bytes[0] == SEPARATOR {
            return rel.duplicate();
        }
        let mut bytes: Vec<u8> = slice_to_vec(self.bytes.as_slice());
        if self.bytes.len() > 0 && self.bytes[self.bytes.len() - 1] != SEPARATOR {
            bytes.push(SEPARATOR);
        }
        let mut tail: Vec<u8> = slice_to_vec(rel.bytes.as_slice());
        bytes.append(&mut tail);
        assert(bytes@ =~= joined(self@, rel@));
        FsPath { bytes }
    }

    /// The path that `rel` names, taken from this directory.
    pub fn join_text(&self, rel: &str) -> (path: FsPath)
        ensures
            path@ == joined(self@, rel.spec_bytes()),
    {
        self.join(&FsPath::from_text(rel))
    }

    /// The components of the path.
    pub fn components(&self) -> (list: Vec<Component>)
        ensures
            part_views(list@) == parts(self@),
    {
        let ghost p = self@;
        let len: usize = self.bytes.len();
        let mut list: Vec<Component> = Vec::new();
        let mut start: usize = 0;
        let mut first: bool = true;
        while start < len
            invariant
                p == self@,
                len == p.len(),
                start <= len,
                first ==> start == 0 && list@.len() == 0,
                !first ==> part_views(list@) + tail_parts(p.skip(start as int)) == parts(p),
            decreases len - start,
        {
            let mut end: usize = start;
            let mut piece: Vec<u8> = Vec::new();
            while end < len && self.bytes[end] != SEPARATOR
                invariant
                    p == self@,
                    len == p.len(),
                    start <= end <= len,
                    forall|i: int| start <= i < end ==> p[i] != SEPARATOR,
                    piece@ == p.subrange(start as int, end as int),
                decreases len - end,
            {
                piece.push(self.bytes[end]);
                end = end + 1;
                assert(piece@ =~= p.subrange(start as int, end as int));
            }
            let ghost rest = p.skip(start as int);
            let ghost before = part_views(list@);
            proof {
                assert forall|i: int| 0 <= i < end - start implies rest[i] != SEPARATOR by {
                    assert(rest[i] == p[start + i]);
                }
                lemma_piece_end_is(rest, end - start);
                assert(rest.take(end - start) =~= p.subrange(start as int, end as int));
                if end < len {
                    assert(rest.skip(end - start + 1) =~= p.skip(end + 1));
                }
            }
            if first {
                proof {
                    assert(rest =~= p);
                }
                if end == 0 {
                    list.push(Component::RootDir);
                } else if end == 1 && self.bytes[0] == DOT {
                    assert(piece@ =~= seq![DOT]);
                    list.push(Component::CurDir);
                } else {
                    assert(piece@ != seq![DOT]);
                }
                first = false;
                assert(part_views(list@) =~= head_parts(p));
            }
            let ghost middle = part_views(list@);
            assert(middle + tail_parts(rest) == parts(p));
            match piece_component(piece) {
                Some(c) => {
                    let ghost part = c@;
                    let ghost shorter = list@;
                    list.push(c);
                    assert(part_views(list@) =~= part_views(shorter).push(part));
                },
                None => {},
            }
            assert(part_views(list@) =~= middle + piece_parts(
                p.subrange(start as int, end as int),
            ));
            if end < len {
                start = end + 1;
                proof {
                    assert(part_views(list@) + tail_parts(p.skip(start as int)) =~= middle
                        + tail_parts(rest));
                }
            } else {
                start = len;
                proof {
                    assert(p.skip(len as int) =~= Seq::<u8>::empty());
                    assert(part_views(list@) + tail_parts(p.skip(start as int)) =~= middle
                        + tail_parts(rest));
                }
            }
        }
        proof {
            assert(p.skip(len as int) =~= Seq::<u8>::empty());
            if first {
                assert(p.take(0) =~= Seq::<u8>::empty());
                assert(parts(p) =~= Seq::<Part>::empty());
            }
            assert(part_views(list@) =~= parts(p));
        }
        list
    }

    /// The last component of the path, if it is a name.
    pub fn file_name(&self) -> (name: Option<Vec<u8>>)
        ensures
            match name {
                Some(n) => file_name(self@) == Some(n@),
                None => file_name(self@) is None,
            },
    {
        let mut list: Vec<Component> = self.components();
        let ghost all = list@;
        assert(part_views(all).len() == all.len());
        match list.pop() {
            Some(Component::Normal(name)) => {
                assert(part_views(all).last() == all.last()@);
                Some(name)
            },
            _ => {
                assert(all.len() > 0 ==> part_views(all).last() == all.last()@);
                None
            },
        }
    }

    /// Whether the components of `base` come first among those of this path.
    pub fn starts_with(&self, base: &FsPath) -> (within: bool)
        ensures
            within == is_within(self@, base@),
    {
        let mine: Vec<Component> = self.components();
        let theirs: Vec<Component> = base.components();
        assert(part_views(mine@).len() == mine@.len());
        assert(part_views(theirs@).len() == theirs@.len());
        if theirs.len() > mine.len() {
            return false;
        }
        let mut i: usize = 0;
        while i < theirs.len()
            invariant
                i <= theirs.len() <= mine.len(),
                part_views(mine@) == parts(self@),
                part_views(theirs@) == parts(base@),
                forall|j: int| 0 <= j < i ==> parts(self@)[j] == parts(base@)[j],
            decreases theirs.len() - i,
        {
            assert(part_views(mine@)[i as int] == mine@[i as int]@);
            assert(part_views(theirs@)[i as int] == theirs@[i as int]@);
            if !same_component(&mine[i], &theirs[i]) {
                assert(parts(self@).take(parts(base@).len() as int)[i as int] != parts(
                    base@,
                )[i as int]);
                return false;
            }
            i = i + 1;
        }
        assert(parts(self@).take(parts(base@).len() as int) =~= parts(base@));
        true
    }

    /// The components of the place that the path leads to.
    #[verifier::rlimit(30)]
    pub fn resolve(&self) -> (place: Vec<Component>)
        ensures
            part_views(place@) == resolved(parts(self@)),
    {
        let list: Vec<Component> = self.components();
        let ghost all = part_views(list@);
        let mut place: Vec<Component> = Vec::new();
        let mut i: usize = 0;
        assert(part_views(place@) =~= resolved(all.take(0)));
        while i < list.len()
            invariant
                i <= list.len(),
                all == part_views(list@),
                part_views(place@) == resolved(all.take(i as int)),
            decreases list.len() - i,
        {
            let ghost before = place@;
            proof {
                assert(all.take(i + 1).drop_last() =~= all.take(i as int));
                assert(all.take(i + 1).last() == list@[i as int]@);
                assert(part_views(before).len() == before.len());
                assert(before.len() > 0 ==> part_views(before).last() == before.last()@);
            }
            match &list[i] {
                Component::RootDir => {
                    place.push(Component::RootDir);
                    assert(part_views(place@) =~= part_views(before).push(Part::Root));
                },
                Component::CurDir => {},
                Component::ParentDir => {
                    let count: usize = place.len();
                    if count > 0 && matches!(&place[count - 1], Component::Normal(_)) {
                        place.pop();
                        assert(part_views(place@) =~= part_views(before).drop_last());
                    } else if count > 0 && matches!(&place[count - 1], Component::RootDir) {
                    } else {
                        place.push(Component::ParentDir);
                        assert(part_views(place@) =~= part_views(before).push(Part::Up));
                    }
                },
                Component::Normal(name) => {
                    place.push(Component::Normal(slice_to_vec(name.as_slice())));
                    assert(part_views(place@) =~= part_views(before).push(Part::Name(name@)));
                },
            }
            i = i + 1;
        }
        assert(all.take(all.len() as int) =~= all);
        place
    }

    /// Whether a path leads to the place of this one, or to one below it.
    pub fn encloses(&self, other: &FsPath) -> (inside: bool)
        ensures
            inside == is_enclosed(other@, self@),
    {
        let mine: Vec<Component> = self.resolve();
        let theirs: Vec<Component> = other.resolve();
        let ghost place = part_views(mine@);
        let ghost inner = part_views(theirs@);
        assert(place.len() == mine@.len() && inner.len() == theirs@.len());
        if mine.len() > theirs.len() {
            return false;
        }
        let mut i: usize = 0;
        while i < mine.len()
            invariant
                i <= mine.len() <= theirs.len(),
                place == part_views(mine@),
                inner == part_views(theirs@),
                place == resolved(parts(self@)),
                inner == resolved(parts(other@)),
                forall|j: int| 0 <= j < i ==> place[j] == inner[j],
            decreases mine.len() - i,
        {
            assert(place[i as int] == mine@[i as int]@);
            assert(inner[i as int] == theirs@[i as int]@);
            if !same_component(&mine[i], &theirs[i]) {
                assert(inner.take(place.len() as int)[i as int] != place[i as int]);
                return false;
            }
            i = i + 1;
        }
        assert(inner.take(place.len() as int) =~= place);
        true
    }
}

} // verus!
