//! Paths as lists of parts: their order, and the names at their ends.

use vstd::prelude::*;

use crate::bytes::{strict_text, utf8_name};
use crate::order::{
    bytes_lt,
    law_bytes_total,
    law_lex_first_difference,
    law_lex_irreflexive,
    law_lex_total,
    law_lex_transitive,
    lemma_lex_skip,
    lex,
    place_bytes,
    total,
    Placing,
};

verus! {

/// One part of a path. Strings of bytes are in the encoding of the platform,
/// of which UTF-8 is a part.
pub enum PathPart {
    /// A verbatim prefix such as `\\?\pictures`.
    Verbatim(Vec<u8>),
    /// A verbatim prefix with a server and a share.
    VerbatimShare(Vec<u8>, Vec<u8>),
    /// A verbatim prefix with a disk.
    VerbatimDisk(u8),
    /// A prefix that names a device.
    Device(Vec<u8>),
    /// A prefix with a server and a share.
    Share(Vec<u8>, Vec<u8>),
    /// A prefix that names a disk.
    Disk(u8),
    /// The root directory.
    Root,
    /// The current directory.
    Current,
    /// The parent directory.
    Parent,
    /// A name.
    Name(Vec<u8>),
}

/// The view of a part: its kind, by the order of the kinds, and what it spells.
pub struct PartView {
    pub kind: int,
    pub first: Seq<u8>,
    pub second: Seq<u8>,
}

/// The kind of a part that is a name.
pub open spec fn name_kind() -> int {
    9
}

impl View for PathPart {
    type V = PartView;

    open spec fn view(&self) -> PartView {
        match *self {
            PathPart::Verbatim(a) => PartView { kind: 0, first: a@, second: seq![] },
            PathPart::VerbatimShare(a, b) => PartView { kind: 1, first: a@, second: b@ },
            PathPart::VerbatimDisk(d) => PartView { kind: 2, first: seq![d], second: seq![] },
            PathPart::Device(a) => PartView { kind: 3, first: a@, second: seq![] },
            PathPart::Share(a, b) => PartView { kind: 4, first: a@, second: b@ },
            PathPart::Disk(d) => PartView { kind: 5, first: seq![d], second: seq![] },
            PathPart::Root => PartView { kind: 6, first: seq![], second: seq![] },
            PathPart::Current => PartView { kind: 7, first: seq![], second: seq![] },
            PathPart::Parent => PartView { kind: 8, first: seq![], second: seq![] },
            PathPart::Name(a) => PartView { kind: name_kind(), first: a@, second: seq![] },
        }
    }
}

/// The views of a list of parts.
pub open spec fn part_views(parts: Seq<PathPart>) -> Seq<PartView> {
    parts.map_values(|p: PathPart| p@)
}

/// The order of parts: by kind, then by what they spell.
pub open spec fn part_lt() -> spec_fn(PartView, PartView) -> bool {
    |x: PartView, y: PartView|
        if x.kind != y.kind {
            x.kind < y.kind
        } else if x.first != y.first {
            bytes_lt(x.first, y.first)
        } else {
            bytes_lt(x.second, y.second)
        }
}

/// The order of paths: part by part.
pub open spec fn path_lt(a: Seq<PartView>, b: Seq<PartView>) -> bool {
    lex(part_lt(), a, b)
}

proof fn lemma_parts_total()
    ensures
        total(part_lt()),
{
    law_bytes_total();
    let bytes = |a: Seq<u8>, b: Seq<u8>| bytes_lt(a, b);
    let lt = part_lt();
    assert forall|x: PartView| !(#[trigger] lt(x, x)) by {
        assert(!bytes(x.second, x.second));
    }
    assert forall|x: PartView, y: PartView| x != y implies #[trigger] lt(x, y) || lt(y, x) by {
        if x.first != y.first {
            assert(bytes(x.first, y.first) || bytes(y.first, x.first));
        } else if x.second != y.second {
            assert(bytes(x.second, y.second) || bytes(y.second, x.second));
        }
    }
    assert forall|x: PartView, y: PartView, z: PartView| #[trigger]
        lt(x, y) && #[trigger] lt(y, z) implies lt(x, z) by {
        if x.kind == y.kind && y.kind == z.kind {
            if x.first != y.first && y.first != z.first {
                assert(bytes(x.first, y.first) && bytes(y.first, z.first));
                assert(bytes(x.first, z.first));
                assert(!bytes(x.first, x.first));
            } else if x.first == y.first && y.first == z.first {
                assert(bytes(x.second, y.second) && bytes(y.second, z.second));
                assert(bytes(x.second, z.second));
            }
        }
    }
}

/// No path comes before itself.
pub proof fn law_path_irreflexive(a: Seq<PartView>)
    ensures
        !path_lt(a, a),
{
    law_lex_irreflexive(part_lt(), a);
}

/// Of two different paths one comes first.
pub proof fn law_path_total(a: Seq<PartView>, b: Seq<PartView>)
    ensures
        a == b || path_lt(a, b) || path_lt(b, a),
{
    lemma_parts_total();
    law_lex_total(part_lt(), a, b);
}

/// What comes before a path comes before all that follow it.
pub proof fn law_path_transitive(a: Seq<PartView>, b: Seq<PartView>, c: Seq<PartView>)
    requires
        path_lt(a, b),
        path_lt(b, c),
    ensures
        path_lt(a, c),
{
    lemma_parts_total();
    law_lex_transitive(part_lt(), a, b, c);
}

fn one_byte(b: u8) -> (r: Vec<u8>)
    ensures
        r@ == seq![b],
{
    let mut v: Vec<u8> = Vec::new();
    v.push(b);
    proof {
        assert(v@ =~= seq![b]);
    }
    v
}

impl PathPart {
    /// The kind of the part, and what it spells.
    fn spelled(&self) -> (r: (u8, Vec<u8>, Vec<u8>))
        ensures
            self@ == (PartView { kind: r.0 as int, first: r.1@, second: r.2@ }),
    {
        let none: Vec<u8> = Vec::new();
        proof {
            assert(none@ =~= seq![]);
        }
        match self {
            PathPart::Verbatim(a) => (0, a.clone(), none),
            PathPart::VerbatimShare(a, b) => (1, a.clone(), b.clone()),
            PathPart::VerbatimDisk(d) => (2, one_byte(*d), none),
            PathPart::Device(a) => (3, a.clone(), none),
            PathPart::Share(a, b) => (4, a.clone(), b.clone()),
            PathPart::Disk(d) => (5, one_byte(*d), none),
            PathPart::Root => (6, Vec::new(), none),
            PathPart::Current => (7, Vec::new(), none),
            PathPart::Parent => (8, Vec::new(), none),
            PathPart::Name(a) => (9, a.clone(), none),
        }
    }
}

/// How two parts stand to each other.
pub fn place_parts(a: &PathPart, b: &PathPart) -> (r: Placing)
    ensures
        r == Placing::Before <==> part_lt()(a@, b@),
        r == Placing::Same <==> a@ == b@,
        r == Placing::After <==> part_lt()(b@, a@),
{
    proof {
        lemma_parts_total();
        assert(!part_lt()(a@, a@));
    }
    if let (PathPart::Name(x), PathPart::Name(y)) = (a, b) {
        return place_bytes(x, y);
    }
    let (ka, a1, a2) = a.spelled();
    let (kb, b1, b2) = b.spelled();
    if ka < kb {
        return Placing::Before;
    }
    if kb < ka {
        return Placing::After;
    }
    let first = place_bytes(&a1, &b1);
    if first == Placing::Same {
        place_bytes(&a2, &b2)
    } else {
        first
    }
}

/// How two paths stand to each other.
pub fn place_paths(a: &Vec<PathPart>, b: &Vec<PathPart>) -> (r: Placing)
    ensures
        r == Placing::Before <==> path_lt(part_views(a@), part_views(b@)),
        r == Placing::Same <==> part_views(a@) == part_views(b@),
        r == Placing::After <==> path_lt(part_views(b@), part_views(a@)),
{
    let ghost x = part_views(a@);
    let ghost y = part_views(b@);
    let mut i: usize = 0;
    while i < a.len() && i < b.len()
        invariant
            x == part_views(a@),
            y == part_views(b@),
            i <= a.len(),
            i <= b.len(),
            forall|j: int| 0 <= j < i ==> x[j] == y[j],
        decreases a.len() - i,
    {
        let p = place_parts(&a[i], &b[i]);
        if p != Placing::Same {
            proof {
                assert(x.take(i as int) =~= y.take(i as int));
                lemma_lex_skip(part_lt(), x, y, i as int);
                lemma_lex_skip(part_lt(), y, x, i as int);
                assert(x[i as int] == a[i as int]@ && y[i as int] == b[i as int]@);
            }
            return p;
        }
        proof {
            assert(x[i as int] == a[i as int]@ && y[i as int] == b[i as int]@);
        }
        i += 1;
    }
    proof {
        assert(x.take(i as int) =~= y.take(i as int));
        lemma_lex_skip(part_lt(), x, y, i as int);
        lemma_lex_skip(part_lt(), y, x, i as int);
        law_lex_irreflexive(part_lt(), x);
        if i == a.len() && i == b.len() {
            assert(x =~= y);
        }
    }
    if i < a.len() {
        Placing::After
    } else if i < b.len() {
        Placing::Before
    } else {
        Placing::Same
    }
}

/// The name at the end of a path, as its bytes.
pub open spec fn last_name(parts: Seq<PartView>) -> Option<Seq<u8>> {
    if parts.len() > 0 && parts.last().kind == name_kind() {
        Some(parts.last().first)
    } else {
        None
    }
}

/// The name at the end of a path, if it is UTF-8.
pub open spec fn file_name(parts: Seq<PartView>) -> Option<Seq<char>> {
    match last_name(parts) {
        Some(bytes) => utf8_name(bytes),
        None => None,
    }
}

/// The byte of a dot.
pub const DOT: u8 = 46;

/// A path is hidden if the name at its end begins with a dot.
pub open spec fn hidden(parts: Seq<PartView>) -> bool {
    match last_name(parts) {
        Some(bytes) => bytes.len() > 0 && bytes[0] == DOT,
        None => false,
    }
}

/// A path whose name is UTF-8 is hidden exactly if the first character of the
/// name is a dot.
pub proof fn law_hidden_by_character(parts: Seq<PartView>, name: Seq<char>)
    requires
        file_name(parts) == Some(name),
    ensures
        hidden(parts) <==> name.len() > 0 && name[0] == '.',
{
    let bytes = last_name(parts)->0;
    if bytes.len() > 0 {
        let b = bytes[0];
        assert(b <= 0x7f ==> b & 0x7f == b) by (bit_vector);
        assert(46u32 & 0x7f == 46u32) by (bit_vector);
        vstd::utf8::decode_utf8_first_scalar(bytes);
        assert(vstd::utf8::take_first_scalar(bytes)[0] == b);
    }
}

/// The name at the end of a path, if it is UTF-8.
pub fn name_of(parts: &Vec<PathPart>) -> (r: Option<&str>)
    ensures
        r is Some <==> file_name(part_views(parts@)) is Some,
        r matches Some(name) ==> file_name(part_views(parts@)) == Some(name@),
{
    let n: usize = parts.len();
    if n == 0 {
        return None;
    }
    proof {
        assert(part_views(parts@).last() == parts@.last()@);
    }
    match &parts[n - 1] {
        PathPart::Name(bytes) => strict_text(bytes.as_slice()),
        _ => None,
    }
}

/// Says whether a path is hidden.
pub fn is_hidden(parts: &Vec<PathPart>) -> (r: bool)
    ensures
        r == hidden(part_views(parts@)),
{
    let n: usize = parts.len();
    if n == 0 {
        return false;
    }
    proof {
        assert(part_views(parts@).last() == parts@.last()@);
    }
    match &parts[n - 1] {
        PathPart::Name(bytes) => bytes.len() > 0 && bytes[0] == DOT,
        _ => false,
    }
}

/// A part is seen as its kind, by the order of the kinds, and what it spells.
pub proof fn law_parts_seen(a: Vec<u8>, b: Vec<u8>, d: u8)
    ensures
        PathPart::Verbatim(a)@ == (PartView { kind: 0, first: a@, second: seq![] }),
        PathPart::VerbatimShare(a, b)@ == (PartView { kind: 1, first: a@, second: b@ }),
        PathPart::VerbatimDisk(d)@ == (PartView { kind: 2, first: seq![d], second: seq![] }),
        PathPart::Device(a)@ == (PartView { kind: 3, first: a@, second: seq![] }),
        PathPart::Share(a, b)@ == (PartView { kind: 4, first: a@, second: b@ }),
        PathPart::Disk(d)@ == (PartView { kind: 5, first: seq![d], second: seq![] }),
        PathPart::Root@ == (PartView { kind: 6, first: seq![], second: seq![] }),
        PathPart::Current@ == (PartView { kind: 7, first: seq![], second: seq![] }),
        PathPart::Parent@ == (PartView { kind: 8, first: seq![], second: seq![] }),
        PathPart::Name(a)@ == (PartView { kind: 9, first: a@, second: seq![] }),
{
}

/// A path is seen part by part.
pub proof fn law_path_seen(parts: Seq<PathPart>)
    ensures
        part_views(parts).len() == parts.len(),
        forall|i: int| 0 <= i < parts.len() ==> #[trigger] part_views(parts)[i] == parts[i]@,
{
}

/// Parts are placed by kind first, then by what they spell.
pub proof fn law_part_order(x: PartView, y: PartView)
    ensures
        x.kind < y.kind ==> part_lt()(x, y),
        x.kind > y.kind ==> !part_lt()(x, y),
        x.kind == y.kind && x.first != y.first ==> (part_lt()(x, y) <==> bytes_lt(
            x.first,
            y.first,
        )),
        x.kind == y.kind && x.first == y.first ==> (part_lt()(x, y) <==> bytes_lt(
            x.second,
            y.second,
        )),
{
}

/// Paths are placed by the parts where they first differ. A folder comes before
/// what is in it.
pub proof fn law_path_first_difference(a: Seq<PartView>, b: Seq<PartView>, k: int)
    requires
        0 <= k <= a.len(),
        k <= b.len(),
        forall|i: int| 0 <= i < k ==> #[trigger] a[i] == b[i],
    ensures
        k < a.len() && k < b.len() && a[k] != b[k] ==> (path_lt(a, b) <==> part_lt()(a[k], b[k])),
        k == a.len() && k < b.len() ==> path_lt(a, b),
        k == b.len() ==> !path_lt(a, b),
{
    law_lex_first_difference(part_lt(), a, b, k);
}

/// A path is hidden exactly if it ends in a name whose first byte is a dot,
/// whatever stands before that name.
pub proof fn law_hidden_by_name(parts: Seq<PathPart>)
    ensures
        hidden(part_views(parts)) <==> {
            &&& parts.len() > 0
            &&& parts[parts.len() - 1] matches PathPart::Name(name)
            &&& name@.len() > 0
            &&& name@[0] == 46
        },
{
    if parts.len() > 0 {
        assert(part_views(parts).last() == parts[parts.len() - 1]@);
    }
}

/// A path has a name exactly if it ends in one that is UTF-8, and then it has the
/// text which that name encodes.
pub proof fn law_name_of_path(parts: Seq<PathPart>)
    ensures
        file_name(part_views(parts)) is Some <==> {
            &&& parts.len() > 0
            &&& parts[parts.len() - 1] matches PathPart::Name(name)
            &&& vstd::utf8::valid_utf8(name@)
        },
        parts.len() > 0 ==> (parts[parts.len() - 1] matches PathPart::Name(name) ==> (
        vstd::utf8::valid_utf8(name@) ==> file_name(part_views(parts)) == Some(
            vstd::utf8::decode_utf8(name@),
        ))),
{
    if parts.len() > 0 {
        assert(part_views(parts).last() == parts[parts.len() - 1]@);
    }
}

} // verus!
