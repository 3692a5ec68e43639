//! Paths as sequences of components.
//!
//! A path is kept as text. What the watcher asks of it, whether two spellings name the same
//! path, whether one path lies below another, what its file name is, goes by its components,
//! and is answered by `camino::Utf8Path`. The contracts below speak of Unix paths: event ports
//! exist on illumos and Solaris only.
use camino::Utf8Path;
use vstd::prelude::*;

verus! {

/// One component of a path.
pub enum Component {
    /// The leading `/` of an absolute path.
    Root,
    /// A `.` at the very beginning of a relative path.
    Current,
    /// A `..`.
    Parent,
    /// Any other name.
    Name(Seq<char>),
}

/// The index of the last `/` in `s`, or -1 where there is none.
pub open spec fn last_slash(s: Seq<char>) -> int
    decreases s.len(),
{
    if s.len() == 0 {
        -1
    } else if s.last() == '/' {
        s.len() - 1
    } else {
        last_slash(s.drop_last())
    }
}

/// Whether the text is a single dot.
pub open spec fn is_dot(s: Seq<char>) -> bool {
    s.len() == 1 && s[0] == '.'
}

/// The components that the text between two slashes stands for: none for an empty text or `.`.
pub open spec fn segment_components(segment: Seq<char>) -> Seq<Component> {
    if segment.len() == 0 || is_dot(segment) {
        Seq::empty()
    } else if segment.len() == 2 && segment[0] == '.' && segment[1] == '.' {
        seq![Component::Parent]
    } else {
        seq![Component::Name(segment)]
    }
}

/// The components of all the segments of `s`, in order.
pub open spec fn body_components(s: Seq<char>) -> Seq<Component>
    decreases s.len(),
{
    let slash = last_slash(s);
    if 0 <= slash < s.len() {
        body_components(s.take(slash)) + segment_components(s.skip(slash + 1))
    } else {
        segment_components(s)
    }
}

/// What the beginning of a path adds to the components of its segments.
pub open spec fn leading_components(s: Seq<char>) -> Seq<Component> {
    if s.len() > 0 && s[0] == '/' {
        seq![Component::Root]
    } else if s.len() > 0 && s[0] == '.' && (s.len() == 1 || s[1] == '/') {
        seq![Component::Current]
    } else {
        Seq::empty()
    }
}

/// The components of the path `s`. Repeated and trailing slashes add nothing, nor does a `.`
/// that is not at the beginning.
pub open spec fn components(s: Seq<char>) -> Seq<Component> {
    leading_components(s) + body_components(s)
}

/// Whether `path` is `base` or lies below it.
pub open spec fn starts_with(path: Seq<char>, base: Seq<char>) -> bool {
    components(base).is_prefix_of(components(path))
}

/// Whether two spellings name the same path.
pub open spec fn same_path(a: Seq<char>, b: Seq<char>) -> bool {
    components(a) == components(b)
}

/// Whether `path` lies below `base` and is not `base` itself.
pub open spec fn is_below(path: Seq<char>, base: Seq<char>) -> bool {
    starts_with(path, base) && !same_path(path, base)
}

/// The last component of a path, where that is a name.
pub open spec fn file_name_of(path: Seq<char>) -> Option<Seq<char>> {
    let parts = components(path);
    if parts.len() > 0 {
        match parts.last() {
            Component::Name(name) => Some(name),
            _ => None,
        }
    } else {
        None
    }
}

/// Calls `camino::Utf8Path::starts_with`, which holds where the components of `base` begin those
/// of `path`; only whole components count.
#[verifier::external_body]
pub(crate) fn path_starts_with(path: &str, base: &str) -> (r: bool)
    ensures
        r == starts_with(path@, base@),
{
    Utf8Path::new(path).starts_with(base)
}

/// Calls `==` on `camino::Utf8Path`, which compares the two paths component by component.
#[verifier::external_body]
pub(crate) fn paths_equal(a: &str, b: &str) -> (r: bool)
    ensures
        r == same_path(a@, b@),
{
    Utf8Path::new(a) == Utf8Path::new(b)
}

/// Calls `camino::Utf8Path::file_name`, which gives the last component of the path if that is a
/// name, and nothing for `/`, for the empty path and for a path that ends in `..`.
#[verifier::external_body]
pub(crate) fn path_file_name(path: &str) -> (r: Option<&str>)
    ensures
        r is Some <==> file_name_of(path@) is Some,
        r matches Some(name) ==> file_name_of(path@) == Some(name@),
{
    Utf8Path::new(path).file_name()
}

/// How many paths `camino::Utf8Path::ancestors` yields: the path itself and each path that comes
/// of dropping its last component, down to `/` or to the empty path.
pub open spec fn ancestor_count(path: Seq<char>) -> nat {
    let parts = components(path);
    if parts.len() > 0 && parts[0] is Root {
        parts.len()
    } else {
        parts.len() + 1
    }
}

/// Calls `camino::Utf8Path::ancestors`, and collects what it yields: first the path itself, then
/// each time the path with one component less.
#[verifier::external_body]
pub(crate) fn path_ancestors<'a>(path: &'a str) -> (r: Vec<&'a str>)
    ensures
        r@.len() == ancestor_count(path@),
        forall|i: int|
            0 <= i < r@.len() ==> components((#[trigger] r@[i])@) == components(path@).take(
                components(path@).len() - i,
            ),
{
    Utf8Path::new(path).ancestors().map(|p| p.as_str()).collect()
}

/// Whether the path `path` lies below `base`.
pub fn path_is_below(path: &str, base: &str) -> (r: bool)
    ensures
        r == is_below(path@, base@),
{
    path_starts_with(path, base) && !paths_equal(path, base)
}

/// Text without a slash does not move the last slash.
proof fn lemma_last_slash_append(s: Seq<char>, tail: Seq<char>)
    requires
        !tail.contains('/'),
    ensures
        last_slash(s + tail) == last_slash(s),
    decreases tail.len(),
{
    if tail.len() == 0 {
        assert(s + tail == s);
    } else {
        assert(tail.contains(tail.last()));
        assert forall|c: char| tail.drop_last().contains(c) implies tail.contains(c) by {
            let i = choose|i: int| 0 <= i < tail.drop_last().len() && tail.drop_last()[i] == c;
            assert(tail[i] == c);
        }
        assert((s + tail).drop_last() == s + tail.drop_last());
        lemma_last_slash_append(s, tail.drop_last());
    }
}

/// The last slash lies within the text, and is one.
proof fn lemma_last_slash_bound(s: Seq<char>)
    ensures
        -1 <= last_slash(s) < s.len(),
        last_slash(s) >= 0 ==> s[last_slash(s)] == '/',
    decreases s.len(),
{
    if s.len() > 0 && s.last() != '/' {
        lemma_last_slash_bound(s.drop_last());
    }
}

/// An entry of a directory has the directory's components and then its own name.
pub proof fn law_entry_components(dir: Seq<char>, name: Seq<char>)
    requires
        dir.len() > 0,
        !name.contains('/'),
    ensures
        components(dir + seq!['/'] + name) == components(dir) + segment_components(name),
{
    let joined = dir + seq!['/'] + name;
    lemma_last_slash_append(dir + seq!['/'], name);
    assert((dir + seq!['/']).last() == '/');
    assert(last_slash(joined) == dir.len());
    assert(joined.take(dir.len() as int) == dir);
    assert(joined.skip(dir.len() as int + 1) == name);
    assert(leading_components(joined) == leading_components(dir));
    assert(components(joined) == components(dir) + segment_components(name));
}

/// Sequences that differ at an index of the first are not prefix and whole.
proof fn lemma_not_prefix(a: Seq<Component>, b: Seq<Component>, i: int)
    requires
        0 <= i < a.len(),
        i < b.len() ==> a[i] != b[i],
    ensures
        !a.is_prefix_of(b),
{
    if a.is_prefix_of(b) {
        assert(b.subrange(0, a.len() as int)[i] == b[i]);
    }
}

/// Longer text in the last segment is another component in the same place.
proof fn lemma_longer_segment(base: Seq<char>, tail: Seq<char>)
    requires
        base.len() > 0,
        base.last() != '/',
        !is_dot(base.skip(last_slash(base) + 1)),
        tail.len() > 0,
        !tail.contains('/'),
    ensures
        body_components(base).len() > 0,
        body_components(base + tail).len() == body_components(base).len(),
        body_components(base + tail).last() != body_components(base).last(),
{
    lemma_last_slash_append(base, tail);
    lemma_last_slash_bound(base);
    let slash = last_slash(base);
    let name = base.skip(slash + 1);
    let long = base + tail;
    assert(long.skip(slash + 1) =~= name + tail);
    assert(name.len() > 0);
    assert(segment_components(name).len() == 1);
    assert(segment_components(name + tail).len() == 1);
    assert(segment_components(name)[0] != segment_components(name + tail)[0]) by {
        assert(name.len() < (name + tail).len());
    }
    if slash >= 0 {
        assert(long.take(slash) =~= base.take(slash));
    } else {
        assert(name =~= base);
        assert(name + tail =~= long);
    }
}

/// A path that only begins with the same letters is not below the shorter one: `/tmp/foobar` is
/// not below `/tmp/foo`.
pub proof fn law_longer_name_is_not_below(base: Seq<char>, tail: Seq<char>)
    requires
        base.len() > 0,
        base.last() != '/',
        is_dot(base) || !is_dot(base.skip(last_slash(base) + 1)),
        tail.len() > 0,
        !tail.contains('/'),
    ensures
        !starts_with(base + tail, base),
{
    let long = base + tail;
    assert(tail.contains(tail[0]));
    if is_dot(base) {
        lemma_last_slash_append(base, tail);
        reveal_with_fuel(last_slash, 3);
        assert(components(base) =~= seq![Component::Current]);
        assert(long[1] == tail[0]);
        assert(components(long) =~= segment_components(long));
        lemma_not_prefix(components(base), components(long), 0);
    } else {
        lemma_longer_segment(base, tail);
        assert(leading_components(long) =~= leading_components(base)) by {
            if base.len() >= 2 {
                assert(long[1] == base[1]);
            }
        }
        lemma_not_prefix(components(base), components(long), components(base).len() - 1);
    }
}

/// What text makes of a path, by its last segment: an empty segment or a `.` adds nothing, a `..`
/// adds the parent, and anything else adds a name. A leading slash is the root, and a `.` alone
/// is the current directory.
pub proof fn law_components_by_last_segment(dir: Seq<char>, name: Seq<char>)
    requires
        !name.contains('/'),
    ensures
        ({
            let last = if name == Seq::<char>::empty() || name == seq!['.'] {
                Seq::<Component>::empty()
            } else if name == seq!['.', '.'] {
                seq![Component::Parent]
            } else {
                seq![Component::Name(name)]
            };
            &&& dir.len() > 0 ==> components(dir + seq!['/'] + name) == components(dir) + last
            &&& components(seq!['/'] + name) == seq![Component::Root] + last
            &&& components(name) == (if name == seq!['.'] {
                seq![Component::Current]
            } else {
                last
            })
        }),
{
    assert(name.len() == 0 ==> name =~= Seq::empty());
    assert(is_dot(name) ==> name =~= seq!['.']);
    assert(name.len() == 2 && name[0] == '.' && name[1] == '.' ==> name =~= seq!['.', '.']);
    if dir.len() > 0 {
        law_entry_components(dir, name);
    }
    let rooted = seq!['/'] + name;
    lemma_last_slash_append(seq!['/'], name);
    assert(seq!['/'].last() == '/');
    assert(last_slash(rooted) == 0);
    assert(rooted.take(0) =~= Seq::<char>::empty());
    assert(rooted.skip(1) =~= name);
    assert(last_slash(Seq::<char>::empty()) == -1);
    assert(body_components(Seq::<char>::empty()) =~= Seq::empty());
    assert(components(rooted) =~= seq![Component::Root] + segment_components(name));
    lemma_last_slash_append(Seq::empty(), name);
    assert(Seq::<char>::empty() + name =~= name);
    assert(body_components(name) == segment_components(name));
    if name.len() > 0 {
        assert(name.contains(name[0]));
    }
    if name.len() > 1 {
        assert(name.contains(name[1]));
    }
    assert(components(name) =~= (if is_dot(name) {
        seq![Component::Current]
    } else {
        segment_components(name)
    }));
}

/// One path is, or lies below, another if it has all the other's components and in the same
/// places. Two paths are the same if each is, or lies below, the other; and one lies below the
/// other if it has more components besides.
pub proof fn law_below_by_components(path: Seq<char>, base: Seq<char>)
    ensures
        starts_with(path, base) <==> components(base).len() <= components(path).len() && forall|
            i: int,
        |
            0 <= i < components(base).len() ==> #[trigger] components(path)[i] == components(
                base,
            )[i],
        same_path(path, base) <==> starts_with(path, base) && starts_with(base, path),
        is_below(path, base) <==> starts_with(path, base) && components(base).len() < components(
            path,
        ).len(),
{
    let a = components(path);
    let b = components(base);
    if b.len() <= a.len() {
        if b.is_prefix_of(a) {
            assert forall|i: int| 0 <= i < b.len() implies #[trigger] a[i] == b[i] by {
                assert(a.subrange(0, b.len() as int)[i] == b[i]);
            }
        }
        if forall|i: int| 0 <= i < b.len() ==> #[trigger] a[i] == b[i] {
            assert(b =~= a.subrange(0, b.len() as int));
        }
    }
    if a.len() == b.len() && starts_with(path, base) {
        assert(a =~= b);
    }
    if a == b {
        assert(a =~= a.subrange(0, a.len() as int));
    }
}

/// The file name of an entry is its own name, however its directory is named, and a trailing
/// slash does not change it. What ends in `..` has no file name, nor have `/` and the empty path.
pub proof fn law_file_name(dir: Seq<char>, name: Seq<char>)
    requires
        dir.len() > 0,
        !name.contains('/'),
    ensures
        name.len() > 0 && name != seq!['.'] && name != seq!['.', '.'] ==> file_name_of(
            dir + seq!['/'] + name,
        ) == Some(name) && file_name_of(seq!['/'] + name) == Some(name) && file_name_of(name)
            == Some(name),
        name == seq!['.', '.'] ==> file_name_of(dir + seq!['/'] + name) is None,
        name.len() == 0 || name == seq!['.'] ==> file_name_of(dir + seq!['/'] + name)
            == file_name_of(dir),
        file_name_of(seq!['/']) is None,
        file_name_of(Seq::<char>::empty()) is None,
{
    law_components_by_last_segment(dir, name);
    law_components_by_last_segment(dir, Seq::empty());
    assert(seq!['/'] + Seq::<char>::empty() =~= seq!['/']);
    assert(seq![Component::Root] + Seq::<Component>::empty() =~= seq![Component::Root]);
    assert(components(dir) + Seq::<Component>::empty() =~= components(dir));
    assert(name.len() == 0 ==> name =~= Seq::empty());
    let named = components(dir) + seq![Component::Name(name)];
    assert(named.last() == Component::Name(name));
    let rooted = seq![Component::Root] + seq![Component::Name(name)];
    assert(rooted.last() == Component::Name(name));
    let up = components(dir) + seq![Component::Parent];
    assert(up.last() == Component::Parent);
}

} // verus!
