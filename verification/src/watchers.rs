//! The table of watched paths.
use crate::cookie::{cookie_of, path_to_cookie};
use crate::path::{components, path_starts_with, paths_equal, same_path, starts_with};
use std::collections::HashMap;
use vstd::prelude::*;

verus! {

/// The mathematical model of a [`Watchers`] table.
#[verifier::ext_equal]
pub struct WatchersView<H> {
    /// The watched paths, each with its handle, in the order in which they were first watched.
    pub entries: Seq<(Seq<char>, H)>,
    /// The path that each cookie stands for.
    pub cookies: Map<u64, Seq<char>>,
}

impl<H> WatchersView<H> {
    /// A table in which nothing is watched.
    pub open spec fn empty() -> WatchersView<H> {
        WatchersView { entries: Seq::empty(), cookies: Map::empty() }
    }

    /// Whether `path` is watched.
    pub open spec fn watches(self, path: Seq<char>) -> bool {
        exists|i: int|
            0 <= i < self.entries.len() && same_path((#[trigger] self.entries[i]).0, path)
    }

    /// Where a watched path stands in the table.
    pub open spec fn index(self, path: Seq<char>) -> int {
        choose|i: int|
            0 <= i < self.entries.len() && same_path((#[trigger] self.entries[i]).0, path)
    }

    /// The table with `handle` for `path`, which its cookie now stands for.
    pub open spec fn inserted(self, path: Seq<char>, handle: H) -> WatchersView<H> {
        WatchersView {
            entries: if self.watches(path) {
                self.entries.update(
                    self.index(path),
                    (self.entries[self.index(path)].0, handle),
                )
            } else {
                self.entries.push((path, handle))
            },
            cookies: self.cookies.insert(cookie_of(path), path),
        }
    }

    /// The table without `path` and its cookie.
    pub open spec fn without(self, path: Seq<char>) -> WatchersView<H> {
        WatchersView {
            entries: self.entries.filter(|e: (Seq<char>, H)| !same_path(e.0, path)),
            cookies: self.cookies.remove(cookie_of(path)),
        }
    }

    /// The cookies of `path` and of the watched paths at or below it.
    pub open spec fn tree_cookies(self, path: Seq<char>) -> Set<u64> {
        Set::new(|c: u64| c == cookie_of(path) || exists|i: int|
            0 <= i < self.entries.len() && starts_with((#[trigger] self.entries[i]).0, path)
                && c == cookie_of(self.entries[i].0))
    }

    /// The table without `path` and what lies below it, and without their cookies.
    pub open spec fn without_tree(self, path: Seq<char>) -> WatchersView<H> {
        WatchersView {
            entries: self.entries.filter(|e: (Seq<char>, H)| !starts_with(e.0, path)),
            cookies: self.cookies.remove_keys(self.tree_cookies(path)),
        }
    }

    /// No path is watched twice, and each cookie stands for a watched path that has this cookie.
    pub open spec fn wf(self) -> bool {
        &&& forall|i: int, j: int|
            0 <= i < j < self.entries.len() ==> !same_path(
                (#[trigger] self.entries[i]).0,
                (#[trigger] self.entries[j]).0,
            )
        &&& forall|c: u64| #[trigger]
            self.cookies.contains_key(c) ==> c == cookie_of(self.cookies[c]) && self.watches(
                self.cookies[c],
            )
    }
}

/// Distinct paths are left distinct by a filter.
pub(crate) proof fn lemma_filter_distinct<H>(s: Seq<(Seq<char>, H)>, pred: spec_fn((Seq<char>, H)) -> bool)
    requires
        forall|i: int, j: int|
            0 <= i < j < s.len() ==> !same_path((#[trigger] s[i]).0, (#[trigger] s[j]).0),
    ensures
        forall|i: int, j: int|
            0 <= i < j < s.filter(pred).len() ==> !same_path(
                (#[trigger] s.filter(pred)[i]).0,
                (#[trigger] s.filter(pred)[j]).0,
            ),
    decreases s.len(),
{
    reveal(Seq::filter);
    if s.len() > 0 {
        let before = s.drop_last();
        lemma_filter_distinct(before, pred);
        assert forall|i: int| 0 <= i < before.filter(pred).len() implies !same_path(
            (#[trigger] before.filter(pred)[i]).0,
            s.last().0,
        ) by {
            lemma_filter_member(before, pred, i);
            let k = choose|k: int| 0 <= k < before.len() && before[k] == before.filter(pred)[i];
            assert(s[k] == before[k]);
        }
    }
}

/// What a filter lets through was there before.
pub(crate) proof fn lemma_filter_member<A>(s: Seq<A>, pred: spec_fn(A) -> bool, i: int)
    requires
        0 <= i < s.filter(pred).len(),
    ensures
        pred(s.filter(pred)[i]),
        exists|k: int| 0 <= k < s.len() && #[trigger] s[k] == s.filter(pred)[i],
    decreases s.len(),
{
    reveal(Seq::filter);
    if s.len() > 0 {
        let before = s.drop_last();
        if i < before.filter(pred).len() {
            lemma_filter_member(before, pred, i);
            let k = choose|k: int| 0 <= k < before.len() && #[trigger] before[k] == before.filter(pred)[i];
            assert(s[k] == s.filter(pred)[i]);
        } else {
            assert(s[s.len() - 1] == s.filter(pred)[i]);
        }
    }
}

/// A filter that lets everything through changes nothing.
pub(crate) proof fn lemma_filter_all<A>(s: Seq<A>, pred: spec_fn(A) -> bool)
    requires
        forall|i: int| 0 <= i < s.len() ==> pred(#[trigger] s[i]),
    ensures
        s.filter(pred) == s,
    decreases s.len(),
{
    reveal(Seq::filter);
    if s.len() > 0 {
        lemma_filter_all(s.drop_last(), pred);
        assert(pred(s[s.len() - 1]));
    }
}

/// A filter that lets just the first elements through leaves these.
pub(crate) proof fn lemma_filter_take<A>(s: Seq<A>, pred: spec_fn(A) -> bool, n: int)
    requires
        0 <= n <= s.len(),
        forall|i: int| 0 <= i < s.len() ==> (pred(#[trigger] s[i]) <==> i < n),
    ensures
        s.filter(pred) == s.take(n),
    decreases s.len(),
{
    reveal(Seq::filter);
    if n == s.len() {
        lemma_filter_all(s, pred);
        assert(s.take(n) =~= s);
    } else {
        lemma_filter_take(s.drop_last(), pred, n);
        assert(!pred(s[s.len() - 1]));
        assert(s.drop_last().take(n) =~= s.take(n));
    }
}

/// A filter that holds one element back removes it.
pub(crate) proof fn lemma_filter_one<A>(s: Seq<A>, pred: spec_fn(A) -> bool, i: int)
    requires
        0 <= i < s.len(),
        forall|k: int| 0 <= k < s.len() ==> (pred(#[trigger] s[k]) <==> k != i),
    ensures
        s.filter(pred) == s.remove(i),
    decreases s.len(),
{
    reveal(Seq::filter);
    let before = s.drop_last();
    assert(pred(s[s.len() - 1]) <==> s.len() - 1 != i);
    if i == s.len() - 1 {
        lemma_filter_all(before, pred);
        assert(s.remove(i) =~= before);
    } else {
        lemma_filter_one(before, pred, i);
        assert(s.remove(i) =~= before.remove(i).push(s.last()));
    }
}

impl<H> WatchersView<H> {
    /// A path stands in one place only.
    pub(crate) proof fn lemma_index(self, path: Seq<char>, i: int)
        requires
            self.wf(),
            0 <= i < self.entries.len(),
            same_path(self.entries[i].0, path),
        ensures
            self.watches(path),
            self.index(path) == i,
    {
        let k = self.index(path);
        assert(same_path(self.entries[k].0, path));
        assert(k < i ==> !same_path(self.entries[k].0, self.entries[i].0));
        assert(i < k ==> !same_path(self.entries[i].0, self.entries[k].0));
    }

    /// Whatever the handles are, the paths and the cookies make the table well formed.
    proof fn lemma_handles_wf(self, next: WatchersView<H>)
        requires
            self.wf(),
            next.cookies == self.cookies,
            next.entries.len() == self.entries.len(),
            forall|i: int|
                0 <= i < self.entries.len() ==> (#[trigger] next.entries[i]).0 == self.entries[i].0,
        ensures
            next.wf(),
    {
        assert forall|c: u64| #[trigger] next.cookies.contains_key(c) implies c == cookie_of(
            next.cookies[c],
        ) && next.watches(next.cookies[c]) by {
            let i = self.index(self.cookies[c]);
            assert(same_path(self.entries[i].0, self.cookies[c]));
            assert(same_path(next.entries[i].0, next.cookies[c]));
        }
    }

    /// Watching one more path keeps the table well formed.
    pub proof fn lemma_inserted_wf(self, path: Seq<char>, handle: H)
        requires
            self.wf(),
        ensures
            self.inserted(path, handle).wf(),
            forall|p: Seq<char>| #[trigger]
                self.inserted(path, handle).watches(p) <==> self.watches(p) || same_path(p, path),
    {
        let next = self.inserted(path, handle);
        let k = self.index(path);
        assert forall|p: Seq<char>| #[trigger] next.watches(p) <==> self.watches(p) || same_path(
            p,
            path,
        ) by {
            if self.watches(p) {
                let i = self.index(p);
                assert(same_path(self.entries[i].0, p));
                assert(next.entries[i].0 == self.entries[i].0);
            }
            if same_path(p, path) {
                if self.watches(path) {
                    assert(same_path(self.entries[k].0, path));
                    assert(same_path(next.entries[k].0, p));
                } else {
                    assert(same_path(next.entries[self.entries.len() as int].0, p));
                }
            }
            if next.watches(p) {
                let i = next.index(p);
                assert(same_path(next.entries[i].0, p));
                if i < self.entries.len() {
                    if self.watches(path) {
                        assert(same_path(self.entries[k].0, path));
                    }
                    assert(same_path(self.entries[i].0, p));
                }
            }
        }
        assert forall|i: int, j: int| 0 <= i < j < next.entries.len() implies !same_path(
            (#[trigger] next.entries[i]).0,
            (#[trigger] next.entries[j]).0,
        ) by {
            if self.watches(path) {
                assert(same_path(self.entries[k].0, path));
                assert(next.entries[i].0 == self.entries[i].0);
                assert(next.entries[j].0 == self.entries[j].0);
            } else if j == self.entries.len() {
                assert(!same_path(self.entries[i].0, path));
            } else {
                assert(!same_path(self.entries[i].0, self.entries[j].0));
            }
        }
        assert forall|c: u64| #[trigger] next.cookies.contains_key(c) implies c == cookie_of(
            next.cookies[c],
        ) && next.watches(next.cookies[c]) by {
            if c != cookie_of(path) {
                assert(self.cookies.contains_key(c));
            }
        }
    }

    /// Keeping only some of the paths, and only cookies of paths that are kept, keeps the table
    /// well formed.
    proof fn lemma_filtered_wf(self, next: WatchersView<H>, pred: spec_fn((Seq<char>, H)) -> bool)
        requires
            self.wf(),
            next.entries == self.entries.filter(pred),
            forall|a: (Seq<char>, H), b: (Seq<char>, H)| #![trigger pred(a), pred(b)]
                same_path(a.0, b.0) ==> pred(a) == pred(b),
            forall|c: u64| #[trigger]
                next.cookies.contains_key(c) ==> self.cookies.contains_key(c) && next.cookies[c]
                    == self.cookies[c],
            forall|c: u64, i: int|
                0 <= i < self.entries.len() && #[trigger] next.cookies.contains_key(c)
                    && cookie_of((#[trigger] self.entries[i]).0) == c ==> pred(self.entries[i]),
        ensures
            next.wf(),
            forall|p: Seq<char>| #[trigger]
                next.watches(p) <==> exists|i: int|
                    0 <= i < self.entries.len() && same_path((#[trigger] self.entries[i]).0, p)
                        && pred(self.entries[i]),
    {
        lemma_filter_distinct(self.entries, pred);
        assert forall|p: Seq<char>| #[trigger] next.watches(p) <==> exists|i: int|
            0 <= i < self.entries.len() && same_path((#[trigger] self.entries[i]).0, p) && pred(
                self.entries[i],
            ) by {
            if next.watches(p) {
                let k = next.index(p);
                lemma_filter_member(self.entries, pred, k);
                let i = choose|i: int|
                    0 <= i < self.entries.len() && #[trigger] self.entries[i] == next.entries[k];
                assert(same_path(self.entries[i].0, p) && pred(self.entries[i]));
            }
            if exists|i: int|
                0 <= i < self.entries.len() && same_path((#[trigger] self.entries[i]).0, p) && pred(
                    self.entries[i],
                ) {
                let i = choose|i: int|
                    0 <= i < self.entries.len() && same_path((#[trigger] self.entries[i]).0, p)
                        && pred(self.entries[i]);
                self.entries.lemma_filter_contains(pred, i);
                let k = choose|k: int|
                    0 <= k < next.entries.len() && next.entries[k] == self.entries[i];
                assert(same_path(next.entries[k].0, p));
            }
        }
        assert forall|c: u64| #[trigger] next.cookies.contains_key(c) implies c == cookie_of(
            next.cookies[c],
        ) && next.watches(next.cookies[c]) by {
            assert(self.cookies.contains_key(c));
            let i = self.index(self.cookies[c]);
            assert(same_path(self.entries[i].0, self.cookies[c]));
            assert(cookie_of(self.entries[i].0) == c);
            assert(pred(self.entries[i]));
        }
    }

    /// Forgetting a path keeps the table well formed.
    pub proof fn lemma_without_wf(self, path: Seq<char>)
        requires
            self.wf(),
        ensures
            self.without(path).wf(),
            forall|p: Seq<char>| #[trigger]
                self.without(path).watches(p) <==> self.watches(p) && !same_path(p, path),
    {
        let pred = |e: (Seq<char>, H)| !same_path(e.0, path);
        self.lemma_filtered_wf(self.without(path), pred);
        assert forall|p: Seq<char>| #[trigger] self.without(path).watches(p) <==> self.watches(p)
            && !same_path(p, path) by {
            if self.watches(p) {
                let i = self.index(p);
                assert(same_path(self.entries[i].0, p));
                assert(pred(self.entries[i]) <==> !same_path(p, path));
            }
        }
    }

    /// Forgetting a path and what lies below it keeps the table well formed.
    pub proof fn lemma_without_tree_wf(self, path: Seq<char>)
        requires
            self.wf(),
        ensures
            self.without_tree(path).wf(),
            forall|p: Seq<char>| #[trigger]
                self.without_tree(path).watches(p) <==> self.watches(p) && !starts_with(p, path),
    {
        let pred = |e: (Seq<char>, H)| !starts_with(e.0, path);
        let next = self.without_tree(path);
        assert forall|c: u64, i: int|
            0 <= i < self.entries.len() && #[trigger] next.cookies.contains_key(c) && cookie_of(
                (#[trigger] self.entries[i]).0,
            ) == c implies pred(self.entries[i]) by {
            if starts_with(self.entries[i].0, path) {
                assert(self.tree_cookies(path).contains(c));
            }
        }
        self.lemma_filtered_wf(next, pred);
        assert forall|p: Seq<char>| #[trigger] next.watches(p) <==> self.watches(p)
            && !starts_with(p, path) by {
            if self.watches(p) {
                let i = self.index(p);
                assert(same_path(self.entries[i].0, p));
                assert(pred(self.entries[i]) <==> !starts_with(p, path));
            }
        }
    }
}

/// The watched paths, each with the handle that ties it to the port, and the path that each
/// cookie stands for.
pub struct Watchers<H> {
    entries: Vec<(String, H)>,
    cookie_to_path: HashMap<u64, String>,
    /// Where to look first for a path with this cookie. A cookie that is not here belongs to no
    /// watched path.
    places: HashMap<u64, usize>,
}

impl<H> View for Watchers<H> {
    type V = WatchersView<H>;

    closed spec fn view(&self) -> WatchersView<H> {
        WatchersView {
            entries: self.entries@.map_values(|e: (String, H)| (e.0@, e.1)),
            cookies: self.cookie_to_path@.map_values(|p: String| p@),
        }
    }
}

impl<H> Watchers<H> {
    /// The cookie of each watched path has a place.
    pub closed spec fn is_indexed(&self) -> bool {
        forall|i: int|
            0 <= i < self.entries@.len() ==> self.places@.contains_key(
                cookie_of((#[trigger] self.entries@[i]).0@),
            )
    }

    /// The table is well formed, and every watched path can be looked up.
    pub open spec fn wf(&self) -> bool {
        self@.wf() && self.is_indexed()
    }

    /// A table in which nothing is watched.
    pub fn new() -> (r: Watchers<H>)
        ensures
            r@ == WatchersView::<H>::empty(),
            r.wf(),
    {
        let r = Watchers {
            entries: Vec::new(),
            cookie_to_path: HashMap::new(),
            places: HashMap::new(),
        };
        assert(r@ =~= WatchersView::<H>::empty());
        r
    }

    /// How many paths are watched.
    pub fn len(&self) -> (r: usize)
        ensures
            r == self@.entries.len(),
    {
        self.entries.len()
    }

    /// Whether nothing is watched.
    pub fn is_empty(&self) -> (r: bool)
        ensures
            r == (self@.entries.len() == 0),
    {
        self.entries.len() == 0
    }

    /// The path at a place of the table.
    pub fn path_at(&self, i: usize) -> (r: &str)
        requires
            i < self@.entries.len(),
        ensures
            r@ == self@.entries[i as int].0,
    {
        self.entries[i].0.as_str()
    }

    /// Gives each watched path its place, and no other.
    fn reindex(&mut self)
        ensures
            final(self)@ == old(self)@,
            final(self).is_indexed(),
    {
        self.places = HashMap::new();
        let n: usize = self.entries.len();
        let mut i: usize = 0;
        while i < n
            invariant
                n == self.entries@.len(),
                i <= n,
                self@ == old(self)@,
                forall|j: int|
                    0 <= j < i ==> self.places@.contains_key(
                        cookie_of((#[trigger] self.entries@[j]).0@),
                    ),
            decreases n - i,
        {
            let cookie: u64 = path_to_cookie(self.entries[i].0.as_str());
            self.places.insert(cookie, i);
            i += 1;
        }
    }

    /// The place of a path in the table.
    fn position(&self, path: &str) -> (r: Option<usize>)
        requires
            self.wf(),
        ensures
            match r {
                Some(i) => self@.watches(path@) && i == self@.index(path@) && i < self@.entries.len()
                    && same_path(self@.entries[i as int].0, path@),
                None => !self@.watches(path@),
            },
    {
        let n: usize = self.entries.len();
        match self.places.get(&path_to_cookie(path)) {
            None => {
                assert forall|i: int| 0 <= i < self@.entries.len() implies !same_path(
                    (#[trigger] self@.entries[i]).0,
                    path@,
                ) by {
                    assert(self.places@.contains_key(cookie_of(self.entries@[i].0@)));
                }
                return None;
            },
            Some(place) => {
                let place: usize = *place;
                if place < n && paths_equal(self.entries[place].0.as_str(), path) {
                    proof {
                        self@.lemma_index(path@, place as int);
                    }
                    return Some(place);
                }
            },
        }
        // Another path with the same cookie has the place.
        let mut i: usize = 0;
        while i < n
            invariant
                n == self.entries@.len(),
                i <= n,
                self@.wf(),
                forall|j: int| 0 <= j < i ==> !same_path((#[trigger] self@.entries[j]).0, path@),
            decreases n - i,
        {
            if paths_equal(self.entries[i].0.as_str(), path) {
                proof {
                    self@.lemma_index(path@, i as int);
                }
                return Some(i);
            }
            i += 1;
        }
        None
    }

    /// Whether `path` is watched.
    pub fn contains(&self, path: &str) -> (r: bool)
        requires
            self.wf(),
        ensures
            r == self@.watches(path@),
    {
        self.position(path).is_some()
    }

    /// The path that a cookie stands for.
    pub fn find(&self, cookie: u64) -> (r: Option<String>)
        ensures
            match r {
                Some(p) => self@.cookies.contains_key(cookie) && p@ == self@.cookies[cookie],
                None => !self@.cookies.contains_key(cookie),
            },
    {
        match self.cookie_to_path.get(&cookie) {
            Some(p) => Some(p.clone()),
            None => None,
        }
    }

    /// The handle of a watched path.
    pub fn get(&self, path: &str) -> (r: Option<&H>)
        requires
            self.wf(),
        ensures
            match r {
                Some(h) => self@.watches(path@) && *h == self@.entries[self@.index(path@)].1,
                None => !self@.watches(path@),
            },
    {
        match self.position(path) {
            Some(i) => Some(&self.entries[i].1),
            None => None,
        }
    }

    /// The handle of a watched path, to be changed in place.
    pub fn get_mut(&mut self, path: &str) -> (r: Option<&mut H>)
        requires
            old(self).wf(),
        ensures
            match r {
                Some(h) => old(self)@.watches(path@) && *h == old(self)@.entries[old(self)@.index(
                    path@,
                )].1 && final(self)@ == (WatchersView {
                    entries: old(self)@.entries.update(
                        old(self)@.index(path@),
                        (old(self)@.entries[old(self)@.index(path@)].0, *final(h)),
                    ),
                    cookies: old(self)@.cookies,
                }),
                None => !old(self)@.watches(path@) && final(self)@ == old(self)@,
            },
            final(self).wf(),
    {
        match self.position(path) {
            Some(i) => {
                let ghost before = self@;
                assert forall|next: WatchersView<H>|
                    {
                        &&& next.cookies == before.cookies
                        &&& next.entries.len() == before.entries.len()
                        &&& forall|j: int|
                            0 <= j < before.entries.len() ==> (#[trigger] next.entries[j]).0
                                == before.entries[j].0
                    } implies #[trigger] next.wf() by {
                    before.lemma_handles_wf(next);
                }
                let entry = &mut self.entries[i];
                Some(&mut entry.1)
            },
            None => None,
        }
    }

    /// Watches `path`, and returns the cookie that stands for it. A path that is watched already
    /// keeps its place, and its handle is replaced.
    pub fn insert(&mut self, path: &str, handle: H) -> (r: u64)
        requires
            old(self).wf(),
        ensures
            final(self)@ == old(self)@.inserted(path@, handle),
            final(self).wf(),
            r == cookie_of(path@),
    {
        proof {
            old(self)@.lemma_inserted_wf(path@, handle);
        }
        let cookie: u64 = path_to_cookie(path);
        match self.position(path) {
            Some(i) => {
                let name = self.entries[i].0.clone();
                self.entries.set(i, (name, handle));
            },
            None => {
                self.places.insert(cookie, self.entries.len());
                self.entries.push((path.to_owned(), handle));
            },
        }
        self.cookie_to_path.insert(cookie, path.to_owned());
        assert(self@ =~= old(self)@.inserted(path@, handle));
        cookie
    }

    /// Forgets `path` and its cookie.
    pub fn forget(&mut self, path: &str)
        requires
            old(self).wf(),
        ensures
            final(self)@ == old(self)@.without(path@),
            final(self).wf(),
    {
        proof {
            old(self)@.lemma_without_wf(path@);
        }
        let ghost pred = |e: (Seq<char>, H)| !same_path(e.0, path@);
        match self.position(path) {
            Some(i) => {
                proof {
                    lemma_filter_one(self@.entries, pred, i as int);
                }
                self.entries.remove(i);
                assert(self@.entries =~= old(self)@.entries.remove(i as int));
            },
            None => {
                proof {
                    lemma_filter_all(self@.entries, pred);
                }
            },
        }
        let cookie: u64 = path_to_cookie(path);
        self.cookie_to_path.remove(&cookie);
        self.reindex();
        assert(self@ =~= old(self)@.without(path@));
    }

    /// Forgets `path` and all that lies below it, and their cookies. The empty path, below which
    /// everything would lie, is not taken: the table stays as it is.
    pub fn remove_watcher_recursive(&mut self, path: &str)
        requires
            old(self).wf(),
        ensures
            final(self)@ == (if path@.len() == 0 {
                old(self)@
            } else {
                old(self)@.without_tree(path@)
            }),
            final(self).wf(),
    {
        if path.is_empty() {
            return;
        }
        proof {
            old(self)@.lemma_without_tree_wf(path@);
        }
        let cookie: u64 = path_to_cookie(path);
        self.cookie_to_path.remove(&cookie);
        let mut watched: Vec<(String, H)> = Vec::new();
        std::mem::swap(&mut self.entries, &mut watched);
        let ghost pred = |e: (Seq<char>, H)| !starts_with(e.0, path@);
        let ghost before = old(self)@;
        assert(self@.entries =~= before.entries.take(0).filter(pred)) by {
            reveal(Seq::filter);
        }
        for entry in iter: watched
            invariant
                iter.seq().map_values(|e: (String, H)| (e.0@, e.1)) == before.entries,
                pred == (|e: (Seq<char>, H)| !starts_with(e.0, path@)),
                self@.entries == before.entries.take(iter.index() as int).filter(pred),
                forall|c: u64| #[trigger]
                    self@.cookies.contains_key(c) <==> before.cookies.contains_key(c) && c
                        != cookie_of(path@) && !exists|i: int|
                        0 <= i < iter.index() && starts_with(
                            (#[trigger] before.entries[i]).0,
                            path@,
                        ) && c == cookie_of(before.entries[i].0),
                forall|c: u64| #[trigger]
                    self@.cookies.contains_key(c) ==> self@.cookies[c] == before.cookies[c],
        {
            let ghost k = iter.index() as int;
            let ghost prev = self@.cookies;
            assert(before.entries[k] == (entry.0@, entry.1));
            assert(before.entries.take(k + 1).drop_last() =~= before.entries.take(k));
            reveal(Seq::filter);
            if path_starts_with(entry.0.as_str(), path) {
                let cookie: u64 = path_to_cookie(entry.0.as_str());
                self.cookie_to_path.remove(&cookie);
                assert(self@.cookies =~= prev.remove(cookie));
            } else {
                self.entries.push(entry);
                assert(self@.cookies =~= prev);
            }
            assert(self@.entries =~= before.entries.take(k + 1).filter(pred));
            assert forall|c: u64| #[trigger]
                self@.cookies.contains_key(c) <==> before.cookies.contains_key(c) && c != cookie_of(
                    path@,
                ) && !exists|i: int|
                    0 <= i < k + 1 && starts_with((#[trigger] before.entries[i]).0, path@) && c
                        == cookie_of(before.entries[i].0) by {
                assert(self@.cookies.contains_key(c) <==> prev.contains_key(c) && !(starts_with(
                    before.entries[k].0,
                    path@,
                ) && c == cookie_of(before.entries[k].0)));
            }
        }
        assert(before.entries.take(before.entries.len() as int) =~= before.entries);
        self.reindex();
        assert(self@ =~= before.without_tree(path@));
    }
}

/// Whether each watched path is found by its cookie.
pub open spec fn is_findable<H>(table: WatchersView<H>) -> bool {
    forall|i: int|
        0 <= i < table.entries.len() ==> table.cookies.contains_key(
            cookie_of((#[trigger] table.entries[i]).0),
        ) && same_path(
            table.cookies[cookie_of(table.entries[i].0)],
            table.entries[i].0,
        )
}

/// Whether `path` has a cookie that no other watched path has.
pub open spec fn has_own_cookie<H>(table: WatchersView<H>, path: Seq<char>) -> bool {
    forall|i: int|
        0 <= i < table.entries.len() && cookie_of((#[trigger] table.entries[i]).0) == cookie_of(
            path,
        ) ==> same_path(table.entries[i].0, path)
}

/// A path that was just watched is watched, and is found by its cookie.
pub proof fn law_inserted_is_found<H>(table: WatchersView<H>, path: Seq<char>, handle: H)
    requires
        table.wf(),
    ensures
        table.inserted(path, handle).watches(path),
        table.inserted(path, handle).entries[table.inserted(path, handle).index(path)].1 == handle,
        table.inserted(path, handle).cookies.contains_key(cookie_of(path)),
        table.inserted(path, handle).cookies[cookie_of(path)] == path,
{
    let next = table.inserted(path, handle);
    table.lemma_inserted_wf(path, handle);
    let k = next.index(path);
    assert(next.watches(path));
    assert(same_path(next.entries[k].0, path));
    if table.watches(path) {
        let i = table.index(path);
        assert(same_path(table.entries[i].0, path));
        assert(next.entries[i].0 == table.entries[i].0);
        assert(i == k);
    } else {
        let last = table.entries.len() as int;
        assert(same_path(next.entries[last].0, path));
        assert(k < last ==> same_path(table.entries[k].0, path));
    }
}

/// Watching a path whose cookie no other watched path has leaves every watched path to be found by
/// its cookie.
pub proof fn law_inserted_stays_findable<H>(table: WatchersView<H>, path: Seq<char>, handle: H)
    requires
        table.wf(),
        is_findable(table),
        has_own_cookie(table, path),
    ensures
        is_findable(table.inserted(path, handle)),
{
    let inserted = table.inserted(path, handle);
    assert forall|i: int| 0 <= i < inserted.entries.len() implies inserted.cookies.contains_key(
        cookie_of((#[trigger] inserted.entries[i]).0),
    ) && same_path(
        inserted.cookies[cookie_of(inserted.entries[i].0)],
        inserted.entries[i].0,
    ) by {
        if i < table.entries.len() {
            if table.watches(path) {
                assert(same_path(table.entries[table.index(path)].0, path));
            }
            assert(inserted.entries[i].0 == table.entries[i].0);
            if cookie_of(table.entries[i].0) == cookie_of(path) {
                assert(same_path(table.entries[i].0, path));
            }
        }
    }
}

/// Forgetting paths whose cookies no other watched path has leaves every path that is still
/// watched to be found by its cookie.
pub proof fn law_forgotten_stays_findable<H>(table: WatchersView<H>, path: Seq<char>)
    requires
        table.wf(),
        is_findable(table),
        has_own_cookie(table, path),
        forall|i: int|
            0 <= i < table.entries.len() && starts_with((#[trigger] table.entries[i]).0, path)
                ==> has_own_cookie(table, table.entries[i].0),
    ensures
        is_findable(table.without(path)),
        is_findable(table.without_tree(path)),
{
    let one = table.without(path);
    let other = |e: (Seq<char>, H)| !same_path(e.0, path);
    assert forall|i: int| 0 <= i < one.entries.len() implies one.cookies.contains_key(
        cookie_of((#[trigger] one.entries[i]).0),
    ) && same_path(one.cookies[cookie_of(one.entries[i].0)], one.entries[i].0) by {
        lemma_filter_member(table.entries, other, i);
        let k = choose|k: int|
            0 <= k < table.entries.len() && #[trigger] table.entries[k] == one.entries[i];
        assert(cookie_of(table.entries[k].0) != cookie_of(path));
    }
    let tree = table.without_tree(path);
    let outside = |e: (Seq<char>, H)| !starts_with(e.0, path);
    assert forall|i: int| 0 <= i < tree.entries.len() implies tree.cookies.contains_key(
        cookie_of((#[trigger] tree.entries[i]).0),
    ) && same_path(tree.cookies[cookie_of(tree.entries[i].0)], tree.entries[i].0) by {
        lemma_filter_member(table.entries, outside, i);
        let k = choose|k: int|
            0 <= k < table.entries.len() && #[trigger] table.entries[k] == tree.entries[i];
        let c = cookie_of(table.entries[k].0);
        assert(c != cookie_of(path)) by {
            if c == cookie_of(path) {
                assert(same_path(table.entries[k].0, path));
            }
        }
        assert forall|j: int|
            0 <= j < table.entries.len() && starts_with(
                (#[trigger] table.entries[j]).0,
                path,
            ) implies c != cookie_of(table.entries[j].0) by {
            assert(has_own_cookie(table, table.entries[j].0));
            if c == cookie_of(table.entries[j].0) {
                assert(same_path(table.entries[k].0, table.entries[j].0));
            }
        }
        assert(!table.tree_cookies(path).contains(c));
    }
}

/// What is forgotten is not watched any more, and no cookie stands for it; what does not lie at or
/// below the forgotten path stays watched, with its handle.
pub proof fn law_forgotten_is_gone<H>(table: WatchersView<H>, path: Seq<char>)
    requires
        table.wf(),
    ensures
        forall|p: Seq<char>| #[trigger]
            table.without_tree(path).watches(p) <==> table.watches(p) && !starts_with(p, path),
        forall|c: u64| #[trigger]
            table.without_tree(path).cookies.contains_key(c) ==> !starts_with(
                table.without_tree(path).cookies[c],
                path,
            ),
        !table.without_tree(path).cookies.contains_key(cookie_of(path)),
        forall|i: int|
            0 <= i < table.entries.len() && !starts_with((#[trigger] table.entries[i]).0, path)
                ==> table.without_tree(path).entries.contains(table.entries[i]),
{
    let next = table.without_tree(path);
    table.lemma_without_tree_wf(path);
    assert(table.tree_cookies(path).contains(cookie_of(path)));
    let outside = |e: (Seq<char>, H)| !starts_with(e.0, path);
    assert forall|c: u64| #[trigger] next.cookies.contains_key(c) implies !starts_with(
        next.cookies[c],
        path,
    ) by {
        assert(next.watches(next.cookies[c]));
    }
    assert forall|i: int|
        0 <= i < table.entries.len() && !starts_with(
            (#[trigger] table.entries[i]).0,
            path,
        ) implies next.entries.contains(table.entries[i]) by {
        table.entries.lemma_filter_contains(outside, i);
    }
}

/// A path is watched if and only if an entry of the table has its components; and where it is
/// watched, its place is that of such an entry.
pub proof fn law_watched_by_components<H>(table: WatchersView<H>, path: Seq<char>)
    ensures
        table.watches(path) <==> exists|i: int|
            0 <= i < table.entries.len() && components((#[trigger] table.entries[i]).0)
                == components(path),
        table.watches(path) ==> 0 <= table.index(path) < table.entries.len() && components(
            table.entries[table.index(path)].0,
        ) == components(path),
{
    if table.watches(path) {
        assert(same_path(table.entries[table.index(path)].0, path));
    }
    if exists|i: int|
        0 <= i < table.entries.len() && components((#[trigger] table.entries[i]).0) == components(
            path,
        ) {
        let i = choose|i: int|
            0 <= i < table.entries.len() && components((#[trigger] table.entries[i]).0)
                == components(path);
        assert(same_path(table.entries[i].0, path));
    }
}

/// In a well-formed table no two entries have the same components, and each cookie is that of the
/// path for which it stands, which has an entry.
pub proof fn law_well_formed_table<H>(table: WatchersView<H>)
    requires
        table.wf(),
    ensures
        forall|i: int, j: int|
            0 <= i < table.entries.len() && 0 <= j < table.entries.len() && i != j ==> components(
                (#[trigger] table.entries[i]).0,
            ) != components((#[trigger] table.entries[j]).0),
        forall|c: u64| #[trigger]
            table.cookies.contains_key(c) ==> cookie_of(table.cookies[c]) == c && exists|i: int|
                0 <= i < table.entries.len() && components((#[trigger] table.entries[i]).0)
                    == components(table.cookies[c]),
{
    assert forall|i: int, j: int|
        0 <= i < table.entries.len() && 0 <= j < table.entries.len() && i != j implies components(
        (#[trigger] table.entries[i]).0,
    ) != components((#[trigger] table.entries[j]).0) by {
        assert(i < j ==> !same_path(table.entries[i].0, table.entries[j].0));
        assert(j < i ==> !same_path(table.entries[j].0, table.entries[i].0));
    }
    assert forall|c: u64| #[trigger] table.cookies.contains_key(c) implies cookie_of(
        table.cookies[c],
    ) == c && exists|i: int|
        0 <= i < table.entries.len() && components((#[trigger] table.entries[i]).0) == components(
            table.cookies[c],
        ) by {
        law_watched_by_components(table, table.cookies[c]);
    }
}

/// Watching a path changes nothing but that path. Every other entry keeps its place, its path and
/// its handle; a path that is watched already keeps its place and gets the new handle, and any
/// other comes last. Every other cookie stands for what it stood for.
pub proof fn law_watching_changes_one_path<H>(table: WatchersView<H>, path: Seq<char>, handle: H)
    requires
        table.wf(),
    ensures
        ({
            let next = table.inserted(path, handle);
            let n = table.entries.len() as int;
            &&& next.entries.len() == (if table.watches(path) {
                n
            } else {
                n + 1
            })
            &&& forall|i: int|
                0 <= i < n ==> (#[trigger] next.entries[i]).0 == table.entries[i].0 && next.entries[i].1
                    == (if components(table.entries[i].0) == components(path) {
                    handle
                } else {
                    table.entries[i].1
                })
            &&& !table.watches(path) ==> next.entries[n] == (path, handle)
            &&& forall|c: u64| #[trigger]
                next.cookies.contains_key(c) <==> c == cookie_of(path)
                    || table.cookies.contains_key(c)
            &&& next.cookies[cookie_of(path)] == path
            &&& forall|c: u64|
                c != cookie_of(path) && #[trigger] table.cookies.contains_key(c)
                    ==> next.cookies[c] == table.cookies[c]
        }),
{
    law_well_formed_table(table);
    law_watched_by_components(table, path);
    if table.watches(path) {
        let k = table.index(path);
        assert forall|i: int| 0 <= i < table.entries.len() && i != k implies components(
            (#[trigger] table.entries[i]).0,
        ) != components(path) by {
            assert(components(table.entries[i].0) != components(table.entries[k].0));
        }
    }
}

/// Two elements that a filter lets through stand in the same order as before.
proof fn lemma_filter_order<A>(s: Seq<A>, pred: spec_fn(A) -> bool, m: int, k: int)
    requires
        0 <= m < k < s.filter(pred).len(),
    ensures
        exists|i: int, j: int|
            0 <= i < j < s.len() && #[trigger] s[i] == s.filter(pred)[m] && #[trigger] s[j]
                == s.filter(pred)[k],
    decreases s.len(),
{
    reveal(Seq::filter);
    let before = s.drop_last();
    if k < before.filter(pred).len() {
        lemma_filter_order(before, pred, m, k);
        let (i, j) = choose|i: int, j: int|
            0 <= i < j < before.len() && #[trigger] before[i] == before.filter(pred)[m]
                && #[trigger] before[j] == before.filter(pred)[k];
        assert(s[i] == s.filter(pred)[m] && s[j] == s.filter(pred)[k]);
    } else {
        lemma_filter_member(before, pred, m);
        let i = choose|i: int|
            0 <= i < before.len() && #[trigger] before[i] == before.filter(pred)[m];
        let j = s.len() - 1;
        assert(s[i] == s.filter(pred)[m] && s[j] == s.filter(pred)[k]);
    }
}

/// What is left by a filter: what it lets through, in the same order.
pub(crate) proof fn lemma_filter_leaves<A>(s: Seq<A>, pred: spec_fn(A) -> bool)
    ensures
        forall|e: A| #[trigger] s.filter(pred).contains(e) <==> s.contains(e) && pred(e),
        keeps_order(s, s.filter(pred)),
{
    let kept = s.filter(pred);
    assert forall|e: A| #[trigger] kept.contains(e) <==> s.contains(e) && pred(e) by {
        if kept.contains(e) {
            let k = choose|k: int| 0 <= k < kept.len() && kept[k] == e;
            lemma_filter_member(s, pred, k);
        }
        if s.contains(e) && pred(e) {
            let i = choose|i: int| 0 <= i < s.len() && s[i] == e;
            s.lemma_filter_contains(pred, i);
        }
    }
    assert forall|m: int, k: int| 0 <= m < k < kept.len() implies stands_before(
        s,
        #[trigger] kept[m],
        #[trigger] kept[k],
    ) by {
        lemma_filter_order(s, pred, m, k);
    }
}

/// Whether `a` stands somewhere before `b`.
pub open spec fn stands_before<A>(s: Seq<A>, a: A, b: A) -> bool {
    exists|i: int, j: int| 0 <= i < j < s.len() && #[trigger] s[i] == a && #[trigger] s[j] == b
}

/// Whether any two elements of `part` stand in `whole` in the same order.
pub open spec fn keeps_order<A>(whole: Seq<A>, part: Seq<A>) -> bool {
    forall|m: int, k: int|
        0 <= m < k < part.len() ==> stands_before(whole, #[trigger] part[m], #[trigger] part[k])
}

/// Forgetting takes away what it names and nothing else: of one path the entry that has its
/// components, of a tree the entries that have all components of its top in the same places. What
/// is left keeps its handle and its order, and every cookie but those of the forgotten paths stands
/// for what it stood for.
pub proof fn law_forgetting_takes_nothing_else<H>(table: WatchersView<H>, path: Seq<char>)
    ensures
        ({
            let one = table.without(path);
            let tree = table.without_tree(path);
            &&& forall|e: (Seq<char>, H)| #[trigger]
                one.entries.contains(e) <==> table.entries.contains(e) && components(e.0)
                    != components(path)
            &&& forall|e: (Seq<char>, H)| #[trigger]
                tree.entries.contains(e) <==> table.entries.contains(e) && !components(
                    path,
                ).is_prefix_of(components(e.0))
            &&& keeps_order(table.entries, one.entries)
            &&& keeps_order(table.entries, tree.entries)
            &&& forall|c: u64| #[trigger]
                one.cookies.contains_key(c) <==> table.cookies.contains_key(c) && c != cookie_of(
                    path,
                )
            &&& forall|c: u64| #[trigger]
                tree.cookies.contains_key(c) <==> table.cookies.contains_key(c) && c != cookie_of(
                    path,
                ) && forall|i: int|
                    0 <= i < table.entries.len() && components(path).is_prefix_of(
                        components((#[trigger] table.entries[i]).0),
                    ) ==> c != cookie_of(table.entries[i].0)
            &&& forall|c: u64| #[trigger]
                one.cookies.contains_key(c) ==> one.cookies[c] == table.cookies[c]
            &&& forall|c: u64| #[trigger]
                tree.cookies.contains_key(c) ==> tree.cookies[c] == table.cookies[c]
        }),
{
    lemma_filter_leaves(table.entries, |e: (Seq<char>, H)| !same_path(e.0, path));
    lemma_filter_leaves(table.entries, |e: (Seq<char>, H)| !starts_with(e.0, path));
    let tree = table.without_tree(path);
    assert forall|c: u64| #[trigger] tree.cookies.contains_key(c) <==> table.cookies.contains_key(c)
        && c != cookie_of(path) && forall|i: int|
        0 <= i < table.entries.len() && components(path).is_prefix_of(
            components((#[trigger] table.entries[i]).0),
        ) ==> c != cookie_of(table.entries[i].0) by {
        let named = c == cookie_of(path) || exists|i: int|
            0 <= i < table.entries.len() && starts_with((#[trigger] table.entries[i]).0, path) && c
                == cookie_of(table.entries[i].0);
        assert(table.tree_cookies(path).contains(c) <==> named);
    }
}

} // verus!
