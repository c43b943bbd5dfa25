use vstd::prelude::*;

verus! {

/// No two entries are held under the same path.
pub open spec fn keys_unique<V>(s: Seq<(Seq<char>, V)>) -> bool {
    forall|i: int, j: int|
        0 <= i < s.len() && 0 <= j < s.len() && i != j ==> #[trigger] s[i].0 != #[trigger] s[j].0
}

/// Some entry is held under `p`.
pub open spec fn has_key<V>(s: Seq<(Seq<char>, V)>, p: Seq<char>) -> bool {
    exists|j: int| 0 <= j < s.len() && #[trigger] s[j].0 == p
}

/// The index of the entry held under `p`, if any.
pub open spec fn key_index<V>(s: Seq<(Seq<char>, V)>, p: Seq<char>) -> Option<int> {
    if exists|i: int| 0 <= i < s.len() && #[trigger] s[i].0 == p {
        Some(choose|i: int| 0 <= i < s.len() && #[trigger] s[i].0 == p)
    } else {
        None
    }
}

pub proof fn lemma_key_index<V>(s: Seq<(Seq<char>, V)>, p: Seq<char>)
    requires
        keys_unique(s),
    ensures
        forall|i: int| 0 <= i < s.len() && #[trigger] s[i].0 == p ==> key_index(s, p) == Some(i),
        key_index(s, p) matches Some(i) ==> 0 <= i < s.len() && s[i].0 == p,
        key_index(s, p) is None ==> forall|i: int| 0 <= i < s.len() ==> #[trigger] s[i].0 != p,
{
}

/// The entries after the one held under `p`, if any, is dropped.
pub open spec fn files_removed<V>(s: Seq<(Seq<char>, V)>, p: Seq<char>) -> Seq<(Seq<char>, V)> {
    match key_index(s, p) {
        Some(i) => s.remove(i),
        None => s,
    }
}

/// The entities of each indexed file, one entry per file path, in the order in
/// which the files were first indexed.
pub struct FileStore<T> {
    entries: Vec<(String, T)>,
}

impl<T: View> View for FileStore<T> {
    type V = Seq<(Seq<char>, T::V)>;

    closed spec fn view(&self) -> Seq<(Seq<char>, T::V)> {
        self.entries@.map_values(|e: (String, T)| (e.0@, e.1@))
    }
}

impl<T: View> FileStore<T> {
    pub open spec fn wf(&self) -> bool {
        keys_unique(self@)
    }

    pub fn new() -> (r: Self)
        ensures
            r.wf(),
            r@ == Seq::<(Seq<char>, T::V)>::empty(),
    {
        let r = FileStore { entries: Vec::new() };
        assert(r@ =~= Seq::<(Seq<char>, T::V)>::empty());
        r
    }

    pub fn len(&self) -> (r: usize)
        ensures
            r == self@.len(),
    {
        self.entries.len()
    }

    /// The entry at index `i`.
    pub fn entry(&self, i: usize) -> (r: &(String, T))
        requires
            i < self@.len(),
        ensures
            r.0@ == self@[i as int].0,
            r.1@ == self@[i as int].1,
    {
        &self.entries[i]
    }

    fn index_of(&self, path: &String) -> (r: Option<usize>)
        requires
            self.wf(),
        ensures
            match r {
                Some(i) => key_index(self@, path@) == Some(i as int),
                None => key_index(self@, path@) is None,
            },
    {
        proof {
            lemma_key_index(self@, path@);
        }
        let mut i: usize = 0;
        while i < self.entries.len()
            invariant
                i <= self.entries@.len(),
                self@.len() == self.entries@.len(),
                self.wf(),
                forall|k: int| 0 <= k < i ==> #[trigger] self@[k].0 != path@,
            decreases self.entries@.len() - i,
        {
            if self.entries[i].0 == *path {
                assert(self@[i as int].0 == path@);
                proof {
                    lemma_key_index(self@, path@);
                }
                return Some(i);
            }
            assert(self@[i as int].0 != path@);
            i = i + 1;
        }
        proof {
            lemma_key_index(self@, path@);
        }
        None
    }

    /// The entities held under `path`.
    pub fn get(&self, path: &String) -> (r: Option<&T>)
        requires
            self.wf(),
        ensures
            match key_index(self@, path@) {
                Some(i) => r matches Some(v) && v@ == self@[i].1,
                None => r is None,
            },
    {
        match self.index_of(path) {
            Some(i) => Some(&self.entries[i].1),
            None => None,
        }
    }

    /// Replaces the entities held under `path`, or adds them at the end.
    pub fn insert(&mut self, path: String, value: T)
        requires
            old(self).wf(),
        ensures
            final(self).wf(),
            final(self)@ == match key_index(old(self)@, path@) {
                Some(i) => old(self)@.update(i, (path@, value@)),
                None => old(self)@.push((path@, value@)),
            },
    {
        proof {
            lemma_key_index(self@, path@);
        }
        let ghost p = path@;
        let ghost v = value@;
        match self.index_of(&path) {
            Some(i) => {
                self.entries.remove(i);
                self.entries.insert(i, (path, value));
                assert(self@ =~= old(self)@.update(i as int, (p, v)));
            },
            None => {
                self.entries.push((path, value));
                assert(self@ =~= old(self)@.push((p, v)));
            },
        }
    }

    /// Drops the entities held under `path`; nothing changes if there are none.
    pub fn remove(&mut self, path: &String)
        requires
            old(self).wf(),
        ensures
            final(self).wf(),
            final(self)@ == match key_index(old(self)@, path@) {
                Some(i) => old(self)@.remove(i),
                None => old(self)@,
            },
    {
        proof {
            lemma_key_index(self@, path@);
        }
        match self.index_of(path) {
            Some(i) => {
                self.entries.remove(i);
                assert(self@ =~= old(self)@.remove(i as int));
                assert forall|a: int, b: int|
                    0 <= a < self@.len() && 0 <= b < self@.len() && a != b
                        implies #[trigger] self@[a].0 != #[trigger] self@[b].0 by {
                    let oa = if a < i { a } else { a + 1 };
                    let ob = if b < i { b } else { b + 1 };
                    assert(old(self)@[oa] == self@[a]);
                    assert(old(self)@[ob] == self@[b]);
                }
            },
            None => {},
        }
    }
}

} // verus!

verus! {

/// After the entry under `p` is dropped, no entry is held under `p`, and the
/// entries left are exactly those of the other paths.
pub proof fn lemma_files_removed<V>(s: Seq<(Seq<char>, V)>, p: Seq<char>)
    requires
        keys_unique(s),
    ensures
        keys_unique(files_removed(s, p)),
        key_index(files_removed(s, p), p) is None,
        forall|k: int|
            0 <= k < files_removed(s, p).len() ==> (#[trigger] files_removed(s, p)[k]).0 != p
                && s.contains(files_removed(s, p)[k]),
        forall|j: int|
            0 <= j < s.len() && #[trigger] s[j].0 != p ==> files_removed(s, p).contains(s[j]),
{
    lemma_key_index(s, p);
    let r = files_removed(s, p);
    match key_index(s, p) {
        None => {
            assert forall|k: int| 0 <= k < r.len() implies (#[trigger] r[k]).0 != p && s.contains(
                r[k],
            ) by {
                assert(r[k] == s[k]);
                assert(s[k].0 != p);
            }
            assert forall|j: int| 0 <= j < s.len() && #[trigger] s[j].0 != p implies r.contains(
                s[j],
            ) by {
                assert(r[j] == s[j]);
            }
        },
        Some(i) => {
            assert forall|a: int, b: int|
                0 <= a < r.len() && 0 <= b < r.len() && a != b implies #[trigger] r[a].0
                != #[trigger] r[b].0 by {
                let oa = if a < i { a } else { a + 1 };
                let ob = if b < i { b } else { b + 1 };
                assert(r[a] == s[oa] && r[b] == s[ob]);
            }
            assert forall|k: int| 0 <= k < r.len() implies (#[trigger] r[k]).0 != p && s.contains(
                r[k],
            ) by {
                let j = if k < i { k } else { k + 1 };
                assert(r[k] == s[j]);
                assert(s[j].0 != s[i].0);
            }
            assert forall|j: int| 0 <= j < s.len() && #[trigger] s[j].0 != p implies r.contains(
                s[j],
            ) by {
                if j < i {
                    assert(r[j] == s[j]);
                } else {
                    assert(r[j - 1] == s[j]);
                }
            }
        },
    }
    lemma_key_index(r, p);
}

/// Putting the same value under a path twice is putting it once.
pub proof fn lemma_put_twice<V>(s: Seq<(Seq<char>, V)>, p: Seq<char>, v: V)
    requires
        keys_unique(s),
    ensures
        ({
            let once = match key_index(s, p) {
                Some(i) => s.update(i, (p, v)),
                None => s.push((p, v)),
            };
            &&& keys_unique(once)
            &&& key_index(once, p) matches Some(k) && once[k] == (p, v)
            &&& match key_index(once, p) {
                Some(i) => once.update(i, (p, v)),
                None => once.push((p, v)),
            } == once
        }),
{
    lemma_key_index(s, p);
    let once = match key_index(s, p) {
        Some(i) => s.update(i, (p, v)),
        None => s.push((p, v)),
    };
    match key_index(s, p) {
        Some(i) => {
            assert forall|a: int, b: int|
                0 <= a < once.len() && 0 <= b < once.len() && a != b implies #[trigger] once[a].0
                != #[trigger] once[b].0 by {
                if a != i {
                    assert(once[a] == s[a]);
                }
                if b != i {
                    assert(once[b] == s[b]);
                }
            }
            lemma_key_index(once, p);
            assert(once[i].0 == p);
            assert(once.update(i, (p, v)) =~= once);
        },
        None => {
            let n = s.len() as int;
            assert forall|a: int, b: int|
                0 <= a < once.len() && 0 <= b < once.len() && a != b implies #[trigger] once[a].0
                != #[trigger] once[b].0 by {
                if a != n {
                    assert(once[a] == s[a]);
                }
                if b != n {
                    assert(once[b] == s[b]);
                }
            }
            lemma_key_index(once, p);
            assert(once[n].0 == p);
            assert(once.update(n, (p, v)) =~= once);
        },
    }
}

} // verus!
