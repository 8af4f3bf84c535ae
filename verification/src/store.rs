//! The note store: an ordered mapping from directory-path strings to ordered
//! lists of note strings, with add/remove/get operations for one fixed
//! working directory.

use vstd::prelude::*;

verus! {

/// Abstract contents of a store: entry list folded into a map, later
/// entries winning on a repeated key.
pub open spec fn entries_map(s: Seq<(Seq<char>, Seq<Seq<char>>)>) -> Map<
    Seq<char>,
    Seq<Seq<char>>,
>
    decreases s.len(),
{
    if s.len() == 0 {
        Map::empty()
    } else {
        entries_map(s.drop_last()).insert(s.last().0, s.last().1)
    }
}

/// No two entries share a key.
pub open spec fn unique_keys(s: Seq<(Seq<char>, Seq<Seq<char>>)>) -> bool {
    forall|i: int, j: int| 0 <= i < j < s.len() ==> s[i].0 != s[j].0
}

/// What `add` does to the abstract mapping: append the notes to the list
/// under the key, creating the list if the key is absent.
pub open spec fn spec_add(
    m: Map<Seq<char>, Seq<Seq<char>>>,
    k: Seq<char>,
    ns: Seq<Seq<char>>,
) -> Map<Seq<char>, Seq<Seq<char>>> {
    m.insert(k, if m.contains_key(k) { m[k] + ns } else { ns })
}

/// Whether position `j` occurs among the requested removal indexes.
pub open spec fn in_indexes(ixs: Seq<usize>, j: int) -> bool {
    exists|k: int| 0 <= k < ixs.len() && ixs[k] as int == j
}

/// Keep the elements of `l` whose absolute position (starting at `from`)
/// is not a requested index; relative order is preserved.
pub open spec fn remove_at(l: Seq<Seq<char>>, ixs: Seq<usize>, from: int) -> Seq<Seq<char>>
    decreases l.len(),
{
    if l.len() == 0 {
        Seq::empty()
    } else {
        (if in_indexes(ixs, from) {
            Seq::<Seq<char>>::empty()
        } else {
            seq![l[0]]
        }) + remove_at(l.drop_first(), ixs, from + 1)
    }
}

/// What `remove` does to one note list.
pub open spec fn spec_remove_notes(l: Seq<Seq<char>>, ixs: Seq<usize>) -> Seq<Seq<char>> {
    remove_at(l, ixs, 0)
}

/// What `remove` does to the abstract mapping: a no-op when the key is
/// absent, else the list is filtered by position.
pub open spec fn spec_remove(
    m: Map<Seq<char>, Seq<Seq<char>>>,
    k: Seq<char>,
    ixs: Seq<usize>,
) -> Map<Seq<char>, Seq<Seq<char>>> {
    if m.contains_key(k) {
        m.insert(k, spec_remove_notes(m[k], ixs))
    } else {
        m
    }
}

/// The in-memory store: the working directory all operations address, and
/// the entry list for every directory.
pub struct Recalls {
    pub cwd: String,
    pub entries: Vec<(String, Vec<String>)>,
}

impl Recalls {
    /// Internal invariant: entry keys are pairwise distinct.
    pub open spec fn wf(&self) -> bool {
        unique_keys(self.entries.deep_view())
    }

    /// The directory-to-notes mapping this store represents.
    pub open spec fn model(&self) -> Map<Seq<char>, Seq<Seq<char>>> {
        entries_map(self.entries.deep_view())
    }

    /// Index of the entry for the working directory, if one exists.
    fn find_entry(&self) -> (r: Option<usize>)
        ensures
            match r {
                Some(i) => i < self.entries@.len()
                    && self.entries.deep_view()[i as int].0 == self.cwd@,
                None => forall|j: int|
                    0 <= j < self.entries@.len() ==> self.entries.deep_view()[j].0 != self.cwd@,
            },
    {
        find_key(&self.entries, &self.cwd)
    }

    /// Append the given notes, in order, to the working directory's list,
    /// creating the entry if it is absent. Other entries are untouched.
    pub fn add(&mut self, notes: Vec<String>)
        requires
            old(self).wf(),
        ensures
            final(self).wf(),
            final(self).cwd == old(self).cwd,
            final(self).model() == spec_add(old(self).model(), old(self).cwd@, notes.deep_view()),
    {
        let ghost s0 = old(self).entries.deep_view();
        let ghost notes0 = notes.deep_view();
        let mut notes = notes;
        match self.find_entry() {
            Some(i) => {
                proof {
                    lemma_map_index(s0, i as int);
                    lemma_map_contains(s0, old(self).cwd@);
                }
                let mut pair = self.entries.remove(i);
                pair.1.append(&mut notes);
                proof {
                    assert(pair.1.deep_view() =~~= s0[i as int].1 + notes0);
                }
                let ghost newnotes = pair.1.deep_view();
                self.entries.insert(i, pair);
                proof {
                    assert(self.entries.deep_view() =~~= s0.update(
                        i as int,
                        (s0[i as int].0, newnotes),
                    ));
                    lemma_update_model(s0, i as int, newnotes);
                    assert(final(self).model() =~~= spec_add(
                        old(self).model(),
                        old(self).cwd@,
                        notes0,
                    ));
                }
            },
            None => {
                let key = self.cwd.clone();
                self.entries.push((key, notes));
                proof {
                    lemma_map_contains(s0, old(self).cwd@);
                    assert(self.entries.deep_view() =~~= s0.push((old(self).cwd@, notes0)));
                    assert(self.entries.deep_view().drop_last() =~~= s0);
                    assert(forall|a: int, b: int|
                        0 <= a < b < self.entries.deep_view().len() ==> self.entries.deep_view()[a].0
                            != self.entries.deep_view()[b].0);
                    assert(final(self).model() =~~= spec_add(
                        old(self).model(),
                        old(self).cwd@,
                        notes0,
                    ));
                }
            },
        }
    }
    /// Remove the notes at the given zero-based positions of the working
    /// directory's list; positions are read against the list as it was
    /// before the call, duplicates count once, and positions at or past
    /// the end are ignored. Absent entry: a no-op.
    pub fn remove(&mut self, indexes: Vec<usize>)
        requires
            old(self).wf(),
        ensures
            final(self).wf(),
            final(self).cwd == old(self).cwd,
            final(self).model() == spec_remove(old(self).model(), old(self).cwd@, indexes@),
    {
        let ghost s0 = old(self).entries.deep_view();
        match self.find_entry() {
            None => {
                proof {
                    lemma_map_contains(s0, old(self).cwd@);
                }
            },
            Some(i) => {
                proof {
                    lemma_map_index(s0, i as int);
                    lemma_map_contains(s0, old(self).cwd@);
                }
                let pair = self.entries.remove(i);
                let ghost l = pair.1.deep_view();
                let n: usize = pair.1.len();
                let mut kept: Vec<String> = Vec::new();
                let mut j: usize = 0;
                while j < n
                    invariant
                        n == pair.1@.len(),
                        l == pair.1.deep_view(),
                        j <= n,
                        kept.deep_view() == remove_at(l.take(j as int), indexes@, 0),
                    decreases n - j,
                {
                    let ghost kept_pre = kept.deep_view();
                    if !contains_index(&indexes, j) {
                        kept.push(pair.1[j].clone());
                        proof {
                            assert(kept.deep_view() =~~= kept_pre + seq![l[j as int]]);
                        }
                    }
                    proof {
                        lemma_remove_at_take_step(l, indexes@, j as int);
                        assert(kept.deep_view() == remove_at(l.take(j as int + 1), indexes@, 0));
                    }
                    j = j + 1;
                }
                proof {
                    assert(l.take(n as int) =~~= l);
                }
                let ghost newnotes = kept.deep_view();
                self.entries.insert(i, (pair.0, kept));
                proof {
                    assert(self.entries.deep_view() =~~= s0.update(
                        i as int,
                        (s0[i as int].0, newnotes),
                    ));
                    lemma_update_model(s0, i as int, newnotes);
                    assert(final(self).model() =~~= spec_remove(
                        old(self).model(),
                        old(self).cwd@,
                        indexes@,
                    ));
                }
            },
        }
    }

    /// The notes list stored for the working directory, if any. Never
    /// mutates the store.
    pub fn get_list(&self) -> (r: Option<&Vec<String>>)
        requires
            self.wf(),
        ensures
            match r {
                Some(l) => self.model().contains_key(self.cwd@) && l.deep_view()
                    == self.model()[self.cwd@],
                None => !self.model().contains_key(self.cwd@),
            },
    {
        match self.find_entry() {
            Some(i) => {
                proof {
                    lemma_map_index(self.entries.deep_view(), i as int);
                }
                Some(&self.entries[i].1)
            },
            None => {
                proof {
                    lemma_map_contains(self.entries.deep_view(), self.cwd@);
                }
                None
            },
        }
    }
}

/// Index of the entry carrying `key`, if one exists.
pub(crate) fn find_key(entries: &Vec<(String, Vec<String>)>, key: &String) -> (r: Option<usize>)
    ensures
        match r {
            Some(i) => i < entries@.len() && entries.deep_view()[i as int].0 == key@,
            None => forall|j: int| 0 <= j < entries@.len() ==> entries.deep_view()[j].0 != key@,
        },
{
    let n: usize = entries.len();
    let mut i: usize = 0;
    while i < n
        invariant
            n == entries@.len(),
            i <= n,
            forall|j: int| 0 <= j < i ==> entries.deep_view()[j].0 != key@,
        decreases n - i,
    {
        if entries[i].0 == *key {
            return Some(i);
        }
        i = i + 1;
    }
    None
}

/// Whether `x` occurs in `v`.
fn contains_index(v: &Vec<usize>, x: usize) -> (r: bool)
    ensures
        r == in_indexes(v@, x as int),
{
    let n: usize = v.len();
    let mut k: usize = 0;
    while k < n
        invariant
            n == v@.len(),
            k <= n,
            forall|t: int| 0 <= t < k ==> v@[t] as int != x as int,
        decreases n - k,
    {
        if v[k] == x {
            proof {
                assert(v@[k as int] as int == x as int);
            }
            return true;
        }
        k = k + 1;
    }
    false
}

/// Splitting the input splits the removal result at the same point.
proof fn lemma_remove_at_concat(
    a: Seq<Seq<char>>,
    b: Seq<Seq<char>>,
    ixs: Seq<usize>,
    from: int,
)
    ensures
        remove_at(a + b, ixs, from) == remove_at(a, ixs, from) + remove_at(
            b,
            ixs,
            from + a.len(),
        ),
    decreases a.len(),
{
    if a.len() == 0 {
        assert(a + b =~~= b);
        assert(remove_at(a, ixs, from) + remove_at(b, ixs, from + a.len()) =~~= remove_at(
            b,
            ixs,
            from,
        ));
    } else {
        assert((a + b).drop_first() =~~= a.drop_first() + b);
        lemma_remove_at_concat(a.drop_first(), b, ixs, from + 1);
        assert((a + b)[0] == a[0]);
        assert(remove_at(a + b, ixs, from) =~~= remove_at(a, ixs, from) + remove_at(
            b,
            ixs,
            from + a.len(),
        ));
    }
}

/// One more element of input contributes its one (kept or dropped) slot.
proof fn lemma_remove_at_take_step(l: Seq<Seq<char>>, ixs: Seq<usize>, j: int)
    requires
        0 <= j < l.len(),
    ensures
        remove_at(l.take(j + 1), ixs, 0) == remove_at(l.take(j), ixs, 0) + (if in_indexes(
            ixs,
            j,
        ) {
            Seq::<Seq<char>>::empty()
        } else {
            seq![l[j]]
        }),
{
    assert(l.take(j + 1) =~~= l.take(j) + seq![l[j]]);
    lemma_remove_at_concat(l.take(j), seq![l[j]], ixs, 0);
    assert(remove_at(seq![l[j]], ixs, j) =~~= (if in_indexes(ixs, j) {
        Seq::<Seq<char>>::empty()
    } else {
        seq![l[j]]
    })) by {
        let s = seq![l[j]];
        assert(s.len() == 1 && s[0] == l[j]);
        assert(s.drop_first() =~~= Seq::<Seq<char>>::empty());
        assert(remove_at(s.drop_first(), ixs, j + 1) == Seq::<Seq<char>>::empty());
        if in_indexes(ixs, j) {
            assert(remove_at(s, ixs, j) =~~= Seq::<Seq<char>>::empty());
        } else {
            assert(remove_at(s, ixs, j) =~~= seq![l[j]]);
        }
    }
}

/// Two adds under one key concatenate: the list after adding `ns1` and
/// then `ns2` is the list after adding `ns1 + ns2` at once. With
/// `lemma_add_fresh_key` this gives, by induction over a call sequence,
/// that a list built by adds to an initially absent key equals the
/// concatenation of everything added, in call order.
pub proof fn lemma_add_concatenates(
    m: Map<Seq<char>, Seq<Seq<char>>>,
    k: Seq<char>,
    ns1: Seq<Seq<char>>,
    ns2: Seq<Seq<char>>,
)
    ensures
        spec_add(spec_add(m, k, ns1), k, ns2) == spec_add(m, k, ns1 + ns2),
{
    if m.contains_key(k) {
        assert((m[k] + ns1) + ns2 =~~= m[k] + (ns1 + ns2));
    }
    assert(spec_add(spec_add(m, k, ns1), k, ns2) =~~= spec_add(m, k, ns1 + ns2));
}

/// Adding under an absent key stores exactly the added notes.
pub proof fn lemma_add_fresh_key(m: Map<Seq<char>, Seq<Seq<char>>>, k: Seq<char>, ns: Seq<Seq<char>>)
    requires
        !m.contains_key(k),
    ensures
        spec_add(m, k, ns).contains_key(k),
        spec_add(m, k, ns)[k] == ns,
{
}

/// Adding under one key leaves every other key's entry untouched.
pub proof fn lemma_add_other_keys(
    m: Map<Seq<char>, Seq<Seq<char>>>,
    k: Seq<char>,
    ns: Seq<Seq<char>>,
    k2: Seq<char>,
)
    requires
        k2 != k,
    ensures
        spec_add(m, k, ns).contains_key(k2) == m.contains_key(k2),
        m.contains_key(k2) ==> spec_add(m, k, ns)[k2] == m[k2],
{
}

/// Removal only reads which positions are named: index lists that agree
/// as sets of positions over the list's range remove the same elements.
proof fn lemma_remove_at_agree(l: Seq<Seq<char>>, ixs1: Seq<usize>, ixs2: Seq<usize>, from: int)
    requires
        forall|j: int|
            from <= j < from + l.len() ==> (in_indexes(ixs1, j) <==> in_indexes(ixs2, j)),
    ensures
        remove_at(l, ixs1, from) == remove_at(l, ixs2, from),
    decreases l.len(),
{
    if l.len() > 0 {
        lemma_remove_at_agree(l.drop_first(), ixs1, ixs2, from + 1);
    }
}

/// Duplicate or reordered indexes change nothing: removal with any two
/// index lists naming the same positions gives the same list.
pub proof fn lemma_remove_same_members(l: Seq<Seq<char>>, ixs1: Seq<usize>, ixs2: Seq<usize>)
    requires
        forall|j: int| in_indexes(ixs1, j) <==> in_indexes(ixs2, j),
    ensures
        spec_remove_notes(l, ixs1) == spec_remove_notes(l, ixs2),
{
    lemma_remove_at_agree(l, ixs1, ixs2, 0);
}

/// An index at or past the end of the list is ignored: adding it to the
/// removal request leaves the result unchanged.
pub proof fn lemma_remove_ignores_oob(l: Seq<Seq<char>>, ixs: Seq<usize>, extra: usize)
    requires
        extra as int >= l.len(),
    ensures
        spec_remove_notes(l, ixs.push(extra)) == spec_remove_notes(l, ixs),
{
    assert forall|j: int| 0 <= j < l.len() implies (in_indexes(ixs.push(extra), j) <==> in_indexes(
        ixs,
        j,
    )) by {
        if in_indexes(ixs.push(extra), j) {
            let k = choose|k: int|
                0 <= k < ixs.push(extra).len() && ixs.push(extra)[k] as int == j;
            assert(k < ixs.len());
            assert(ixs[k] as int == j);
        }
        if in_indexes(ixs, j) {
            let k = choose|k: int| 0 <= k < ixs.len() && ixs[k] as int == j;
            assert(ixs.push(extra)[k] as int == j);
        }
    }
    lemma_remove_at_agree(l, ixs.push(extra), ixs, 0);
}

/// The positions a removal keeps, in ascending order.
pub open spec fn kept_positions(len: int, ixs: Seq<usize>, from: int) -> Seq<int>
    decreases len,
    when len >= 0
{
    if len <= 0 {
        Seq::empty()
    } else {
        (if in_indexes(ixs, from) {
            Seq::<int>::empty()
        } else {
            seq![from]
        }) + kept_positions(len - 1, ixs, from + 1)
    }
}

proof fn lemma_remove_at_positions(l: Seq<Seq<char>>, ixs: Seq<usize>, from: int)
    ensures
        ({
            let ps = kept_positions(l.len() as int, ixs, from);
            let r = remove_at(l, ixs, from);
            &&& r.len() == ps.len()
            &&& forall|t: int|
                0 <= t < ps.len() ==> from <= #[trigger] ps[t] < from + l.len() && !in_indexes(
                    ixs,
                    ps[t],
                ) && r[t] == l[ps[t] - from]
            &&& forall|t: int| 0 <= t < ps.len() - 1 ==> #[trigger] ps[t] < ps[t + 1]
            &&& forall|p: int|
                from <= p < from + l.len() && !in_indexes(ixs, p) ==> kept_positions(
                    l.len() as int,
                    ixs,
                    from,
                ).contains(p)
        }),
    decreases l.len(),
{
    if l.len() > 0 {
        lemma_remove_at_positions(l.drop_first(), ixs, from + 1);
        let ps = kept_positions(l.len() as int, ixs, from);
        let r = remove_at(l, ixs, from);
        let ps1 = kept_positions(l.len() - 1, ixs, from + 1);
        let r1 = remove_at(l.drop_first(), ixs, from + 1);
        let off: int = if in_indexes(ixs, from) {
            0
        } else {
            1
        };
        assert(forall|t: int| 0 <= t < ps1.len() ==> ps[t + off] == ps1[t] && r[t + off] == r1[t]);
        assert(forall|t: int|
            0 <= t < ps1.len() ==> l.drop_first()[ps1[t] - (from + 1)] == l[ps1[t] - from]);
        assert forall|p: int|
            from <= p < from + l.len() && !in_indexes(ixs, p) implies ps.contains(p) by {
            if p == from {
                assert(ps[0] == from);
            } else {
                assert(ps1.contains(p));
                let t = choose|t: int| 0 <= t < ps1.len() && ps1[t] == p;
                assert(ps[t + off] == p);
            }
        }
    }
}

/// Removal keeps exactly the elements whose position is not named by the
/// index list, and keeps them in their original relative order: the
/// result reads off the ascending kept positions, every kept slot comes
/// from a position not named, and every position not named is kept.
pub proof fn lemma_remove_exact(l: Seq<Seq<char>>, ixs: Seq<usize>)
    ensures
        ({
            let ps = kept_positions(l.len() as int, ixs, 0);
            let r = spec_remove_notes(l, ixs);
            &&& r.len() == ps.len()
            &&& forall|t: int|
                0 <= t < ps.len() ==> 0 <= #[trigger] ps[t] < l.len() && !in_indexes(ixs, ps[t])
                    && r[t] == l[ps[t]]
            &&& forall|t: int| 0 <= t < ps.len() - 1 ==> #[trigger] ps[t] < ps[t + 1]
            &&& forall|p: int|
                0 <= p < l.len() && !in_indexes(ixs, p) ==> kept_positions(
                    l.len() as int,
                    ixs,
                    0,
                ).contains(p)
        }),
{
    lemma_remove_at_positions(l, ixs, 0);
}

/// A key occurs in the folded map exactly when some entry carries it.
pub proof fn lemma_map_contains(s: Seq<(Seq<char>, Seq<Seq<char>>)>, k: Seq<char>)
    ensures
        entries_map(s).contains_key(k) <==> exists|i: int| 0 <= i < s.len() && s[i].0 == k,
    decreases s.len(),
{
    if s.len() > 0 {
        lemma_map_contains(s.drop_last(), k);
        if s.last().0 == k {
            assert(s[s.len() - 1].0 == k);
        } else if entries_map(s).contains_key(k) {
            let i = choose|i: int| 0 <= i < s.drop_last().len() && s.drop_last()[i].0 == k;
            assert(s[i].0 == k);
        } else if exists|i: int| 0 <= i < s.len() && s[i].0 == k {
            let i = choose|i: int| 0 <= i < s.len() && s[i].0 == k;
            assert(s.drop_last()[i].0 == k);
        }
    }
}

/// Under unique keys, the folded map sends each entry's key to its list.
pub proof fn lemma_map_index(s: Seq<(Seq<char>, Seq<Seq<char>>)>, i: int)
    requires
        unique_keys(s),
        0 <= i < s.len(),
    ensures
        entries_map(s).contains_key(s[i].0),
        entries_map(s)[s[i].0] == s[i].1,
    decreases s.len(),
{
    lemma_map_contains(s, s[i].0);
    if i < s.len() - 1 {
        assert(s[i].0 != s.last().0);
        assert(s.drop_last()[i] == s[i]);
        assert(unique_keys(s.drop_last())) by {
            assert(forall|a: int, b: int|
                0 <= a < b < s.drop_last().len() ==> s.drop_last()[a] == s[a]
                    && s.drop_last()[b] == s[b]);
        }
        lemma_map_index(s.drop_last(), i);
    }
}

/// Replacing the list of entry `i` updates exactly that key in the map.
pub proof fn lemma_update_model(
    s: Seq<(Seq<char>, Seq<Seq<char>>)>,
    i: int,
    v: Seq<Seq<char>>,
)
    requires
        unique_keys(s),
        0 <= i < s.len(),
    ensures
        unique_keys(s.update(i, (s[i].0, v))),
        entries_map(s.update(i, (s[i].0, v))) == entries_map(s).insert(s[i].0, v),
    decreases s.len(),
{
    let t = s.update(i, (s[i].0, v));
    assert(forall|a: int| 0 <= a < s.len() ==> t[a].0 == s[a].0);
    assert(unique_keys(t));
    if i == s.len() - 1 {
        assert(t.drop_last() =~~= s.drop_last());
        assert(entries_map(t) == entries_map(s.drop_last()).insert(s[i].0, v));
        assert(entries_map(s) == entries_map(s.drop_last()).insert(s[i].0, s[i].1));
        assert(entries_map(t) =~~= entries_map(s).insert(s[i].0, v));
    } else {
        assert(unique_keys(s.drop_last())) by {
            assert(forall|a: int, b: int|
                0 <= a < b < s.drop_last().len() ==> s.drop_last()[a] == s[a]
                    && s.drop_last()[b] == s[b]);
        }
        assert(t.drop_last() =~~= s.drop_last().update(i, (s[i].0, v)));
        lemma_update_model(s.drop_last(), i, v);
        assert(s[i].0 != s.last().0);
        assert(entries_map(t) == entries_map(s.drop_last()).insert(s[i].0, v).insert(
            s.last().0,
            s.last().1,
        ));
        assert(entries_map(t) =~~= entries_map(s).insert(s[i].0, v));
    }
}

} // verus!
