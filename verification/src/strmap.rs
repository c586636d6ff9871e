//! An ordered string-to-string map with unique keys, kept sorted by key so
//! that iteration order is deterministic.  Duplicate inserts overwrite: the
//! last write wins.
use vstd::prelude::*;
use crate::chars::{lex_lt, lemma_lex_lt_conn, lemma_lex_lt_trans, str_lt, str_eq};

verus! {

/// The map described by a sequence of key-value pairs, later pairs
/// overriding earlier ones with the same key.
pub open spec fn map_of_pairs(ps: Seq<(Seq<char>, Seq<char>)>) -> Map<Seq<char>, Seq<char>>
    decreases ps.len(),
{
    if ps.len() == 0 {
        Map::empty()
    } else {
        map_of_pairs(ps.drop_last()).insert(ps.last().0, ps.last().1)
    }
}

pub open spec fn distinct_keys(ps: Seq<(Seq<char>, Seq<char>)>) -> bool {
    forall|i: int, j: int|
        0 <= i < j < ps.len() ==> (#[trigger] ps[i]).0 != (#[trigger] ps[j]).0
}

pub proof fn lemma_mop_contains(ps: Seq<(Seq<char>, Seq<char>)>, k: Seq<char>)
    ensures
        map_of_pairs(ps).contains_key(k) <==> exists|i: int|
            0 <= i < ps.len() && (#[trigger] ps[i]).0 == k,
    decreases ps.len(),
{
    if ps.len() == 0 {
    } else {
        let pre = ps.drop_last();
        lemma_mop_contains(pre, k);
        if ps.last().0 == k {
            assert(ps[ps.len() - 1].0 == k);
        } else {
            if map_of_pairs(ps).contains_key(k) {
                let i = choose|i: int| 0 <= i < pre.len() && (#[trigger] pre[i]).0 == k;
                assert(ps[i].0 == k);
            }
            if exists|i: int| 0 <= i < ps.len() && (#[trigger] ps[i]).0 == k {
                let i = choose|i: int| 0 <= i < ps.len() && (#[trigger] ps[i]).0 == k;
                assert(i < ps.len() - 1);
                assert(pre[i].0 == k);
            }
        }
    }
}

pub proof fn lemma_mop_get(ps: Seq<(Seq<char>, Seq<char>)>, i: int)
    requires
        distinct_keys(ps),
        0 <= i < ps.len(),
    ensures
        map_of_pairs(ps).contains_key(ps[i].0),
        map_of_pairs(ps)[ps[i].0] == ps[i].1,
    decreases ps.len(),
{
    let pre = ps.drop_last();
    if i == ps.len() - 1 {
        assert(ps.last() == ps[i]);
    } else {
        assert forall|x: int, y: int| 0 <= x < y < pre.len() implies (#[trigger] pre[x]).0 != (
        #[trigger] pre[y]).0 by {
            assert(pre[x] == ps[x] && pre[y] == ps[y]);
        }
        lemma_mop_get(pre, i);
        assert(pre[i] == ps[i]);
        assert(ps.last().0 != ps[i].0);
    }
}

pub proof fn lemma_mop_insert_at(ps: Seq<(Seq<char>, Seq<char>)>, j: int, k: Seq<char>, v: Seq<char>)
    requires
        0 <= j <= ps.len(),
        forall|i: int| 0 <= i < ps.len() ==> (#[trigger] ps[i]).0 != k,
    ensures
        map_of_pairs(ps.insert(j, (k, v))) == map_of_pairs(ps).insert(k, v),
    decreases ps.len(),
{
    let q = ps.insert(j, (k, v));
    if j == ps.len() {
        assert(q =~= ps.push((k, v)));
        assert(q.drop_last() =~= ps);
        assert(q.last() == (k, v));
    } else {
        let pre = ps.drop_last();
        let lastp = ps.last();
        assert(q.last() == lastp);
        assert(q.drop_last() =~= pre.insert(j, (k, v)));
        assert forall|i: int| 0 <= i < pre.len() implies (#[trigger] pre[i]).0 != k by {
            assert(pre[i] == ps[i]);
        }
        lemma_mop_insert_at(pre, j, k, v);
        assert(ps[ps.len() - 1].0 != k);
        assert(map_of_pairs(pre).insert(k, v).insert(lastp.0, lastp.1) =~= map_of_pairs(
            pre,
        ).insert(lastp.0, lastp.1).insert(k, v));
    }
}

pub proof fn lemma_mop_update_at(ps: Seq<(Seq<char>, Seq<char>)>, j: int, v: Seq<char>)
    requires
        distinct_keys(ps),
        0 <= j < ps.len(),
    ensures
        map_of_pairs(ps.update(j, (ps[j].0, v))) == map_of_pairs(ps).insert(ps[j].0, v),
    decreases ps.len(),
{
    let k = ps[j].0;
    let q = ps.update(j, (k, v));
    if j == ps.len() - 1 {
        assert(q.drop_last() =~= ps.drop_last());
        assert(q.last() == (k, v));
        assert(map_of_pairs(ps).insert(k, v) =~= map_of_pairs(ps.drop_last()).insert(k, v));
    } else {
        let pre = ps.drop_last();
        let lastp = ps.last();
        assert forall|x: int, y: int| 0 <= x < y < pre.len() implies (#[trigger] pre[x]).0 != (
        #[trigger] pre[y]).0 by {
            assert(pre[x] == ps[x] && pre[y] == ps[y]);
        }
        assert(pre[j] == ps[j]);
        assert(q.drop_last() =~= pre.update(j, (k, v)));
        assert(q.last() == lastp);
        lemma_mop_update_at(pre, j, v);
        assert(ps[ps.len() - 1].0 != k);
        assert(map_of_pairs(pre).insert(k, v).insert(lastp.0, lastp.1) =~= map_of_pairs(
            pre,
        ).insert(lastp.0, lastp.1).insert(k, v));
    }
}

/// A string-keyed map stored as a vector of pairs kept strictly sorted by
/// key, so keys are unique and iteration order is deterministic.
pub struct StrMap {
    entries: Vec<(String, String)>,
}

impl View for StrMap {
    type V = Map<Seq<char>, Seq<char>>;

    closed spec fn view(&self) -> Map<Seq<char>, Seq<char>> {
        map_of_pairs(self.entries.deep_view())
    }
}

impl StrMap {
    /// The key-value pairs in storage order (ascending by key when
    /// well formed).
    pub closed spec fn entries_view(self) -> Seq<(Seq<char>, Seq<char>)> {
        self.entries.deep_view()
    }

    /// Keys are strictly ascending, hence unique.
    pub closed spec fn wf(self) -> bool {
        forall|i: int, j: int|
            0 <= i < j < self.entries.deep_view().len() ==> lex_lt(
                (#[trigger] self.entries.deep_view()[i]).0,
                (#[trigger] self.entries.deep_view()[j]).0,
            )
    }

    pub proof fn lemma_entries_sorted(self)
        requires
            self.wf(),
        ensures
            forall|i: int, j: int|
                0 <= i < j < self.entries_view().len() ==> lex_lt(
                    (#[trigger] self.entries_view()[i]).0,
                    (#[trigger] self.entries_view()[j]).0,
                ),
            distinct_keys(self.entries_view()),
            self@ == map_of_pairs(self.entries_view()),
    {
        let dv = self.entries_view();
        assert forall|i: int, j: int| 0 <= i < j < dv.len() implies (#[trigger] dv[i]).0 != (
        #[trigger] dv[j]).0 by {
            lemma_lex_lt_conn(dv[i].0, dv[j].0);
        }
    }

    pub fn new() -> (r: StrMap)
        ensures
            r@ == Map::<Seq<char>, Seq<char>>::empty(),
            r.wf(),
            r.entries_view().len() == 0,
    {
        let r = StrMap { entries: Vec::new() };
        proof {
            assert(r.entries.deep_view() =~= Seq::<(Seq<char>, Seq<char>)>::empty());
        }
        r
    }

    pub fn len(&self) -> (n: usize)
        ensures
            n == self.entries_view().len(),
    {
        self.entries.len()
    }

    /// A copy of the `i`th key-value pair in storage order.
    pub fn entry_at(&self, i: usize) -> (kv: (String, String))
        requires
            i < self.entries_view().len(),
        ensures
            kv.0@ == self.entries_view()[i as int].0,
            kv.1@ == self.entries_view()[i as int].1,
    {
        let e = &self.entries[i];
        (e.0.clone(), e.1.clone())
    }

    /// A copy of the map with the same contents.
    pub fn duplicate(&self) -> (r: StrMap)
        ensures
            r.entries_view() == self.entries_view(),
            r@ == self@,
            r.wf() == self.wf(),
    {
        let mut v: Vec<(String, String)> = Vec::new();
        let n = self.entries.len();
        let mut i: usize = 0;
        proof {
            assert(v.deep_view() =~= self.entries.deep_view().subrange(0, 0));
        }
        while i < n
            invariant
                i <= n,
                n == self.entries.len(),
                v@.len() == i,
                v.deep_view() =~= self.entries.deep_view().subrange(0, i as int),
            decreases n - i,
        {
            let e = &self.entries[i];
            v.push((e.0.clone(), e.1.clone()));
            proof {
                assert(self.entries.deep_view()[i as int] == (
                    self.entries@[i as int].0@,
                    self.entries@[i as int].1@,
                ));
                assert(v.deep_view()[i as int] == (v@[i as int].0@, v@[i as int].1@));
                assert(v.deep_view() =~= self.entries.deep_view().subrange(0, i + 1));
            }
            i = i + 1;
        }
        let r = StrMap { entries: v };
        proof {
            assert(r.entries_view() =~= self.entries_view());
        }
        r
    }

    /// Looks the key up; returns a copy of the mapped value if present.
    pub fn get(&self, k: &str) -> (r: Option<String>)
        requires
            self.wf(),
        ensures
            match r {
                Some(v) => self@.contains_key(k@) && v@ == self@[k@],
                None => !self@.contains_key(k@),
            },
    {
        let n = self.entries.len();
        let mut i: usize = 0;
        while i < n
            invariant
                i <= n,
                n == self.entries.len(),
                self.wf(),
                forall|j: int| 0 <= j < i ==> (#[trigger] self.entries_view()[j]).0 != k@,
            decreases n - i,
        {
            if str_eq(self.entries[i].0.as_str(), k) {
                proof {
                    self.lemma_entries_sorted();
                    assert(self.entries_view()[i as int].0 == k@);
                    lemma_mop_get(self.entries_view(), i as int);
                }
                return Some(self.entries[i].1.clone());
            }
            proof {
                assert(self.entries_view()[i as int].0 == self.entries@[i as int].0@);
            }
            i = i + 1;
        }
        proof {
            lemma_mop_contains(self.entries_view(), k@);
            if self@.contains_key(k@) {
                let j = choose|j: int|
                    0 <= j < self.entries_view().len() && (#[trigger] self.entries_view()[j]).0
                        == k@;
                assert(false);
            }
        }
        None
    }

    /// Inserts the pair, overwriting the value of an existing equal key.
    pub fn insert(&mut self, k: String, v: String)
        requires
            old(self).wf(),
        ensures
            final(self).wf(),
            final(self)@ == old(self)@.insert(k@, v@),
            final(self).entries_view().len() <= old(self).entries_view().len() + 1,
    {
        let n = self.entries.len();
        let mut j: usize = 0;
        while j < n && str_lt(self.entries[j].0.as_str(), k.as_str())
            invariant
                j <= n,
                n == self.entries.len(),
                self.entries == old(self).entries,
                forall|i: int| 0 <= i < j ==> lex_lt((#[trigger] self.entries_view()[i]).0, k@),
            decreases n - j,
        {
            proof {
                assert(self.entries_view()[j as int].0 == self.entries@[j as int].0@);
            }
            j = j + 1;
        }
        let ghost old_dv = self.entries_view();
        proof {
            self.lemma_entries_sorted();
        }
        if j < n && str_eq(self.entries[j].0.as_str(), k.as_str()) {
            proof {
                assert(old_dv[j as int].0 == k@);
            }
            self.entries.remove(j);
            self.entries.insert(j, (k, v));
            proof {
                assert(self.entries@ =~= old(self).entries@.update(j as int, (k, v)));
                assert(self.entries_view() =~= old_dv.update(j as int, (k@, v@)));
                lemma_mop_update_at(old_dv, j as int, v@);
                assert(old_dv.update(j as int, (k@, v@)) == old_dv.update(
                    j as int,
                    (old_dv[j as int].0, v@),
                ));
                assert(self@ == old(self)@.insert(k@, v@));
                let dv = self.entries_view();
                assert forall|x: int, y: int| 0 <= x < y < dv.len() implies lex_lt(
                    (#[trigger] dv[x]).0,
                    (#[trigger] dv[y]).0,
                ) by {
                    assert(dv[x].0 == old_dv[x].0);
                    assert(dv[y].0 == old_dv[y].0);
                }
            }
        } else {
            proof {
                assert forall|i: int| 0 <= i < n implies (#[trigger] old_dv[i]).0 != k@ by {
                    if i < j {
                        lemma_lex_lt_conn(old_dv[i].0, k@);
                    } else {
                        assert(!lex_lt(old_dv[j as int].0, k@));
                        assert(old_dv[j as int].0 != k@);
                        lemma_lex_lt_conn(old_dv[j as int].0, k@);
                        assert(lex_lt(k@, old_dv[j as int].0));
                        if i > j {
                            lemma_lex_lt_trans(k@, old_dv[j as int].0, old_dv[i].0);
                        }
                        lemma_lex_lt_conn(k@, old_dv[i].0);
                    }
                }
            }
            self.entries.insert(j, (k, v));
            proof {
                assert(self.entries_view() =~= old_dv.insert(j as int, (k@, v@)));
                lemma_mop_insert_at(old_dv, j as int, k@, v@);
                let dv = self.entries_view();
                assert forall|x: int, y: int| 0 <= x < y < dv.len() implies lex_lt(
                    (#[trigger] dv[x]).0,
                    (#[trigger] dv[y]).0,
                ) by {
                    if x < j && y == j {
                        assert(dv[x].0 == old_dv[x].0);
                        assert(dv[y].0 == k@);
                    } else if x == j && y > j {
                        assert(dv[x].0 == k@);
                        assert(dv[y].0 == old_dv[y - 1].0);
                        assert(!lex_lt(old_dv[j as int].0, k@));
                        assert(old_dv[j as int].0 != k@);
                        lemma_lex_lt_conn(old_dv[j as int].0, k@);
                        if y - 1 > j {
                            lemma_lex_lt_trans(k@, old_dv[j as int].0, old_dv[y - 1].0);
                        }
                    } else if x < j && y > j {
                        assert(dv[x].0 == old_dv[x].0);
                        assert(dv[y].0 == old_dv[y - 1].0);
                        if y - 1 == x {
                            assert(false);
                        }
                    } else if x > j {
                        assert(dv[x].0 == old_dv[x - 1].0);
                        assert(dv[y].0 == old_dv[y - 1].0);
                    } else if y < j {
                        assert(dv[x].0 == old_dv[x].0);
                        assert(dv[y].0 == old_dv[y].0);
                    }
                }
            }
        }
    }
}

} // verus!
