//! The client's handle registry: one intern table per entity kind. A handle
//! is a number that stays the same while the id behind it changes; the table
//! maps each live handle to the id it currently stands for.
use vstd::prelude::*;

use crate::ids::{EntityId, ElementId, LocationId, ModuleId};

verus! {

/// One row of a table, as the contracts see it: a handle and the key of the
/// id it stands for.
pub type Row = (u64, Seq<u64>);

/// No two rows share a handle.
pub open spec fn distinct_handles(s: Seq<Row>) -> bool {
    forall|i: int, j: int| 0 <= i < s.len() && 0 <= j < s.len() && i != j ==> s[i].0 != s[j].0
}

/// No two rows share a key: one entity has at most one handle.
pub open spec fn distinct_keys(s: Seq<Row>) -> bool {
    forall|i: int, j: int| 0 <= i < s.len() && 0 <= j < s.len() && i != j ==> s[i].1 != s[j].1
}

/// Every handle was given out before `next`.
pub open spec fn handles_below(s: Seq<Row>, next: u64) -> bool {
    forall|i: int| 0 <= i < s.len() ==> s[i].0 < next
}

pub open spec fn has_key(s: Seq<Row>, k: Seq<u64>) -> bool {
    exists|i: int| 0 <= i < s.len() && s[i].1 == k
}

pub open spec fn has_handle(s: Seq<Row>, h: u64) -> bool {
    exists|i: int| 0 <= i < s.len() && s[i].0 == h
}

/// The rows whose key is not `k`, in their order.
pub open spec fn without(s: Seq<Row>, k: Seq<u64>) -> Seq<Row>
    decreases s.len(),
{
    if s.len() == 0 {
        s
    } else {
        let r = without(s.drop_last(), k);
        if s.last().1 == k {
            r
        } else {
            r.push(s.last())
        }
    }
}

/// The rows after the entity with key `from` has become `to`: its row carries
/// `to`, and a row that stood for `to` before is dropped as stale.
pub open spec fn renamed(s: Seq<Row>, from: Seq<u64>, to: Seq<u64>) -> Seq<Row>
    decreases s.len(),
{
    if s.len() == 0 {
        s
    } else {
        let r = renamed(s.drop_last(), from, to);
        let e = s.last();
        if e.1 == from {
            r.push((e.0, to))
        } else if e.1 == to {
            r
        } else {
            r.push(e)
        }
    }
}

/// The rows whose handle is still referenced from outside the table
/// (`counts` holds each row's reference count, the table's own included).
pub open spec fn collected(s: Seq<Row>, counts: Seq<usize>) -> Seq<Row>
    recommends
        s.len() == counts.len(),
    decreases s.len(),
{
    if s.len() == 0 || counts.len() == 0 {
        Seq::empty()
    } else {
        let r = collected(s.drop_last(), counts.drop_last());
        if counts.last() > 1 {
            r.push(s.last())
        } else {
            r
        }
    }
}

pub proof fn lemma_without(s: Seq<Row>, k: Seq<u64>)
    ensures
        forall|x: Row| without(s, k).contains(x) <==> (s.contains(x) && x.1 != k),
        distinct_handles(s) ==> distinct_handles(without(s, k)),
        distinct_keys(s) ==> distinct_keys(without(s, k)),
        !has_key(without(s, k), k),
    decreases s.len(),
{
    if s.len() > 0 {
        let d = s.drop_last();
        lemma_without(d, k);
        let r = without(d, k);
        assert forall|x: Row| s.contains(x) <==> (d.contains(x) || x == s.last()) by {
            if s.contains(x) {
                let i = choose|i: int| 0 <= i < s.len() && s[i] == x;
                if i < s.len() - 1 {
                    assert(d[i] == x);
                }
            }
            if d.contains(x) {
                let i = choose|i: int| 0 <= i < d.len() && d[i] == x;
                assert(s[i] == x);
            }
            if x == s.last() {
                assert(s[s.len() - 1] == x);
            }
        }
        if s.last().1 != k {
            let e = s.last();
            assert forall|x: Row| r.push(e).contains(x) <==> (r.contains(x) || x == e) by {
                if r.push(e).contains(x) {
                    let i = choose|i: int| 0 <= i < r.push(e).len() && r.push(e)[i] == x;
                    if i < r.len() {
                        assert(r[i] == x);
                    }
                }
                if r.contains(x) {
                    let i = choose|i: int| 0 <= i < r.len() && r[i] == x;
                    assert(r.push(e)[i] == x);
                }
                if x == e {
                    assert(r.push(e)[r.len() as int] == x);
                }
            }
            if distinct_handles(s) {
                assert forall|i: int| 0 <= i < r.len() implies r[i].0 != e.0 by {
                    assert(r.contains(r[i]));
                    assert(d.contains(r[i]));
                    let j = choose|j: int| 0 <= j < d.len() && d[j] == r[i];
                    assert(s[j] == d[j]);
                    assert(s[s.len() - 1] == e);
                }
                assert(distinct_handles(d)) by {
                    assert forall|i: int, j: int|
                        0 <= i < d.len() && 0 <= j < d.len() && i != j implies d[i].0 != d[j].0 by {
                        assert(s[i] == d[i] && s[j] == d[j]);
                    }
                }
            }
            if distinct_keys(s) {
                assert forall|i: int| 0 <= i < r.len() implies r[i].1 != e.1 by {
                    assert(r.contains(r[i]));
                    assert(d.contains(r[i]));
                    let j = choose|j: int| 0 <= j < d.len() && d[j] == r[i];
                    assert(s[j] == d[j]);
                    assert(s[s.len() - 1] == e);
                }
                assert(distinct_keys(d)) by {
                    assert forall|i: int, j: int|
                        0 <= i < d.len() && 0 <= j < d.len() && i != j implies d[i].1 != d[j].1 by {
                        assert(s[i] == d[i] && s[j] == d[j]);
                    }
                }
            }
            assert(!has_key(r.push(e), k)) by {
                if has_key(r.push(e), k) {
                    let i = choose|i: int| 0 <= i < r.push(e).len() && r.push(e)[i].1 == k;
                    assert(i < r.len());
                    assert(r[i].1 == k);
                }
            }
        } else {
            if distinct_handles(s) {
                assert forall|i: int, j: int|
                    0 <= i < d.len() && 0 <= j < d.len() && i != j implies d[i].0 != d[j].0 by {
                    assert(s[i] == d[i] && s[j] == d[j]);
                }
            }
            if distinct_keys(s) {
                assert forall|i: int, j: int|
                    0 <= i < d.len() && 0 <= j < d.len() && i != j implies d[i].1 != d[j].1 by {
                    assert(s[i] == d[i] && s[j] == d[j]);
                }
            }
        }
    }
}


proof fn lemma_push_contains(r: Seq<Row>, e: Row)
    ensures
        forall|x: Row| r.push(e).contains(x) <==> (r.contains(x) || x == e),
{
    assert forall|x: Row| r.push(e).contains(x) <==> (r.contains(x) || x == e) by {
        if r.push(e).contains(x) {
            let i = choose|i: int| 0 <= i < r.push(e).len() && r.push(e)[i] == x;
            if i < r.len() {
                assert(r[i] == x);
            }
        }
        if r.contains(x) {
            let i = choose|i: int| 0 <= i < r.len() && r[i] == x;
            assert(r.push(e)[i] == x);
        }
        if x == e {
            assert(r.push(e)[r.len() as int] == x);
        }
    }
}

proof fn lemma_drop_last(s: Seq<Row>)
    requires
        s.len() > 0,
    ensures
        forall|x: Row| s.contains(x) <==> (s.drop_last().contains(x) || x == s.last()),
        distinct_handles(s) ==> distinct_handles(s.drop_last()),
        distinct_keys(s) ==> distinct_keys(s.drop_last()),
        distinct_handles(s) ==> forall|x: Row| #[trigger] s.drop_last().contains(x) ==> x.0 != s.last().0,
        distinct_keys(s) ==> forall|x: Row| #[trigger] s.drop_last().contains(x) ==> x.1 != s.last().1,
{
    let d = s.drop_last();
    assert(s =~= d.push(s.last()));
    lemma_push_contains(d, s.last());
    assert forall|x: Row| #[trigger] d.contains(x) implies exists|j: int| 0 <= j < d.len() && s[j] == x by {
        let j = choose|j: int| 0 <= j < d.len() && d[j] == x;
        assert(s[j] == d[j]);
    }
    if distinct_handles(s) {
        assert forall|i: int, j: int|
            0 <= i < d.len() && 0 <= j < d.len() && i != j implies d[i].0 != d[j].0 by {
            assert(s[i] == d[i] && s[j] == d[j]);
        }
    }
    if distinct_keys(s) {
        assert forall|i: int, j: int|
            0 <= i < d.len() && 0 <= j < d.len() && i != j implies d[i].1 != d[j].1 by {
            assert(s[i] == d[i] && s[j] == d[j]);
        }
    }
}

pub proof fn lemma_renamed(s: Seq<Row>, from: Seq<u64>, to: Seq<u64>)
    requires
        distinct_keys(s),
    ensures
        forall|x: Row| #[trigger] renamed(s, from, to).contains(x) <==> (
            (x.1 == to && s.contains((x.0, from)))
            || (s.contains(x) && x.1 != from && x.1 != to)),
        distinct_handles(s) ==> distinct_handles(renamed(s, from, to)),
        distinct_keys(renamed(s, from, to)),
    decreases s.len(),
{
    if s.len() > 0 {
        let d = s.drop_last();
        let e = s.last();
        lemma_drop_last(s);
        lemma_renamed(d, from, to);
        let r = renamed(d, from, to);
        assert(s.contains(e)) by {
            assert(s[s.len() - 1] == e);
        }
        if e.1 == from {
            let n: Row = (e.0, to);
            assert(renamed(s, from, to) == r.push(n));
            lemma_push_contains(r, n);
            assert forall|i: int| 0 <= i < r.len() implies r[i].1 != to && (distinct_handles(s) ==> r[i].0 != e.0) by {
                assert(r.contains(r[i]));
                if r[i].1 == to {
                    assert(d.contains((r[i].0, from)));
                } else {
                    assert(d.contains(r[i]));
                }
            }
            assert forall|x: Row| #[trigger] r.push(n).contains(x) <==> (
                (x.1 == to && s.contains((x.0, from)))
                || (s.contains(x) && x.1 != from && x.1 != to)) by {
                if x.1 == to && s.contains((x.0, from)) && !d.contains((x.0, from)) {
                    assert((x.0, from) == e);
                }
                if r.contains(x) {
                    if x.1 == to {
                        assert(d.contains((x.0, from)));
                        assert(s.contains((x.0, from)));
                    } else {
                        assert(d.contains(x));
                        assert(s.contains(x));
                    }
                }
            }
        } else if e.1 == to {
            assert forall|x: Row| #[trigger] r.contains(x) <==> (
                (x.1 == to && s.contains((x.0, from)))
                || (s.contains(x) && x.1 != from && x.1 != to)) by {
                if x.1 == to && s.contains((x.0, from)) {
                    assert((x.0, from) != e);
                }
            }
        } else {
            lemma_push_contains(r, e);
            assert forall|i: int| 0 <= i < r.len() implies r[i].1 != e.1 && (distinct_handles(s) ==> r[i].0 != e.0) by {
                assert(r.contains(r[i]));
                if r[i].1 == to {
                    assert(d.contains((r[i].0, from)));
                } else {
                    assert(d.contains(r[i]));
                }
            }
            assert forall|x: Row| #[trigger] r.push(e).contains(x) <==> (
                (x.1 == to && s.contains((x.0, from)))
                || (s.contains(x) && x.1 != from && x.1 != to)) by {
                if x.1 == to && s.contains((x.0, from)) {
                    assert((x.0, from) != e);
                }
                if r.contains(x) {
                    if x.1 == to {
                        assert(d.contains((x.0, from)));
                        assert(s.contains((x.0, from)));
                    } else {
                        assert(d.contains(x));
                        assert(s.contains(x));
                    }
                }
            }
        }
    }
}

pub proof fn lemma_collected(s: Seq<Row>, counts: Seq<usize>)
    requires
        s.len() == counts.len(),
    ensures
        forall|x: Row| #[trigger] collected(s, counts).contains(x) ==> s.contains(x),
        forall|i: int| 0 <= i < s.len() && counts[i] > 1 ==> #[trigger] collected(s, counts).contains(s[i]),
        distinct_handles(s) ==> distinct_handles(collected(s, counts)),
        distinct_keys(s) ==> distinct_keys(collected(s, counts)),
    decreases s.len(),
{
    if s.len() > 0 {
        let d = s.drop_last();
        let c = counts.drop_last();
        let e = s.last();
        lemma_drop_last(s);
        lemma_collected(d, c);
        let r = collected(d, c);
        assert(collected(s, counts) == if counts.last() > 1 { r.push(e) } else { r });
        assert(s.contains(e)) by {
            assert(s[s.len() - 1] == e);
        }
        lemma_push_contains(r, e);
        assert forall|i: int| 0 <= i < r.len() implies
            (distinct_handles(s) ==> r[i].0 != e.0) && (distinct_keys(s) ==> r[i].1 != e.1) by {
            assert(r.contains(r[i]));
        }
        assert forall|x: Row| #[trigger] collected(s, counts).contains(x) implies s.contains(x) by {
            if r.contains(x) {
                assert(d.contains(x));
            }
        }
        assert forall|i: int| 0 <= i < s.len() && counts[i] > 1 implies
            #[trigger] collected(s, counts).contains(s[i]) by {
            if i < s.len() - 1 {
                assert(s[i] == d[i] && counts[i] == c[i]);
                assert(r.contains(d[i]));
            } else {
                assert(s[i] == e);
                assert(counts[i] == counts.last());
                assert(r.push(e)[r.len() as int] == e);
            }
        }
    }
}

/// The rows of a sequence of stored entries.
pub open spec fn rows_of<K: EntityId>(s: Seq<(u64, K)>) -> Seq<Row> {
    s.map_values(|e: (u64, K)| (e.0, e.1.key()))
}

/// What interning key `k` does to a table with rows `s` and next handle
/// `next`: an entity that has a handle keeps it and the table is unchanged;
/// one that has none gets the next handle, appended.
pub open spec fn interned(s: Seq<Row>, next: u64, k: Seq<u64>, s2: Seq<Row>, next2: u64, h: u64) -> bool {
    if has_key(s, k) {
        s2 == s && next2 == next && s.contains((h, k))
    } else {
        s2 == s.push((next, k)) && next2 == next + 1 && h == next
    }
}

proof fn lemma_rows_index<K: EntityId>(s: Seq<(u64, K)>)
    ensures
        rows_of(s).len() == s.len(),
        forall|i: int| 0 <= i < s.len() ==> #[trigger] rows_of(s)[i] == (s[i].0, s[i].1.key()),
{
}

proof fn lemma_rows_push<K: EntityId>(s: Seq<(u64, K)>, e: (u64, K))
    ensures
        rows_of(s.push(e)) == rows_of(s).push((e.0, e.1.key())),
{
    assert(rows_of(s.push(e)) =~= rows_of(s).push((e.0, e.1.key())));
}

/// Interned ids of one kind, each under a handle of its own.
pub struct InternTable<K> {
    entries: Vec<(u64, K)>,
    next_handle: u64,
}

impl<K: EntityId> InternTable<K> {
    /// The table's rows, in the order in which they were interned.
    pub closed spec fn rows(&self) -> Seq<Row> {
        rows_of(self.entries@)
    }

    /// The handle that the next new entity gets.
    pub closed spec fn next(&self) -> u64 {
        self.next_handle
    }

    pub open spec fn wf(&self) -> bool {
        &&& distinct_handles(self.rows())
        &&& distinct_keys(self.rows())
        &&& handles_below(self.rows(), self.next())
    }

    pub fn new() -> (r: Self)
        ensures
            r.wf(),
            r.rows() == Seq::<Row>::empty(),
            r.next() == 0,
    {
        let r = InternTable { entries: Vec::new(), next_handle: 0 };
        assert(r.rows() =~= Seq::<Row>::empty());
        r
    }

    pub fn len(&self) -> (r: usize)
        ensures
            r == self.rows().len(),
    {
        self.entries.len()
    }

    /// Whether every handle has been given out; nothing new can be interned.
    pub fn is_full(&self) -> (r: bool)
        ensures
            r == (self.next() == u64::MAX),
    {
        self.next_handle == u64::MAX
    }

    /// The handle of `id`, made if `id` has none yet.
    pub fn get_or_intern(&mut self, id: K) -> (r: u64)
        requires
            old(self).wf(),
            old(self).next() < u64::MAX,
        ensures
            final(self).wf(),
            interned(old(self).rows(), old(self).next(), id.key(), final(self).rows(), final(self).next(), r),
    {
        let ghost k = id.key();
        let mut i: usize = 0;
        while i < self.entries.len()
            invariant
                self.wf(),
                k == id.key(),
                i <= self.rows().len(),
                forall|j: int| 0 <= j < i ==> self.rows()[j].1 != k,
            decreases self.entries@.len() - i,
        {
            proof {
                lemma_rows_index(self.entries@);
            }
            if self.entries[i].1.same(&id) {
                let h = self.entries[i].0;
                assert(self.rows()[i as int] == (h, k));
                assert(self.rows().contains((h, k)));
                return h;
            }
            i = i + 1;
        }
        let h = self.next_handle;
        let ghost before = self.entries@;
        self.entries.push((h, id));
        self.next_handle = h + 1;
        proof {
            lemma_rows_push(before, (h, id));
            assert(!has_key(rows_of(before), k));
        }
        h
    }

    /// The id that handle `h` stands for now, if it is in the table.
    pub fn id_of(&self, h: u64) -> (r: Option<&K>)
        requires
            self.wf(),
        ensures
            r matches Some(k) ==> self.rows().contains((h, k.key())),
            r is None ==> !has_handle(self.rows(), h),
    {
        let mut i: usize = 0;
        while i < self.entries.len()
            invariant
                i <= self.rows().len(),
                forall|j: int| 0 <= j < i ==> self.rows()[j].0 != h,
            decreases self.entries@.len() - i,
        {
            proof {
                lemma_rows_index(self.entries@);
            }
            if self.entries[i].0 == h {
                assert(self.rows()[i as int] == (h, self.entries@[i as int].1.key()));
                return Some(&self.entries[i].1);
            }
            i = i + 1;
        }
        None
    }

    /// The handles, in the table's order.
    pub fn handles(&self) -> (r: Vec<u64>)
        ensures
            r@.len() == self.rows().len(),
            forall|i: int| 0 <= i < r@.len() ==> r@[i] == self.rows()[i].0,
    {
        let mut r: Vec<u64> = Vec::new();
        let mut i: usize = 0;
        while i < self.entries.len()
            invariant
                i <= self.rows().len(),
                r@.len() == i,
                forall|j: int| 0 <= j < i ==> r@[j] == self.rows()[j].0,
            decreases self.entries@.len() - i,
        {
            proof {
                lemma_rows_index(self.entries@);
            }
            r.push(self.entries[i].0);
            i = i + 1;
        }
        r
    }

    /// Drops the handle of `id`: the entity is gone.
    pub fn remove(&mut self, id: &K)
        requires
            old(self).wf(),
        ensures
            final(self).wf(),
            final(self).rows() == without(old(self).rows(), id.key()),
            final(self).next() == old(self).next(),
    {
        let ghost k = id.key();
        let ghost s = self.rows();
        let mut kept: Vec<(u64, K)> = Vec::new();
        let mut i: usize = 0;
        while i < self.entries.len()
            invariant
                s == self.rows(),
                k == id.key(),
                i <= s.len(),
                rows_of(kept@) == without(s.take(i as int), k),
            decreases self.entries@.len() - i,
        {
            proof {
                lemma_rows_index(self.entries@);
            }
            let ghost t = s.take(i as int + 1);
            assert(t.drop_last() =~= s.take(i as int));
            assert(t.last() == (self.entries@[i as int].0, self.entries@[i as int].1.key()));
            if !self.entries[i].1.same(id) {
                let ghost before = kept@;
                let e = (self.entries[i].0, self.entries[i].1.duplicate());
                kept.push(e);
                proof {
                    lemma_rows_push(before, e);
                }
            }
            i = i + 1;
        }
        assert(s.take(s.len() as int) =~= s);
        self.entries = kept;
        proof {
            lemma_without(s, k);
            assert forall|j: int| 0 <= j < self.rows().len() implies self.rows()[j].0 < self.next() by {
                assert(self.rows().contains(self.rows()[j]));
                assert(s.contains(self.rows()[j]));
            }
        }
    }

    /// The entity with id `from` now has id `to`: its handle stays and
    /// stands for `to`. A handle that stood for `to` before is dropped.
    pub fn rename(&mut self, from: &K, to: &K)
        requires
            old(self).wf(),
        ensures
            final(self).wf(),
            final(self).next() == old(self).next(),
            has_key(old(self).rows(), from.key()) ==> final(self).rows() == renamed(old(self).rows(), from.key(), to.key()),
            !has_key(old(self).rows(), from.key()) ==> final(self).rows() == old(self).rows(),
    {
        let ghost f = from.key();
        let ghost g = to.key();
        let ghost s = self.rows();
        let mut found = false;
        let mut i: usize = 0;
        while i < self.entries.len()
            invariant
                s == self.rows(),
                f == from.key(),
                i <= s.len(),
                !found ==> forall|j: int| 0 <= j < i ==> s[j].1 != f,
                found ==> has_key(s, f),
            decreases self.entries@.len() - i,
        {
            proof {
                lemma_rows_index(self.entries@);
            }
            if self.entries[i].1.same(from) {
                assert(s[i as int].1 == f);
                found = true;
            }
            i = i + 1;
        }
        if !found {
            return;
        }
        let mut kept: Vec<(u64, K)> = Vec::new();
        let mut i: usize = 0;
        while i < self.entries.len()
            invariant
                s == self.rows(),
                f == from.key(),
                g == to.key(),
                i <= s.len(),
                rows_of(kept@) == renamed(s.take(i as int), f, g),
            decreases self.entries@.len() - i,
        {
            proof {
                lemma_rows_index(self.entries@);
            }
            let ghost t = s.take(i as int + 1);
            assert(t.drop_last() =~= s.take(i as int));
            assert(t.last() == (self.entries@[i as int].0, self.entries@[i as int].1.key()));
            let ghost before = kept@;
            if self.entries[i].1.same(from) {
                let e = (self.entries[i].0, to.duplicate());
                kept.push(e);
                proof {
                    lemma_rows_push(before, e);
                }
            } else if !self.entries[i].1.same(to) {
                let e = (self.entries[i].0, self.entries[i].1.duplicate());
                kept.push(e);
                proof {
                    lemma_rows_push(before, e);
                }
            }
            i = i + 1;
        }
        assert(s.take(s.len() as int) =~= s);
        self.entries = kept;
        proof {
            lemma_renamed(s, f, g);
            assert forall|j: int| 0 <= j < self.rows().len() implies self.rows()[j].0 < self.next() by {
                let x = self.rows()[j];
                assert(self.rows().contains(x));
                if x.1 == g && s.contains((x.0, f)) {
                    let m = choose|m: int| 0 <= m < s.len() && s[m] == (x.0, f);
                } else {
                    let m = choose|m: int| 0 <= m < s.len() && s[m] == x;
                }
            }
        }
    }

    /// Keeps the handles that something outside the table still refers to;
    /// `counts[i]` is the reference count of the `i`-th handle, the table's
    /// own reference included.
    pub fn gc_refs(&mut self, counts: &Vec<usize>)
        requires
            old(self).wf(),
            counts@.len() == old(self).rows().len(),
        ensures
            final(self).wf(),
            final(self).next() == old(self).next(),
            final(self).rows() == collected(old(self).rows(), counts@),
    {
        let ghost s = self.rows();
        let mut kept: Vec<(u64, K)> = Vec::new();
        let mut i: usize = 0;
        while i < self.entries.len()
            invariant
                s == self.rows(),
                counts@.len() == s.len(),
                i <= s.len(),
                rows_of(kept@) == collected(s.take(i as int), counts@.take(i as int)),
            decreases self.entries@.len() - i,
        {
            proof {
                lemma_rows_index(self.entries@);
            }
            let ghost t = s.take(i as int + 1);
            let ghost c = counts@.take(i as int + 1);
            assert(t.drop_last() =~= s.take(i as int));
            assert(c.drop_last() =~= counts@.take(i as int));
            assert(t.last() == (self.entries@[i as int].0, self.entries@[i as int].1.key()));
            if counts[i] > 1 {
                let ghost before = kept@;
                let e = (self.entries[i].0, self.entries[i].1.duplicate());
                kept.push(e);
                proof {
                    lemma_rows_push(before, e);
                }
            }
            i = i + 1;
        }
        assert(s.take(s.len() as int) =~= s);
        assert(counts@.take(s.len() as int) =~= counts@);
        self.entries = kept;
        proof {
            lemma_collected(s, counts@);
            assert forall|j: int| 0 <= j < self.rows().len() implies self.rows()[j].0 < self.next() by {
                assert(self.rows().contains(self.rows()[j]));
                assert(s.contains(self.rows()[j]));
            }
        }
    }
}

/// A change in the daemon's session, as it reaches the client.
pub enum SessionEvent {
    NewElement(ElementId),
    NewLocation(LocationId),
    NewModule(ModuleId),
    DestroyedElement(ElementId),
    DestroyedLocation(LocationId),
    DestroyedModule(ModuleId),
    /// Old id, new id.
    ElementIdChanged(ElementId, ElementId),
    LocationIdChanged(LocationId, LocationId),
    ModuleIdChanged(ModuleId, ModuleId),
}

/// The table of one kind after the entity `from` has become `to`.
pub open spec fn rename_applied(s: Seq<Row>, from: Seq<u64>, to: Seq<u64>, s2: Seq<Row>) -> bool {
    if has_key(s, from) {
        s2 == renamed(s, from, to)
    } else {
        s2 == s
    }
}

/// The client's handles to locations, elements and modules.
pub struct HandleRegistry {
    pub locations: InternTable<LocationId>,
    pub elements: InternTable<ElementId>,
    pub modules: InternTable<ModuleId>,
}

/// What an event does to the registry: a destruction drops the entity's
/// handle, an id change moves the handle to the new id, and the rest leave
/// the registry as it is.
pub open spec fn event_applied(r: HandleRegistry, e: SessionEvent, r2: HandleRegistry) -> bool {
    &&& r2.locations.next() == r.locations.next()
    &&& r2.elements.next() == r.elements.next()
    &&& r2.modules.next() == r.modules.next()
    &&& r2.locations.rows() == match e {
        SessionEvent::DestroyedLocation(id) => without(r.locations.rows(), id.key()),
        SessionEvent::LocationIdChanged(a, b) => if has_key(r.locations.rows(), a.key()) {
            renamed(r.locations.rows(), a.key(), b.key())
        } else {
            r.locations.rows()
        },
        _ => r.locations.rows(),
    }
    &&& r2.elements.rows() == match e {
        SessionEvent::DestroyedElement(id) => without(r.elements.rows(), id.key()),
        SessionEvent::ElementIdChanged(a, b) => if has_key(r.elements.rows(), a.key()) {
            renamed(r.elements.rows(), a.key(), b.key())
        } else {
            r.elements.rows()
        },
        _ => r.elements.rows(),
    }
    &&& r2.modules.rows() == match e {
        SessionEvent::DestroyedModule(id) => without(r.modules.rows(), id.key()),
        SessionEvent::ModuleIdChanged(a, b) => if has_key(r.modules.rows(), a.key()) {
            renamed(r.modules.rows(), a.key(), b.key())
        } else {
            r.modules.rows()
        },
        _ => r.modules.rows(),
    }
}

impl HandleRegistry {
    pub open spec fn wf(&self) -> bool {
        self.locations.wf() && self.elements.wf() && self.modules.wf()
    }

    pub fn new() -> (r: HandleRegistry)
        ensures
            r.wf(),
            r.locations.rows().len() == 0,
            r.elements.rows().len() == 0,
            r.modules.rows().len() == 0,
    {
        HandleRegistry {
            locations: InternTable::new(),
            elements: InternTable::new(),
            modules: InternTable::new(),
        }
    }

    /// Brings the handles up to date with an event from the daemon.
    pub fn apply_event(&mut self, e: &SessionEvent)
        requires
            old(self).wf(),
        ensures
            final(self).wf(),
            event_applied(*old(self), *e, *final(self)),
    {
        match e {
            SessionEvent::DestroyedElement(id) => self.elements.remove(id),
            SessionEvent::DestroyedLocation(id) => self.locations.remove(id),
            SessionEvent::DestroyedModule(id) => self.modules.remove(id),
            SessionEvent::ElementIdChanged(a, b) => self.elements.rename(a, b),
            SessionEvent::LocationIdChanged(a, b) => self.locations.rename(a, b),
            SessionEvent::ModuleIdChanged(a, b) => self.modules.rename(a, b),
            _ => {},
        }
    }
}

/// Interning the same id twice on one table gives the same handle, and the
/// second call leaves the table as the first left it.
pub proof fn lemma_interning_is_stable<K: EntityId>(
    t0: InternTable<K>,
    id: K,
    t1: InternTable<K>,
    h1: u64,
    t2: InternTable<K>,
    h2: u64,
)
    requires
        t0.wf(),
        interned(t0.rows(), t0.next(), id.key(), t1.rows(), t1.next(), h1),
        interned(t1.rows(), t1.next(), id.key(), t2.rows(), t2.next(), h2),
    ensures
        h1 == h2,
        t2.rows() == t1.rows(),
{
    let k = id.key();
    let s0 = t0.rows();
    let s1 = t1.rows();
    if has_key(s0, k) {
        let i = choose|i: int| 0 <= i < s1.len() && s1[i] == (h1, k);
        let j = choose|j: int| 0 <= j < s1.len() && s1[j] == (h2, k);
        assert(i == j);
    } else {
        assert(s1[s0.len() as int] == (h1, k));
        assert(has_key(s1, k));
        let j = choose|j: int| 0 <= j < s1.len() && s1[j] == (h2, k);
        if j < s0.len() {
            assert(s0[j] == s1[j]);
        }
    }
}

/// After an element's id changes from `a` to `b`, a handle that stood for
/// `a` stands for `b`, and for nothing else.
pub proof fn lemma_id_change_moves_handle(
    r0: HandleRegistry,
    a: ElementId,
    b: ElementId,
    r1: HandleRegistry,
    h: u64,
)
    requires
        r0.wf(),
        r0.elements.rows().contains((h, a.key())),
        event_applied(r0, SessionEvent::ElementIdChanged(a, b), r1),
    ensures
        r1.elements.rows().contains((h, b.key())),
        forall|x: Row| #[trigger] r1.elements.rows().contains(x) && x.0 == h ==> x.1 == b.key(),
{
    let s = r0.elements.rows();
    assert(has_key(s, a.key())) by {
        let i = choose|i: int| 0 <= i < s.len() && s[i] == (h, a.key());
    }
    lemma_renamed(s, a.key(), b.key());
    assert forall|x: Row| #[trigger] r1.elements.rows().contains(x) && x.0 == h implies x.1 == b.key() by {
        if !(x.1 == b.key() && s.contains((x.0, a.key()))) {
            let i = choose|i: int| 0 <= i < s.len() && s[i] == x;
            let j = choose|j: int| 0 <= j < s.len() && s[j] == (h, a.key());
            assert(i != j);
        }
    }
}

/// The same for locations.
pub proof fn lemma_location_id_change_moves_handle(
    r0: HandleRegistry,
    a: LocationId,
    b: LocationId,
    r1: HandleRegistry,
    h: u64,
)
    requires
        r0.wf(),
        r0.locations.rows().contains((h, a.key())),
        event_applied(r0, SessionEvent::LocationIdChanged(a, b), r1),
    ensures
        r1.locations.rows().contains((h, b.key())),
        forall|x: Row| #[trigger] r1.locations.rows().contains(x) && x.0 == h ==> x.1 == b.key(),
{
    let s = r0.locations.rows();
    assert(has_key(s, a.key())) by {
        let i = choose|i: int| 0 <= i < s.len() && s[i] == (h, a.key());
    }
    lemma_renamed(s, a.key(), b.key());
    assert forall|x: Row| #[trigger] r1.locations.rows().contains(x) && x.0 == h implies x.1 == b.key() by {
        if !(x.1 == b.key() && s.contains((x.0, a.key()))) {
            let i = choose|i: int| 0 <= i < s.len() && s[i] == x;
            let j = choose|j: int| 0 <= j < s.len() && s[j] == (h, a.key());
            assert(i != j);
        }
    }
}

/// After a location is destroyed, no handle stands for it.
pub proof fn lemma_destroyed_location_has_no_handle(
    r0: HandleRegistry,
    id: LocationId,
    r1: HandleRegistry,
)
    requires
        r0.wf(),
        event_applied(r0, SessionEvent::DestroyedLocation(id), r1),
    ensures
        !has_key(r1.locations.rows(), id.key()),
{
    lemma_without(r0.locations.rows(), id.key());
}

} // verus!
