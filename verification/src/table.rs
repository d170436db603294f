//! Sources by full name.

use crate::discovery::{Source, SourceView};
use crate::text::{chars_of, comes_before, law_text_order, law_text_order_transitive, text_before};
use vstd::prelude::*;

verus! {

/// Names in strict order, so that none occurs twice.
pub open spec fn by_name(rows: Seq<SourceView>) -> bool {
    forall|i: int, j: int|
        0 <= i < j < rows.len() ==> text_before(#[trigger] rows[i].full_name, #[trigger] rows[j].full_name)
}

/// Whether a name is among the rows.
pub open spec fn has_name(rows: Seq<SourceView>, name: Seq<char>) -> bool {
    exists|i: int| 0 <= i < rows.len() && #[trigger] rows[i].full_name == name
}

/// The row of a name.
pub open spec fn row_of(rows: Seq<SourceView>, name: Seq<char>) -> SourceView {
    rows[choose|i: int| 0 <= i < rows.len() && #[trigger] rows[i].full_name == name]
}

/// The rows as a map from names.
pub open spec fn map_of(rows: Seq<SourceView>) -> Map<Seq<char>, SourceView> {
    Map::new(|n: Seq<char>| has_name(rows, n), |n: Seq<char>| row_of(rows, n))
}

/// The sources of a map, sorted by full name.
pub open spec fn lists(m: Map<Seq<char>, SourceView>, rows: Seq<SourceView>) -> bool {
    by_name(rows) && map_of(rows) == m
}

/// Sources as plain values.
pub open spec fn views(v: Seq<Source>) -> Seq<SourceView> {
    Seq::new(v.len(), |i: int| v[i]@)
}

/// A name has one row.
pub proof fn lemma_row(rows: Seq<SourceView>, i: int)
    requires
        by_name(rows),
        0 <= i < rows.len(),
    ensures
        has_name(rows, rows[i].full_name),
        row_of(rows, rows[i].full_name) == rows[i],
{
    let name = rows[i].full_name;
    let k = choose|k: int| 0 <= k < rows.len() && #[trigger] rows[k].full_name == name;
    assert(rows[i].full_name == name);
    law_text_order(name, name);
    if k < i {
        assert(text_before(rows[k].full_name, rows[i].full_name));
    } else if i < k {
        assert(text_before(rows[i].full_name, rows[k].full_name));
    }
}

/// Sources by full name.
pub struct SourceTable {
    entries: Vec<Source>,
}

impl View for SourceTable {
    type V = Map<Seq<char>, SourceView>;

    closed spec fn view(&self) -> Map<Seq<char>, SourceView> {
        map_of(views(self.entries@))
    }
}

impl SourceTable {
    /// The entries are kept by name.
    pub closed spec fn wf(&self) -> bool {
        by_name(views(self.entries@))
    }

    /// An empty table.
    pub fn new() -> (r: SourceTable)
        ensures
            r.wf(),
            r@ == Map::<Seq<char>, SourceView>::empty(),
    {
        let r: SourceTable = SourceTable { entries: Vec::new() };
        assert(r@ =~= Map::<Seq<char>, SourceView>::empty());
        r
    }

    /// The place of a name, and whether it is there.
    fn place(&self, name: &str) -> (r: (usize, bool))
        requires
            self.wf(),
        ensures
            r.0 <= self.entries@.len(),
            r.1 ==> r.0 < self.entries@.len() && self.entries@[r.0 as int]@.full_name == name@,
            r.1 == self@.contains_key(name@),
            forall|i: int| 0 <= i < r.0 ==> text_before(#[trigger] self.entries@[i]@.full_name, name@),
            !r.1 ==> forall|i: int|
                r.0 <= i < self.entries@.len() ==> text_before(name@, #[trigger] self.entries@[i]@.full_name),
    {
        let wanted: Vec<char> = chars_of(name);
        let ghost rows = views(self.entries@);
        let mut k: usize = 0;
        while k < self.entries.len()
            invariant
                k <= self.entries@.len(),
                wanted@ == name@,
                rows == views(self.entries@),
                by_name(rows),
                forall|i: int| 0 <= i < k ==> text_before(#[trigger] self.entries@[i]@.full_name, name@),
            decreases self.entries@.len() - k,
        {
            let here: Vec<char> = chars_of(self.entries[k].full_name.as_str());
            if !comes_before(here.as_slice(), wanted.as_slice()) {
                let same: bool = !comes_before(wanted.as_slice(), here.as_slice());
                proof {
                    law_text_order(here@, name@);
                    assert(rows[k as int].full_name == here@);
                    if same {
                        lemma_row(rows, k as int);
                    } else {
                        assert forall|i: int| k <= i < self.entries@.len() implies text_before(
                            name@,
                            #[trigger] self.entries@[i]@.full_name,
                        ) by {
                            if i > k {
                                assert(text_before(rows[k as int].full_name, rows[i].full_name));
                                law_text_order_transitive(name@, here@, rows[i].full_name);
                            }
                        }
                        self.lemma_absent(name@, k as int);
                    }
                }
                return (k, same);
            }
            k = k + 1;
        }
        proof {
            self.lemma_absent(name@, k as int);
        }
        (k, false)
    }

    /// A name between two neighbours is not there.
    proof fn lemma_absent(&self, name: Seq<char>, k: int)
        requires
            0 <= k <= self.entries@.len(),
            forall|i: int| 0 <= i < k ==> text_before(#[trigger] self.entries@[i]@.full_name, name),
            forall|i: int|
                k <= i < self.entries@.len() ==> text_before(name, #[trigger] self.entries@[i]@.full_name),
        ensures
            !self@.contains_key(name),
    {
        let rows = views(self.entries@);
        law_text_order(name, name);
        if has_name(rows, name) {
            let i = choose|i: int| 0 <= i < rows.len() && #[trigger] rows[i].full_name == name;
            assert(rows[i] == self.entries@[i]@);
        }
    }

    /// The source with exactly this full name.
    pub fn get(&self, name: &str) -> (r: Option<Source>)
        requires
            self.wf(),
        ensures
            match r {
                Some(s) => self@.contains_key(name@) && s@ == self@[name@],
                None => !self@.contains_key(name@),
            },
    {
        let (k, found): (usize, bool) = self.place(name);
        if found {
            proof {
                lemma_row(views(self.entries@), k as int);
            }
            Some(self.entries[k].copy())
        } else {
            None
        }
    }

    /// Records a source under its full name.
    pub fn insert(&mut self, source: Source)
        requires
            old(self).wf(),
        ensures
            final(self).wf(),
            final(self)@ == old(self)@.insert(source@.full_name, source@),
    {
        let (k, found): (usize, bool) = self.place(source.full_name.as_str());
        let ghost before = views(self.entries@);
        let ghost name = source@.full_name;
        let ghost new = source@;
        let ghost old_map = self@;
        if found {
            let _ = self.entries.remove(k);
        }
        self.entries.insert(k, source);
        proof {
            let rows = views(self.entries@);
            if found {
                assert(rows =~= before.update(k as int, new));
                assert(before[k as int].full_name == name);
                assert forall|i: int, j: int| 0 <= i < j < rows.len() implies text_before(
                    #[trigger] rows[i].full_name,
                    #[trigger] rows[j].full_name,
                ) by {
                    assert(rows[i].full_name == before[i].full_name);
                    assert(rows[j].full_name == before[j].full_name);
                }
            } else {
                assert(rows =~= before.insert(k as int, new));
                assert forall|i: int, j: int| 0 <= i < j < rows.len() implies text_before(
                    #[trigger] rows[i].full_name,
                    #[trigger] rows[j].full_name,
                ) by {
                    let x = if i < k { i } else { i - 1 };
                    let y = if j < k { j } else { j - 1 };
                    if i != k && j != k {
                        assert(rows[i] == before[x] && rows[j] == before[y]);
                        assert(text_before(before[x].full_name, before[y].full_name));
                    } else if i == k {
                        assert(rows[j] == before[y]);
                        assert(old(self).entries@[y]@.full_name == before[y].full_name);
                    } else {
                        assert(rows[i] == before[x]);
                        assert(old(self).entries@[x]@.full_name == before[x].full_name);
                    }
                }
            }
            assert(by_name(rows));
            assert(rows[k as int] == new);
            assert forall|n: Seq<char>| #[trigger] self@.contains_key(n) == old_map.insert(name, new).contains_key(n)
                && (self@.contains_key(n) ==> self@[n] == old_map.insert(name, new)[n]) by {
                lemma_row(rows, k as int);
                if has_name(rows, n) {
                    let i = choose|i: int| 0 <= i < rows.len() && #[trigger] rows[i].full_name == n;
                    lemma_row(rows, i);
                    if i != k {
                        let x = if found || i < k { i } else { i - 1 };
                        assert(before[x] == rows[i]);
                        lemma_row(before, x);
                        law_text_order(n, n);
                        if n == name {
                            assert(text_before(rows[if i < k { i } else { k as int }].full_name, rows[if i < k {
                                k as int
                            } else {
                                i
                            }].full_name));
                        }
                    }
                } else if has_name(before, n) && n != name {
                    let x = choose|x: int| 0 <= x < before.len() && #[trigger] before[x].full_name == n;
                    let i = if found || x < k { x } else { x + 1 };
                    assert(rows[i] == before[x]);
                }
            }
            assert(self@ =~= old_map.insert(name, new));
        }
    }

    /// Forgets a source, and returns it.
    pub fn remove(&mut self, name: &str) -> (r: Option<Source>)
        requires
            old(self).wf(),
        ensures
            final(self).wf(),
            final(self)@ == old(self)@.remove(name@),
            match r {
                Some(s) => old(self)@.contains_key(name@) && s@ == old(self)@[name@],
                None => !old(self)@.contains_key(name@),
            },
    {
        let (k, found): (usize, bool) = self.place(name);
        if !found {
            assert(self@ =~= self@.remove(name@));
            return None;
        }
        let ghost before = views(self.entries@);
        let ghost old_map = self@;
        let s: Source = self.entries.remove(k);
        proof {
            let rows = views(self.entries@);
            lemma_row(before, k as int);
            assert(rows =~= before.remove(k as int));
            assert forall|i: int, j: int| 0 <= i < j < rows.len() implies text_before(
                #[trigger] rows[i].full_name,
                #[trigger] rows[j].full_name,
            ) by {
                let x = if i < k { i } else { i + 1 };
                let y = if j < k { j } else { j + 1 };
                assert(rows[i] == before[x] && rows[j] == before[y]);
            }
            assert forall|n: Seq<char>| #[trigger] self@.contains_key(n) == old_map.remove(name@).contains_key(n)
                && (self@.contains_key(n) ==> self@[n] == old_map.remove(name@)[n]) by {
                if has_name(rows, n) {
                    let i = choose|i: int| 0 <= i < rows.len() && #[trigger] rows[i].full_name == n;
                    lemma_row(rows, i);
                    let x = if i < k { i } else { i + 1 };
                    assert(before[x] == rows[i]);
                    lemma_row(before, x);
                    law_text_order(n, n);
                    if n == name@ {
                        assert(text_before(before[if x < k { x } else { k as int }].full_name, before[if x < k {
                            k as int
                        } else {
                            x
                        }].full_name));
                    }
                } else if has_name(before, n) && n != name@ {
                    let x = choose|x: int| 0 <= x < before.len() && #[trigger] before[x].full_name == n;
                    let i = if x < k { x } else { x - 1 };
                    assert(rows[i] == before[x]);
                }
            }
            assert(self@ =~= old_map.remove(name@));
        }
        Some(s)
    }

    /// Every source, sorted by full name.
    pub fn list(&self) -> (r: Vec<Source>)
        requires
            self.wf(),
        ensures
            lists(self@, views(r@)),
    {
        let mut r: Vec<Source> = Vec::new();
        let mut i: usize = 0;
        while i < self.entries.len()
            invariant
                i <= self.entries@.len(),
                views(r@) == views(self.entries@).take(i as int),
            decreases self.entries@.len() - i,
        {
            let ghost before = r@;
            r.push(self.entries[i].copy());
            assert(views(r@) =~= views(before).push(self.entries@[i as int]@));
            assert(views(self.entries@).take(i + 1) =~= views(self.entries@).take(i as int).push(
                self.entries@[i as int]@,
            ));
            i = i + 1;
        }
        assert(views(self.entries@).take(i as int) =~= views(self.entries@));
        r
    }
}

/// A map has one listing.
pub proof fn law_listing_unique(m: Map<Seq<char>, SourceView>, a: Seq<SourceView>, b: Seq<SourceView>)
    requires
        lists(m, a),
        lists(m, b),
    ensures
        a == b,
    decreases a.len(),
{
    if a.len() == 0 {
        if b.len() > 0 {
            lemma_row(b, 0);
            assert(map_of(a).contains_key(b[0].full_name));
        }
        assert(a =~= b);
    } else {
        lemma_row(a, a.len() - 1);
        let x = a.last().full_name;
        assert(map_of(b).contains_key(x));
        let i = choose|i: int| 0 <= i < b.len() && #[trigger] b[i].full_name == x;
        lemma_row(b, i);
        assert(map_of(a)[x] == row_of(a, x) && map_of(b)[x] == row_of(b, x));
        assert(b[i] == a.last());
        let y = b.last().full_name;
        lemma_row(b, b.len() - 1);
        assert(map_of(a).contains_key(y));
        let j = choose|j: int| 0 <= j < a.len() && #[trigger] a[j].full_name == y;
        lemma_row(a, j);
        law_text_order(x, y);
        if i < b.len() - 1 {
            assert(text_before(b[i].full_name, b[b.len() - 1].full_name));
            if j < a.len() - 1 {
                assert(text_before(a[j].full_name, a[a.len() - 1].full_name));
            }
            assert(false);
        }
        let a0 = a.drop_last();
        let b0 = b.drop_last();
        lemma_drop(a);
        lemma_drop(b);
        law_listing_unique(m.remove(x), a0, b0);
        assert(a =~= a0.push(a.last()));
        assert(b =~= b0.push(b.last()));
    }
}

/// Dropping the last row removes its name.
proof fn lemma_drop(rows: Seq<SourceView>)
    requires
        by_name(rows),
        rows.len() > 0,
    ensures
        by_name(rows.drop_last()),
        map_of(rows.drop_last()) == map_of(rows).remove(rows.last().full_name),
{
    let r0 = rows.drop_last();
    let x = rows.last().full_name;
    assert forall|p: int, q: int| 0 <= p < q < r0.len() implies text_before(
        #[trigger] r0[p].full_name,
        #[trigger] r0[q].full_name,
    ) by {
        assert(text_before(rows[p].full_name, rows[q].full_name));
    }
    assert forall|n: Seq<char>| #[trigger] map_of(r0).contains_key(n) == map_of(rows).remove(x).contains_key(n) && (
    map_of(r0).contains_key(n) ==> map_of(r0)[n] == map_of(rows).remove(x)[n]) by {
        if has_name(r0, n) {
            let i = choose|i: int| 0 <= i < r0.len() && #[trigger] r0[i].full_name == n;
            lemma_row(r0, i);
            assert(rows[i] == r0[i]);
            lemma_row(rows, i);
            law_text_order(n, n);
            assert(text_before(rows[i].full_name, rows[rows.len() - 1].full_name));
        } else if has_name(rows, n) && n != x {
            let i = choose|i: int| 0 <= i < rows.len() && #[trigger] rows[i].full_name == n;
            assert(r0[i] == rows[i]);
        }
    }
    assert(map_of(r0) =~= map_of(rows).remove(x));
}

} // verus!
