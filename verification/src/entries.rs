//! Coordinate-list entries: the shared vocabulary of the sparse matrix
//! representation. An entry is a (row, column, value) triple; a coordinate
//! list is kept strictly sorted in (row, column) lexicographic order, so
//! every coordinate occurs at most once and `entry_at` reads the matrix
//! cell that a list represents.
use vstd::prelude::*;

verus! {

/// A stored cell of a sparse matrix: (row, column, value).
pub type Entry = (usize, usize, i32);

/// Strict lexicographic order on coordinates.
pub open spec fn lt_coord(r1: int, c1: int, r2: int, c2: int) -> bool {
    r1 < r2 || (r1 == r2 && c1 < c2)
}

/// Entries strictly increasing in (row, column): sorted, all coordinates distinct.
pub open spec fn sorted_strict(e: Seq<Entry>) -> bool {
    forall|p: int, q: int|
        #![trigger e[p], e[q]]
        0 <= p < q < e.len() ==> lt_coord(e[p].0 as int, e[p].1 as int, e[q].0 as int, e[q].1 as int)
}

/// Every coordinate lies inside a `rows` by `cols` shape.
pub open spec fn in_range(e: Seq<Entry>, rows: int, cols: int) -> bool {
    forall|k: int|
        0 <= k < e.len() ==> (#[trigger] e[k]).0 < rows && e[k].1 < cols
}

/// Every stored value is nonzero.
pub open spec fn all_nonzero(e: Seq<Entry>) -> bool {
    forall|k: int| 0 <= k < e.len() ==> (#[trigger] e[k]).2 != 0
}

/// Whether some entry carries coordinate (i, j).
pub open spec fn has_coord(e: Seq<Entry>, i: int, j: int) -> bool
    decreases e.len(),
{
    if e.len() == 0 {
        false
    } else if e[0].0 as int == i && e[0].1 as int == j {
        true
    } else {
        has_coord(e.drop_first(), i, j)
    }
}

/// The value stored at coordinate (i, j), or 0 when no entry has it.
/// This is the matrix cell that a coordinate list represents.
pub open spec fn entry_at(e: Seq<Entry>, i: int, j: int) -> i32
    decreases e.len(),
{
    if e.len() == 0 {
        0
    } else if e[0].0 as int == i && e[0].1 as int == j {
        e[0].2
    } else {
        entry_at(e.drop_first(), i, j)
    }
}

/// `has_coord` agrees with the existence of an index holding (i, j).
pub proof fn lemma_has_coord_iff(e: Seq<Entry>, i: int, j: int)
    ensures
        has_coord(e, i, j) <==> exists|k: int|
            0 <= k < e.len() && (#[trigger] e[k]).0 as int == i && e[k].1 as int == j,
    decreases e.len(),
{
    if e.len() > 0 {
        lemma_has_coord_iff(e.drop_first(), i, j);
        if e[0].0 as int == i && e[0].1 as int == j {
            assert(e[0].0 as int == i && e[0].1 as int == j);
        } else {
            if has_coord(e, i, j) {
                let k = choose|k: int|
                    0 <= k < e.drop_first().len() && (#[trigger] e.drop_first()[k]).0 as int == i
                        && e.drop_first()[k].1 as int == j;
                assert(e[k + 1] == e.drop_first()[k]);
            }
            if exists|k: int|
                0 <= k < e.len() && (#[trigger] e[k]).0 as int == i && e[k].1 as int == j {
                let k = choose|k: int|
                    0 <= k < e.len() && (#[trigger] e[k]).0 as int == i && e[k].1 as int == j;
                assert(k != 0);
                assert(e.drop_first()[k - 1] == e[k]);
            }
        }
    }
}

/// Absent coordinates read as zero.
pub proof fn lemma_entry_at_absent(e: Seq<Entry>, i: int, j: int)
    requires
        !has_coord(e, i, j),
    ensures
        entry_at(e, i, j) == 0i32,
    decreases e.len(),
{
    if e.len() > 0 {
        lemma_entry_at_absent(e.drop_first(), i, j);
    }
}

/// Dropping the first entry keeps the list strictly sorted.
pub proof fn lemma_sorted_drop_first(e: Seq<Entry>)
    requires
        sorted_strict(e),
        e.len() > 0,
    ensures
        sorted_strict(e.drop_first()),
{
    assert forall|p: int, q: int|
        0 <= p < q < e.drop_first().len() implies lt_coord(
        (#[trigger] e.drop_first()[p]).0 as int,
        e.drop_first()[p].1 as int,
        (#[trigger] e.drop_first()[q]).0 as int,
        e.drop_first()[q].1 as int,
    ) by {
        assert(e.drop_first()[p] == e[p + 1]);
        assert(e.drop_first()[q] == e[q + 1]);
    }
}

/// In a strictly sorted list, the entry at an index is the value read
/// at its coordinate.
pub proof fn lemma_entry_at_found(e: Seq<Entry>, k: int, i: int, j: int)
    requires
        sorted_strict(e),
        0 <= k < e.len(),
        e[k].0 as int == i,
        e[k].1 as int == j,
    ensures
        entry_at(e, i, j) == e[k].2,
        has_coord(e, i, j),
    decreases k,
{
    if k > 0 {
        assert(lt_coord(e[0].0 as int, e[0].1 as int, e[k].0 as int, e[k].1 as int));
        lemma_sorted_drop_first(e);
        assert(e.drop_first()[k - 1] == e[k]);
        lemma_entry_at_found(e.drop_first(), k - 1, i, j);
    }
}

/// How appending one entry changes the represented cells.
pub proof fn lemma_entry_at_push(e: Seq<Entry>, x: Entry, i: int, j: int)
    ensures
        entry_at(e.push(x), i, j) == (if x.0 as int == i && x.1 as int == j && !has_coord(e, i, j) {
            x.2
        } else {
            entry_at(e, i, j)
        }),
        has_coord(e.push(x), i, j) <==> (has_coord(e, i, j) || (x.0 as int == i && x.1 as int
            == j)),
    decreases e.len(),
{
    if e.len() == 0 {
        assert(e.push(x)[0] == x);
        assert(e.push(x).drop_first() =~= Seq::<Entry>::empty());
        if x.0 as int == i && x.1 as int == j {
            assert(has_coord(e.push(x), i, j));
        } else {
            assert(entry_at(e.push(x), i, j) == entry_at(e.push(x).drop_first(), i, j));
            assert(!has_coord(e.push(x).drop_first(), i, j));
            assert(!has_coord(e.push(x), i, j));
            assert(!has_coord(e, i, j));
        }
    } else {
        assert(e.push(x)[0] == e[0]);
        assert(e.push(x).drop_first() =~= e.drop_first().push(x));
        lemma_entry_at_push(e.drop_first(), x, i, j);
    }
}

/// How inserting an entry with a fresh coordinate changes the represented cells.
pub proof fn lemma_entry_at_insert(e: Seq<Entry>, p: int, x: Entry, i: int, j: int)
    requires
        0 <= p <= e.len(),
        !has_coord(e, x.0 as int, x.1 as int),
    ensures
        entry_at(e.insert(p, x), i, j) == (if x.0 as int == i && x.1 as int == j {
            x.2
        } else {
            entry_at(e, i, j)
        }),
        has_coord(e.insert(p, x), i, j) <==> (has_coord(e, i, j) || (x.0 as int == i && x.1 as int
            == j)),
    decreases e.len(),
{
    if p == 0 {
        assert(e.insert(0, x)[0] == x);
        assert(e.insert(0, x).drop_first() =~= e);
        if x.0 as int == i && x.1 as int == j {
            assert(entry_at(e.insert(p, x), i, j) == x.2);
        } else {
            assert(entry_at(e.insert(p, x), i, j) == entry_at(e, i, j));
        }
    } else {
        assert(e.len() > 0);
        assert(e.insert(p, x)[0] == e[0]);
        assert(e.insert(p, x).drop_first() =~= e.drop_first().insert(p - 1, x));
        if e[0].0 as int == i && e[0].1 as int == j {
            // x cannot carry the same coordinate: it is absent from e.
            assert(!(x.0 as int == i && x.1 as int == j));
            assert(entry_at(e.insert(p, x), i, j) == e[0].2);
        } else {
            lemma_entry_at_insert(e.drop_first(), p - 1, x, i, j);
        }
    }
}

/// How replacing the value at an index (keeping its coordinate) changes
/// the represented cells.
pub proof fn lemma_entry_at_update(e: Seq<Entry>, p: int, v: i32, i: int, j: int)
    requires
        sorted_strict(e),
        0 <= p < e.len(),
    ensures
        entry_at(e.update(p, (e[p].0, e[p].1, v)), i, j) == (if e[p].0 as int == i && e[p].1 as int
            == j {
            v
        } else {
            entry_at(e, i, j)
        }),
        has_coord(e.update(p, (e[p].0, e[p].1, v)), i, j) <==> has_coord(e, i, j),
    decreases e.len(),
{
    let x = (e[p].0, e[p].1, v);
    let e2 = e.update(p, x);
    if p == 0 {
        assert(e2[0] == x);
        assert(e2.drop_first() =~= e.drop_first());
    } else {
        assert(e2[0] == e[0]);
        assert(e2.drop_first() =~= e.drop_first().update(p - 1, x));
        if e[0].0 as int == i && e[0].1 as int == j {
            // coordinates are distinct, so index p does not carry (i, j)
            assert(lt_coord(e[0].0 as int, e[0].1 as int, e[p].0 as int, e[p].1 as int));
            assert(entry_at(e2, i, j) == e[0].2);
        } else {
            lemma_sorted_drop_first(e);
            assert(e.drop_first()[p - 1] == e[p]);
            lemma_entry_at_update(e.drop_first(), p - 1, v, i, j);
        }
    }
}

/// A strictly sorted list whose represented cells are all nonzero where
/// present stores only nonzero values.
pub proof fn lemma_all_nonzero_from_cells(e: Seq<Entry>)
    requires
        sorted_strict(e),
        forall|x: int, y: int| has_coord(e, x, y) ==> entry_at(e, x, y) != 0i32,
    ensures
        all_nonzero(e),
{
    assert forall|k: int| 0 <= k < e.len() implies (#[trigger] e[k]).2 != 0 by {
        lemma_entry_at_found(e, k, e[k].0 as int, e[k].1 as int);
        assert(has_coord(e, e[k].0 as int, e[k].1 as int));
    }
}

/// A strictly sorted list of nonzero values is determined by the cells it
/// represents: two such lists that agree on every cell are equal.
pub proof fn lemma_entries_canonical(e1: Seq<Entry>, e2: Seq<Entry>)
    requires
        sorted_strict(e1),
        sorted_strict(e2),
        all_nonzero(e1),
        all_nonzero(e2),
        forall|i: int, j: int| #[trigger] entry_at(e1, i, j) == entry_at(e2, i, j),
    ensures
        e1 == e2,
    decreases e1.len() + e2.len(),
{
    if e1.len() == 0 && e2.len() == 0 {
        assert(e1 =~= e2);
    } else if e1.len() == 0 {
        lemma_entry_at_found(e2, 0, e2[0].0 as int, e2[0].1 as int);
        assert(entry_at(e1, e2[0].0 as int, e2[0].1 as int) == 0i32);
        assert(false);
    } else if e2.len() == 0 {
        lemma_entry_at_found(e1, 0, e1[0].0 as int, e1[0].1 as int);
        assert(entry_at(e2, e1[0].0 as int, e1[0].1 as int) == 0i32);
        assert(false);
    } else {
        let i1 = e1[0].0 as int;
        let j1 = e1[0].1 as int;
        let i2 = e2[0].0 as int;
        let j2 = e2[0].1 as int;
        lemma_entry_at_found(e1, 0, i1, j1);
        lemma_entry_at_found(e2, 0, i2, j2);
        // each head's coordinate occurs in the other list, so each head is
        // lexicographically at most the other: the heads' coordinates agree
        assert(!lt_coord(i1, j1, i2, j2)) by {
            if has_coord(e2, i1, j1) {
                lemma_has_coord_iff(e2, i1, j1);
                let q = choose|q: int|
                    0 <= q < e2.len() && (#[trigger] e2[q]).0 as int == i1 && e2[q].1 as int == j1;
                if q > 0 {
                    assert(lt_coord(e2[0].0 as int, e2[0].1 as int, e2[q].0 as int, e2[q].1 as int));
                }
            } else {
                lemma_entry_at_absent(e2, i1, j1);
            }
        }
        assert(!lt_coord(i2, j2, i1, j1)) by {
            if has_coord(e1, i2, j2) {
                lemma_has_coord_iff(e1, i2, j2);
                let q = choose|q: int|
                    0 <= q < e1.len() && (#[trigger] e1[q]).0 as int == i2 && e1[q].1 as int == j2;
                if q > 0 {
                    assert(lt_coord(e1[0].0 as int, e1[0].1 as int, e1[q].0 as int, e1[q].1 as int));
                }
            } else {
                lemma_entry_at_absent(e1, i2, j2);
            }
        }
        assert(i1 == i2 && j1 == j2);
        assert(e1[0].2 == e2[0].2);
        lemma_sorted_drop_first(e1);
        lemma_sorted_drop_first(e2);
        assert forall|k: int| 0 <= k < e1.drop_first().len() implies (#[trigger] e1.drop_first()[k]).2
            != 0 by {
            assert(e1.drop_first()[k] == e1[k + 1]);
        }
        assert forall|k: int| 0 <= k < e2.drop_first().len() implies (#[trigger] e2.drop_first()[k]).2
            != 0 by {
            assert(e2.drop_first()[k] == e2[k + 1]);
        }
        assert forall|i: int, j: int| #[trigger]
            entry_at(e1.drop_first(), i, j) == entry_at(e2.drop_first(), i, j) by {
            if i1 == i && j1 == j {
                assert(!has_coord(e1.drop_first(), i, j)) by {
                    lemma_has_coord_iff(e1.drop_first(), i, j);
                    if exists|q: int|
                        0 <= q < e1.drop_first().len() && (#[trigger] e1.drop_first()[q]).0 as int
                            == i && e1.drop_first()[q].1 as int == j {
                        let q = choose|q: int|
                            0 <= q < e1.drop_first().len() && (#[trigger] e1.drop_first()[q]).0 as int
                                == i && e1.drop_first()[q].1 as int == j;
                        assert(e1.drop_first()[q] == e1[q + 1]);
                        assert(lt_coord(
                            e1[0].0 as int,
                            e1[0].1 as int,
                            e1[q + 1].0 as int,
                            e1[q + 1].1 as int,
                        ));
                    }
                }
                assert(!has_coord(e2.drop_first(), i, j)) by {
                    lemma_has_coord_iff(e2.drop_first(), i, j);
                    if exists|q: int|
                        0 <= q < e2.drop_first().len() && (#[trigger] e2.drop_first()[q]).0 as int
                            == i && e2.drop_first()[q].1 as int == j {
                        let q = choose|q: int|
                            0 <= q < e2.drop_first().len() && (#[trigger] e2.drop_first()[q]).0 as int
                                == i && e2.drop_first()[q].1 as int == j;
                        assert(e2.drop_first()[q] == e2[q + 1]);
                        assert(lt_coord(
                            e2[0].0 as int,
                            e2[0].1 as int,
                            e2[q + 1].0 as int,
                            e2[q + 1].1 as int,
                        ));
                    }
                }
                lemma_entry_at_absent(e1.drop_first(), i, j);
                lemma_entry_at_absent(e2.drop_first(), i, j);
            } else {
                assert(entry_at(e1, i, j) == entry_at(e1.drop_first(), i, j));
                assert(entry_at(e2, i, j) == entry_at(e2.drop_first(), i, j));
            }
        }
        lemma_entries_canonical(e1.drop_first(), e2.drop_first());
        assert forall|k: int| 0 <= k < e1.len() implies e1[k] == e2[k] by {
            if k > 0 {
                assert(e1[k] == e1.drop_first()[k - 1]);
                assert(e2[k] == e2.drop_first()[k - 1]);
            }
        }
        assert(e1 =~= e2);
    }
}

/// The first index whose coordinate is not lexicographically below (i, j):
/// where (i, j) is stored if present, and its insertion point otherwise.
pub(crate) fn find_slot(e: &Vec<Entry>, i: usize, j: usize) -> (p: usize)
    requires
        sorted_strict(e@),
    ensures
        p <= e@.len(),
        forall|q: int|
            0 <= q < p ==> lt_coord((#[trigger] e@[q]).0 as int, e@[q].1 as int, i as int, j as int),
        forall|q: int|
            p <= q < e@.len() ==> !lt_coord(
                (#[trigger] e@[q]).0 as int,
                e@[q].1 as int,
                i as int,
                j as int,
            ),
{
    let n = e.len();
    let mut p: usize = 0;
    while p < n && (e[p].0 < i || (e[p].0 == i && e[p].1 < j))
        invariant
            p <= n,
            forall|q: int|
                0 <= q < p ==> lt_coord(
                    (#[trigger] e@[q]).0 as int,
                    e@[q].1 as int,
                    i as int,
                    j as int,
                ),
        decreases n - p,
    {
        p = p + 1;
    }
    assert forall|q: int| p <= q < e@.len() implies !lt_coord(
        (#[trigger] e@[q]).0 as int,
        e@[q].1 as int,
        i as int,
        j as int,
    ) by {
        if q > p {
            assert(lt_coord(e@[p as int].0 as int, e@[p as int].1 as int, e@[q].0 as int, e@[q].1 as int));
        }
    }
    p
}

/// Add `d` to the cell at (i, j), inserting a fresh entry when the
/// coordinate is absent; the list stays strictly sorted and every other
/// cell is unchanged.
pub(crate) fn upsert(e: &mut Vec<Entry>, i: usize, j: usize, d: i32, bound: Ghost<(int, int)>)
    requires
        sorted_strict(old(e)@),
        in_range(old(e)@, bound@.0, bound@.1),
        (i as int) < bound@.0,
        (j as int) < bound@.1,
        i32::MIN <= entry_at(old(e)@, i as int, j as int) + d <= i32::MAX,
    ensures
        sorted_strict(final(e)@),
        in_range(final(e)@, bound@.0, bound@.1),
        entry_at(final(e)@, i as int, j as int) as int == entry_at(old(e)@, i as int, j as int)
            + d,
        forall|x: int, y: int|
            !(x == i as int && y == j as int) ==> #[trigger] entry_at(final(e)@, x, y) == entry_at(
                old(e)@,
                x,
                y,
            ),
        forall|x: int, y: int|
            #[trigger] has_coord(final(e)@, x, y) <==> (has_coord(old(e)@, x, y) || (x == i as int
                && y == j as int)),
        final(e)@.len() == old(e)@.len() + (if has_coord(old(e)@, i as int, j as int) {
            0int
        } else {
            1int
        }),
{
    let ghost e0 = e@;
    let p = find_slot(e, i, j);
    if p < e.len() && e[p].0 == i && e[p].1 == j {
        proof {
            lemma_entry_at_found(e0, p as int, i as int, j as int);
        }
        let v = e[p].2;
        let w = v + d;
        e.set(p, (i, j, w));
        proof {
            assert(e@ =~= e0.update(p as int, (e0[p as int].0, e0[p as int].1, w)));
            assert forall|x: int, y: int|
                !(x == i as int && y == j as int) implies #[trigger] entry_at(e@, x, y)
                == entry_at(e0, x, y) by {
                lemma_entry_at_update(e0, p as int, w, x, y);
            }
            assert forall|x: int, y: int| #[trigger]
                has_coord(e@, x, y) <==> (has_coord(e0, x, y) || (x == i as int && y
                == j as int)) by {
                lemma_entry_at_update(e0, p as int, w, x, y);
                if x == i as int && y == j as int {
                    lemma_has_coord_iff(e0, x, y);
                }
            }
            lemma_entry_at_update(e0, p as int, w, i as int, j as int);
            assert forall|u: int, q: int|
                0 <= u < q < e@.len() implies lt_coord(
                (#[trigger] e@[u]).0 as int,
                e@[u].1 as int,
                (#[trigger] e@[q]).0 as int,
                e@[q].1 as int,
            ) by {
                assert(e@[u].0 == e0[u].0 && e@[u].1 == e0[u].1);
                assert(e@[q].0 == e0[q].0 && e@[q].1 == e0[q].1);
            }
        }
    } else {
        proof {
            // (i, j) is absent: every index before p is strictly below it,
            // index p (if any) differs from it, and later indices are above p.
            assert(!has_coord(e0, i as int, j as int)) by {
                lemma_has_coord_iff(e0, i as int, j as int);
                if exists|k: int|
                    0 <= k < e0.len() && (#[trigger] e0[k]).0 as int == i as int && e0[k].1 as int
                        == j as int {
                    let k = choose|k: int|
                        0 <= k < e0.len() && (#[trigger] e0[k]).0 as int == i as int
                            && e0[k].1 as int == j as int;
                    if k > p as int {
                        assert(lt_coord(
                            e0[p as int].0 as int,
                            e0[p as int].1 as int,
                            e0[k].0 as int,
                            e0[k].1 as int,
                        ));
                    }
                }
            }
            lemma_entry_at_absent(e0, i as int, j as int);
        }
        e.insert(p, (i, j, d));
        proof {
            assert(e@ =~= e0.insert(p as int, (i, j, d)));
            e0.insert_ensures(p as int, (i, j, d));
            assert forall|x: int, y: int|
                !(x == i as int && y == j as int) implies #[trigger] entry_at(e@, x, y)
                == entry_at(e0, x, y) by {
                lemma_entry_at_insert(e0, p as int, (i, j, d), x, y);
            }
            assert forall|x: int, y: int| #[trigger]
                has_coord(e@, x, y) <==> (has_coord(e0, x, y) || (x == i as int && y
                == j as int)) by {
                lemma_entry_at_insert(e0, p as int, (i, j, d), x, y);
            }
            lemma_entry_at_insert(e0, p as int, (i, j, d), i as int, j as int);
            assert forall|u: int, q: int|
                0 <= u < q < e@.len() implies lt_coord(
                (#[trigger] e@[u]).0 as int,
                e@[u].1 as int,
                (#[trigger] e@[q]).0 as int,
                e@[q].1 as int,
            ) by {
                lemma_has_coord_iff(e0, i as int, j as int);
                if q < p as int {
                    assert(e@[u] == e0[u] && e@[q] == e0[q]);
                } else if q == p as int {
                    assert(e@[u] == e0[u] && e@[q] == (i, j, d));
                } else if u < p as int {
                    assert(e@[u] == e0[u] && e@[q] == e0[q - 1]);
                    assert(u <= q - 1 - 1);
                } else if u == p as int {
                    assert(e@[u] == (i, j, d) && e@[q] == e0[q - 1]);
                    // index q - 1 does not carry (i, j) and is not below it
                    assert(!(e0[q - 1].0 as int == i as int && e0[q - 1].1 as int == j as int));
                    assert(!lt_coord(e0[q - 1].0 as int, e0[q - 1].1 as int, i as int, j as int));
                } else {
                    assert(e@[u] == e0[u - 1] && e@[q] == e0[q - 1]);
                }
            }
            assert forall|k: int| 0 <= k < e@.len() implies (#[trigger] e@[k]).0 < bound@.0
                && e@[k].1 < bound@.1 by {
                if k < p as int {
                    assert(e@[k] == e0[k]);
                } else if k == p as int {
                } else {
                    assert(e@[k] == e0[k - 1]);
                }
            }
        }
    }
}

} // verus!
