//! Laws of the table, stated over its cell-level model and proved once
//! and for all: a fresh table resolves no lookup and no removal, and the
//! single forward enumeration pass recovers exactly the inserted entries
//! whenever their cells never collide.

use crate::iblt::delete_applied;
use crate::iblt::delete_matches;
use crate::iblt::entry_cell;
use crate::iblt::inc_cell;
use crate::iblt::insert_applied;
use crate::iblt::lemma_entry_cell_fresh;
use crate::iblt::lookup_from;
use crate::iblt::peel_from;
use crate::iblt::zero_cell;
use crate::iblt::InvertibleBloomLookupTableNode;
use vstd::prelude::*;
use vstd::seq_lib::seq_to_set_is_finite;

verus! {

/// LAW: on a fresh table, the point lookup of any key fails, because
/// the first area's cell for that key is untouched.
pub proof fn lemma_fresh_lookup_fails(
    t: Seq<InvertibleBloomLookupTableNode>,
    ac: int,
    x: u32,
)
    requires
        t.len() > 0,
        1 < ac,
        t.len() as int % ac == 0,
        forall|j: int| 0 <= j < t.len() ==> t[j] == zero_cell(),
    ensures
        lookup_from(t, ac, x, 0) is None,
{
    lemma_entry_cell_fresh(t.len() as int, ac, 0, x);
}

/// LAW: on a fresh table, removing any entry touches nothing, because
/// every area's cell for its key has count zero.
pub proof fn lemma_fresh_delete_fails(
    t: Seq<InvertibleBloomLookupTableNode>,
    ac: int,
    x: u32,
)
    requires
        t.len() > 0,
        1 < ac,
        t.len() as int % ac == 0,
        forall|j: int| 0 <= j < t.len() ==> t[j] == zero_cell(),
    ensures
        !delete_matches(t, ac, x),
{
    assert forall|i: int| 0 <= i < ac implies t[#[trigger] entry_cell(
        t.len() as int,
        ac,
        i,
        x,
    )].count == 0 by {
        lemma_entry_cell_fresh(t.len() as int, ac, i, x);
    }
}

/// Whether some operation on `key` touches cell `j`.
pub open spec fn owns(size: int, ac: int, key: u32, j: int) -> bool {
    exists|i: int| 0 <= i < ac && j == #[trigger] entry_cell(size, ac, i, key)
}

/// Entries that never collide: two distinct entries of `s` touch no
/// common cell. Entries sharing a key share all cells, so this also
/// forces the keys to be pairwise distinct.
pub open spec fn no_collisions(s: Set<(u32, u32)>, size: int, ac: int) -> bool {
    forall|e1: (u32, u32), e2: (u32, u32), j: int|
        s.contains(e1) && s.contains(e2) && e1 != e2 ==> !(#[trigger] owns(size, ac, e1.0, j)
            && #[trigger] owns(size, ac, e2.0, j))
}

/// The cells of a table that holds exactly the entries of `s`, each
/// alone in every cell it touches: a singleton accumulator wherever an
/// entry is routed, an untouched cell everywhere else.
pub open spec fn table_of(s: Set<(u32, u32)>, size: int, ac: int) -> Seq<
    InvertibleBloomLookupTableNode,
> {
    Seq::new(
        size as nat,
        |j: int|
            if exists|e: (u32, u32)| s.contains(e) && #[trigger] owns(size, ac, e.0, j) {
                let e = choose|e: (u32, u32)| s.contains(e) && #[trigger] owns(size, ac, e.0, j);
                InvertibleBloomLookupTableNode { count: 1, key_sum: e.0, value_sum: e.1 }
            } else {
                zero_cell()
            },
    )
}

/// The cells of a fresh table.
pub open spec fn zero_table(size: int) -> Seq<InvertibleBloomLookupTableNode> {
    Seq::new(size as nat, |j: int| zero_cell())
}

/// The cells after the entries of a sequence have been inserted into
/// `t`, one insertion per element, in order.
pub open spec fn inserted_all(
    t: Seq<InvertibleBloomLookupTableNode>,
    ac: int,
    entries: Seq<(u32, u32)>,
) -> Seq<InvertibleBloomLookupTableNode>
    decreases entries.len(),
{
    if entries.len() == 0 {
        t
    } else {
        insert_applied(
            inserted_all(t, ac, entries.drop_last()),
            ac,
            entries.last().0,
            entries.last().1,
        )
    }
}

/// Cells have one owner when entries never collide.
proof fn lemma_owner_unique(
    s: Set<(u32, u32)>,
    size: int,
    ac: int,
    j: int,
    e1: (u32, u32),
    e2: (u32, u32),
)
    requires
        no_collisions(s, size, ac),
        s.contains(e1),
        s.contains(e2),
        owns(size, ac, e1.0, j),
        owns(size, ac, e2.0, j),
    ensures
        e1 == e2,
{
}

/// The cell owned by an entry of `s` holds exactly that entry.
proof fn lemma_table_of_at(s: Set<(u32, u32)>, size: int, ac: int, j: int, e: (u32, u32))
    requires
        no_collisions(s, size, ac),
        s.contains(e),
        owns(size, ac, e.0, j),
        0 <= j < size,
    ensures
        table_of(s, size, ac)[j] == (InvertibleBloomLookupTableNode {
            count: 1,
            key_sum: e.0,
            value_sum: e.1,
        }),
{
    let picked = choose|e2: (u32, u32)| s.contains(e2) && #[trigger] owns(size, ac, e2.0, j);
    lemma_owner_unique(s, size, ac, j, e, picked);
}

/// Entries of a subset still never collide.
proof fn lemma_no_collisions_subset(s1: Set<(u32, u32)>, s2: Set<(u32, u32)>, size: int, ac: int)
    requires
        no_collisions(s2, size, ac),
        s1.subset_of(s2),
    ensures
        no_collisions(s1, size, ac),
{
}

/// Removing one entry of `s` from the cells holding exactly `s` leaves
/// the cells holding exactly the remaining entries.
proof fn lemma_delete_entry(s: Set<(u32, u32)>, size: int, ac: int, e: (u32, u32))
    requires
        size > 0,
        1 < ac,
        size % ac == 0,
        no_collisions(s, size, ac),
        s.contains(e),
    ensures
        delete_applied(table_of(s, size, ac), ac, e.0, e.1) == table_of(
            s.remove(e),
            size,
            ac,
        ),
{
    let t = table_of(s, size, ac);
    let lhs = delete_applied(t, ac, e.0, e.1);
    let rhs = table_of(s.remove(e), size, ac);
    lemma_no_collisions_subset(s.remove(e), s, size, ac);
    assert forall|j: int| 0 <= j < size implies lhs[j] == rhs[j] by {
        if owns(size, ac, e.0, j) {
            lemma_table_of_at(s, size, ac, j, e);
            assert(lhs[j] == zero_cell());
            if exists|e2: (u32, u32)| s.remove(e).contains(e2) && #[trigger] owns(
                size,
                ac,
                e2.0,
                j,
            ) {
                let e2 = choose|e2: (u32, u32)|
                    s.remove(e).contains(e2) && #[trigger] owns(size, ac, e2.0, j);
                lemma_owner_unique(s, size, ac, j, e, e2);
                assert(false);
            }
        } else {
            if exists|e2: (u32, u32)| s.contains(e2) && #[trigger] owns(size, ac, e2.0, j) {
                let e2 = choose|e2: (u32, u32)|
                    s.contains(e2) && #[trigger] owns(size, ac, e2.0, j);
                assert(e2 != e);
                lemma_table_of_at(s, size, ac, j, e2);
                lemma_table_of_at(s.remove(e), size, ac, j, e2);
            } else {
                assert(t[j] == zero_cell());
                assert(rhs[j] == zero_cell());
            }
        }
    }
    assert(lhs =~= rhs);
}

/// Inserting an entry that collides with nothing into the cells holding
/// exactly `s` leaves the cells holding exactly `s` and the entry.
proof fn lemma_insert_entry(s: Set<(u32, u32)>, size: int, ac: int, e: (u32, u32))
    requires
        size > 0,
        1 < ac,
        size % ac == 0,
        no_collisions(s.insert(e), size, ac),
        !s.contains(e),
    ensures
        insert_applied(table_of(s, size, ac), ac, e.0, e.1) == table_of(
            s.insert(e),
            size,
            ac,
        ),
{
    let t = table_of(s, size, ac);
    let lhs = insert_applied(t, ac, e.0, e.1);
    let rhs = table_of(s.insert(e), size, ac);
    lemma_no_collisions_subset(s, s.insert(e), size, ac);
    assert forall|j: int| 0 <= j < size implies lhs[j] == rhs[j] by {
        if owns(size, ac, e.0, j) {
            if exists|e2: (u32, u32)| s.contains(e2) && #[trigger] owns(size, ac, e2.0, j) {
                let e2 = choose|e2: (u32, u32)|
                    s.contains(e2) && #[trigger] owns(size, ac, e2.0, j);
                lemma_owner_unique(s.insert(e), size, ac, j, e, e2);
                assert(false);
            }
            assert(t[j] == zero_cell());
            assert(lhs[j] == inc_cell(zero_cell(), e.0, e.1));
            lemma_table_of_at(s.insert(e), size, ac, j, e);
        } else {
            if exists|e2: (u32, u32)| s.contains(e2) && #[trigger] owns(size, ac, e2.0, j) {
                let e2 = choose|e2: (u32, u32)|
                    s.contains(e2) && #[trigger] owns(size, ac, e2.0, j);
                lemma_table_of_at(s, size, ac, j, e2);
                lemma_table_of_at(s.insert(e), size, ac, j, e2);
            } else {
                assert(t[j] == zero_cell());
                if exists|e2: (u32, u32)| s.insert(e).contains(e2) && #[trigger] owns(
                    size,
                    ac,
                    e2.0,
                    j,
                ) {
                    let e2 = choose|e2: (u32, u32)|
                        s.insert(e).contains(e2) && #[trigger] owns(size, ac, e2.0, j);
                    assert(e2 == e);
                    assert(false);
                }
            }
        }
    }
    assert(lhs =~= rhs);
}

/// The enumeration pass, started at index `j` on cells holding exactly
/// the entries of `s`, recovers exactly `s` when no entry's cell lies
/// before `j`: every cell met is a singleton or untouched, so the flag
/// stays set, and every entry is extracted at its first cell.
proof fn lemma_peel_recovers(s: Set<(u32, u32)>, size: int, ac: int, j: int)
    requires
        size > 0,
        1 < ac,
        size % ac == 0,
        0 <= j <= size,
        s.finite(),
        no_collisions(s, size, ac),
        forall|e: (u32, u32), i: int|
            s.contains(e) && 0 <= i < ac ==> #[trigger] entry_cell(size, ac, i, e.0) >= j,
    ensures
        peel_from(table_of(s, size, ac), ac, j) matches Some(r) && r.0.to_set() == s
            && r.0.no_duplicates() && r.1,
    decreases size - j,
{
    let t = table_of(s, size, ac);
    if j == size {
        assert forall|e: (u32, u32)| !s.contains(e) by {
            if s.contains(e) {
                lemma_entry_cell_fresh(size, ac, 0, e.0);
                assert(entry_cell(size, ac, 0, e.0) >= j);
            }
        }
        assert(s =~= Set::<(u32, u32)>::empty());
        let r = peel_from(t, ac, j)->Some_0;
        assert(r.0.to_set() =~= s);
    } else if exists|e: (u32, u32)| s.contains(e) && #[trigger] owns(size, ac, e.0, j) {
        let e = choose|e: (u32, u32)| s.contains(e) && #[trigger] owns(size, ac, e.0, j);
        lemma_table_of_at(s, size, ac, j, e);
        let c = t[j];
        assert(c.count == 1 && c.key_sum == e.0 && c.value_sum == e.1);
        let i0 = choose|i: int| 0 <= i < ac && j == entry_cell(size, ac, i, e.0);
        assert(t[entry_cell(size, ac, i0, e.0)].count != 0);
        assert(delete_matches(t, ac, e.0));
        lemma_delete_entry(s, size, ac, e);
        let s2 = s.remove(e);
        lemma_no_collisions_subset(s2, s, size, ac);
        assert forall|e2: (u32, u32), i: int|
            s2.contains(e2) && 0 <= i < ac implies #[trigger] entry_cell(size, ac, i, e2.0) >= j
            + 1 by {
            assert(entry_cell(size, ac, i, e2.0) >= j);
            if entry_cell(size, ac, i, e2.0) == j {
                assert(owns(size, ac, e2.0, j));
                lemma_owner_unique(s, size, ac, j, e, e2);
                assert(false);
            }
        }
        lemma_peel_recovers(s2, size, ac, j + 1);
        let rest = peel_from(table_of(s2, size, ac), ac, j + 1)->Some_0;
        let out = seq![(e.0, e.1)] + rest.0;
        assert(!rest.0.contains((e.0, e.1))) by {
            if rest.0.contains((e.0, e.1)) {
                assert(rest.0.to_set().contains((e.0, e.1)));
            }
        }
        assert(out.no_duplicates()) by {
            assert forall|k1: int, k2: int| 0 <= k1 < k2 < out.len() implies out[k1] != out[k2] by {
                if k1 == 0 {
                    assert(out[k2] == rest.0[k2 - 1]);
                    assert(rest.0.contains(rest.0[k2 - 1])) by {
                        assert(0 <= k2 - 1 < rest.0.len());
                    }
                } else {
                    assert(out[k1] == rest.0[k1 - 1] && out[k2] == rest.0[k2 - 1]);
                }
            }
        }
        assert(out.to_set() =~= s) by {
            assert forall|x: (u32, u32)| out.to_set().contains(x) implies s.contains(x) by {
                let k = choose|k: int| 0 <= k < out.len() && out[k] == x;
                if k == 0 {
                    assert(x == (e.0, e.1));
                } else {
                    assert(rest.0.contains(rest.0[k - 1]));
                    assert(rest.0.to_set().contains(x));
                }
            }
            assert forall|x: (u32, u32)| s.contains(x) implies out.to_set().contains(x) by {
                if x == (e.0, e.1) {
                    assert(out[0] == x);
                    assert(out.contains(x));
                } else {
                    assert(s2.contains(x));
                    assert(rest.0.to_set().contains(x));
                    let k = choose|k: int| 0 <= k < rest.0.len() && rest.0[k] == x;
                    assert(out[k + 1] == x);
                    assert(out.contains(x));
                }
            }
        }
        assert(e.0 == c.key_sum && e.1 == c.value_sum);
        assert(out =~= seq![(c.key_sum, c.value_sum)] + rest.0);
    } else {
        assert(t[j] == zero_cell());
        assert forall|e2: (u32, u32), i: int|
            s.contains(e2) && 0 <= i < ac implies #[trigger] entry_cell(size, ac, i, e2.0) >= j
            + 1 by {
            assert(entry_cell(size, ac, i, e2.0) >= j);
            if entry_cell(size, ac, i, e2.0) == j {
                assert(owns(size, ac, e2.0, j));
            }
        }
        lemma_peel_recovers(s, size, ac, j + 1);
    }
}

/// LAW: on cells holding exactly a finite set of entries that never
/// collide, the enumeration pass recovers exactly that set, without
/// duplicates, and reports the listing complete.
pub proof fn lemma_disjoint_entries_fully_recovered(s: Set<(u32, u32)>, size: int, ac: int)
    requires
        size > 0,
        1 < ac,
        size % ac == 0,
        s.finite(),
        no_collisions(s, size, ac),
    ensures
        peel_from(table_of(s, size, ac), ac, 0) matches Some(r) && r.0.to_set() == s
            && r.0.no_duplicates() && r.1,
{
    assert forall|e: (u32, u32), i: int|
        s.contains(e) && 0 <= i < ac implies #[trigger] entry_cell(size, ac, i, e.0) >= 0 by {
        lemma_entry_cell_fresh(size, ac, i, e.0);
    }
    lemma_peel_recovers(s, size, ac, 0);
}

/// A sequence of insertions of pairwise distinct, never-colliding
/// entries into a fresh table builds the cells that hold exactly that
/// set of entries.
pub proof fn lemma_inserts_build_table(entries: Seq<(u32, u32)>, size: int, ac: int)
    requires
        size > 0,
        1 < ac,
        size % ac == 0,
        entries.no_duplicates(),
        no_collisions(entries.to_set(), size, ac),
    ensures
        inserted_all(zero_table(size), ac, entries) == table_of(entries.to_set(), size, ac),
    decreases entries.len(),
{
    broadcast use seq_to_set_is_finite;

    if entries.len() == 0 {
        assert(entries.to_set() =~= Set::<(u32, u32)>::empty());
        assert forall|j: int| 0 <= j < size implies zero_table(size)[j] == table_of(
            entries.to_set(),
            size,
            ac,
        )[j] by {
            if exists|e: (u32, u32)| entries.to_set().contains(e) && #[trigger] owns(
                size,
                ac,
                e.0,
                j,
            ) {
                let e = choose|e: (u32, u32)|
                    entries.to_set().contains(e) && #[trigger] owns(size, ac, e.0, j);
                assert(false);
            }
        }
        assert(zero_table(size) =~= table_of(entries.to_set(), size, ac));
    } else {
        let pre = entries.drop_last();
        let e = entries.last();
        assert(pre.no_duplicates());
        assert(entries.to_set() =~= pre.to_set().insert(e)) by {
            assert forall|x: (u32, u32)| entries.contains(x) implies pre.contains(x) || x == e by {
                let k = choose|k: int| 0 <= k < entries.len() && entries[k] == x;
                if k < entries.len() - 1 {
                    assert(pre[k] == x);
                }
            }
            assert forall|x: (u32, u32)| pre.contains(x) implies entries.contains(x) by {
                let k = choose|k: int| 0 <= k < pre.len() && pre[k] == x;
                assert(entries[k] == x);
            }
            assert(entries.contains(e)) by {
                assert(entries[entries.len() - 1] == e);
            }
        }
        assert(!pre.to_set().contains(e)) by {
            if pre.contains(e) {
                let k = choose|k: int| 0 <= k < pre.len() && pre[k] == e;
                assert(entries[k] == entries[entries.len() - 1]);
            }
        }
        lemma_no_collisions_subset(pre.to_set(), entries.to_set(), size, ac);
        lemma_inserts_build_table(pre, size, ac);
        lemma_insert_entry(pre.to_set(), size, ac, e);
    }
}

/// LAW: for any sequence of insertions of pairwise distinct entries
/// whose cells never collide, the single forward enumeration pass over
/// the resulting table recovers exactly that set of entries, without
/// duplicates, and reports the listing complete.
pub proof fn lemma_single_pass_recovers_disjoint_inserts(
    entries: Seq<(u32, u32)>,
    size: int,
    ac: int,
)
    requires
        size > 0,
        1 < ac,
        size % ac == 0,
        entries.no_duplicates(),
        no_collisions(entries.to_set(), size, ac),
    ensures
        peel_from(inserted_all(zero_table(size), ac, entries), ac, 0) matches Some(r)
            && r.0.to_set() == entries.to_set() && r.0.no_duplicates() && r.1,
{
    broadcast use seq_to_set_is_finite;

    lemma_inserts_build_table(entries, size, ac);
    lemma_disjoint_entries_fully_recovered(entries.to_set(), size, ac);
}

} // verus!
