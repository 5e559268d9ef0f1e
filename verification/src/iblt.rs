//! The invertible Bloom lookup table itself: the cell accumulators, the
//! multi-area routing of keys, and the insert / lookup / delete /
//! enumeration operations over them.

use crate::hashing::digest;
use crate::hashing::digest_of;
use crate::iblt_error::IBLTError;
use vstd::arithmetic::div_mod::lemma_fundamental_div_mod;
use vstd::arithmetic::div_mod::lemma_mod_bound;
use vstd::arithmetic::mul::lemma_mul_inequality;
use vstd::prelude::*;

verus! {

/// One accumulator cell: the net number of entries routed here and the
/// wrapping sums of their keys and values.
#[derive(Clone, Copy, PartialEq, Eq, Structural, Debug)]
pub struct InvertibleBloomLookupTableNode {
    pub count: u32,
    pub key_sum: u32,
    pub value_sum: u32,
}

type Node = InvertibleBloomLookupTableNode;

impl Default for InvertibleBloomLookupTableNode {
    /// A cell that no entry has touched.
    fn default() -> (n: InvertibleBloomLookupTableNode)
        ensures
            n == zero_cell(),
    {
        InvertibleBloomLookupTableNode { count: 0, key_sum: 0, value_sum: 0 }
    }
}

/// The cell of a fresh table.
pub open spec fn zero_cell() -> InvertibleBloomLookupTableNode {
    InvertibleBloomLookupTableNode { count: 0, key_sum: 0, value_sum: 0 }
}

/// A cell after one entry `(x, y)` has been added to it: the count and
/// both sums grow by one step, wrapping modulo 2^32.
pub open spec fn inc_cell(
    c: InvertibleBloomLookupTableNode,
    x: u32,
    y: u32,
) -> InvertibleBloomLookupTableNode {
    InvertibleBloomLookupTableNode {
        count: c.count.wrapping_add(1),
        key_sum: c.key_sum.wrapping_add(x),
        value_sum: c.value_sum.wrapping_add(y),
    }
}

/// A cell after one entry `(x, y)` has been removed from it; a cell
/// whose count is zero is left untouched, as removal skips it.
pub open spec fn dec_cell(
    c: InvertibleBloomLookupTableNode,
    x: u32,
    y: u32,
) -> InvertibleBloomLookupTableNode {
    if c.count == 0 {
        c
    } else {
        InvertibleBloomLookupTableNode {
            count: (c.count - 1) as u32,
            key_sum: c.key_sum.wrapping_sub(x),
            value_sum: c.value_sum.wrapping_sub(y),
        }
    }
}

/// The width of each area of a table with `size` cells and `ac` areas.
pub open spec fn area_width(size: int, ac: int) -> int {
    size / ac
}

/// The index the router yields within area `i` when the hashed input is
/// `value`: the digest of `value` reduced into the area's width, offset
/// to the area's start.
pub open spec fn routed_index(size: int, ac: int, i: int, value: u32) -> int {
    digest(value) as int % area_width(size, ac) + i * area_width(size, ac)
}

/// The per-area salt: the key with the area's one-byte nonce added,
/// wrapping modulo 2^32.
pub open spec fn salted_key(key: u32, i: int) -> u32 {
    key.wrapping_add(i as u32)
}

/// The one cell of area `i` that every operation on `key` touches.
pub open spec fn entry_cell(size: int, ac: int, i: int, key: u32) -> int {
    routed_index(size, ac, i, salted_key(key, i))
}

/// The cells after the entry `(x, y)` has been added to the cell of
/// each of the first `upto` areas.
pub open spec fn insert_upto(
    t: Seq<InvertibleBloomLookupTableNode>,
    ac: int,
    upto: int,
    x: u32,
    y: u32,
) -> Seq<InvertibleBloomLookupTableNode> {
    Seq::new(
        t.len(),
        |j: int|
            if exists|i: int|
                0 <= i < upto && j == #[trigger] entry_cell(t.len() as int, ac, i, x) {
                inc_cell(t[j], x, y)
            } else {
                t[j]
            },
    )
}

/// The cells after one insertion of the entry `(x, y)`: one cell per
/// area has been stepped forward.
pub open spec fn insert_applied(
    t: Seq<InvertibleBloomLookupTableNode>,
    ac: int,
    x: u32,
    y: u32,
) -> Seq<InvertibleBloomLookupTableNode> {
    insert_upto(t, ac, ac, x, y)
}

/// The cells after the entry `(x, y)` has been removed from the cell of
/// each of the first `upto` areas; cells whose count is zero are
/// skipped.
pub open spec fn delete_upto(
    t: Seq<InvertibleBloomLookupTableNode>,
    ac: int,
    upto: int,
    x: u32,
    y: u32,
) -> Seq<InvertibleBloomLookupTableNode> {
    Seq::new(
        t.len(),
        |j: int|
            if exists|i: int|
                0 <= i < upto && j == #[trigger] entry_cell(t.len() as int, ac, i, x) {
                dec_cell(t[j], x, y)
            } else {
                t[j]
            },
    )
}

/// The cells after one removal of the entry `(x, y)`.
pub open spec fn delete_applied(
    t: Seq<InvertibleBloomLookupTableNode>,
    ac: int,
    x: u32,
    y: u32,
) -> Seq<InvertibleBloomLookupTableNode> {
    delete_upto(t, ac, ac, x, y)
}

/// Whether a removal of key `x` touches anything: some area's cell for
/// `x` has a nonzero count.
pub open spec fn delete_matches(t: Seq<InvertibleBloomLookupTableNode>, ac: int, x: u32) -> bool {
    exists|i: int|
        0 <= i < ac && t[#[trigger] entry_cell(t.len() as int, ac, i, x)].count != 0
}

/// What the point lookup of key `x` resolves to when the scan starts at
/// area `i`: the value recovered from the first singleton cell holding
/// `x`, or nothing if the scan meets an untouched cell, a singleton of
/// another key, or runs out of areas.
pub open spec fn lookup_from(
    t: Seq<InvertibleBloomLookupTableNode>,
    ac: int,
    x: u32,
    i: int,
) -> Option<u32>
    decreases ac - i,
{
    if i < 0 || i >= ac {
        None
    } else {
        let c = t[entry_cell(t.len() as int, ac, i, x)];
        if c.count == 0 {
            None
        } else if c.count == 1 {
            if c.key_sum == x {
                Some(c.value_sum)
            } else {
                None
            }
        } else {
            lookup_from(t, ac, x, i + 1)
        }
    }
}

/// The cell that an operation on key `x` touches in area `i` lies in
/// the table and is touched by that operation in no other area.
pub proof fn lemma_entry_cell_fresh(size: int, ac: int, i: int, x: u32)
    requires
        size > 0,
        1 < ac,
        size % ac == 0,
        0 <= i < ac,
    ensures
        0 <= entry_cell(size, ac, i, x) < size,
        forall|i2: int|
            0 <= i2 < ac && i2 != i ==> #[trigger] entry_cell(size, ac, i2, x) != entry_cell(
                size,
                ac,
                i,
                x,
            ),
{
    lemma_routed_index_range(size, ac, i, salted_key(x, i));
    assert(i * area_width(size, ac) >= 0) by (nonlinear_arith)
        requires
            i >= 0,
            area_width(size, ac) > 0,
    ;
    assert forall|i2: int| 0 <= i2 < ac && i2 != i implies #[trigger] entry_cell(size, ac, i2, x)
        != entry_cell(size, ac, i, x) by {
        lemma_distinct_areas(size, ac, i2, i, salted_key(x, i2), salted_key(x, i));
    }
}

/// Touching the cell of area `i` advances the insertion transform from
/// the first `i` areas to the first `i + 1`: that cell is still as it
/// began, and stepping it forward yields the longer transform.
proof fn lemma_insert_upto_step(
    t0: Seq<InvertibleBloomLookupTableNode>,
    ac: int,
    i: int,
    x: u32,
    y: u32,
)
    requires
        t0.len() > 0,
        1 < ac,
        t0.len() as int % ac == 0,
        0 <= i < ac,
    ensures
        ({
            let idx = entry_cell(t0.len() as int, ac, i, x);
            &&& insert_upto(t0, ac, i, x, y)[idx] == t0[idx]
            &&& insert_upto(t0, ac, i, x, y).update(idx, inc_cell(t0[idx], x, y)) == insert_upto(
                t0,
                ac,
                i + 1,
                x,
                y,
            )
        }),
{
    let size = t0.len() as int;
    let idx = entry_cell(size, ac, i, x);
    lemma_entry_cell_fresh(size, ac, i, x);
    assert(insert_upto(t0, ac, i, x, y)[idx] == t0[idx]);
    let stepped = insert_upto(t0, ac, i, x, y).update(idx, inc_cell(t0[idx], x, y));
    assert forall|j: int| 0 <= j < size implies stepped[j] == insert_upto(t0, ac, i + 1, x, y)[j] by {
        if j == idx {
            assert(0 <= i < i + 1 && j == entry_cell(size, ac, i, x));
        } else if exists|i2: int| 0 <= i2 < i + 1 && j == #[trigger] entry_cell(size, ac, i2, x) {
            let i2 = choose|i2: int| 0 <= i2 < i + 1 && j == #[trigger] entry_cell(size, ac, i2, x);
            assert(i2 != i);
            assert(0 <= i2 < i && j == entry_cell(size, ac, i2, x));
        }
    }
    assert(stepped =~= insert_upto(t0, ac, i + 1, x, y));
}

/// The removal counterpart of `lemma_insert_upto_step`.
proof fn lemma_delete_upto_step(
    t0: Seq<InvertibleBloomLookupTableNode>,
    ac: int,
    i: int,
    x: u32,
    y: u32,
)
    requires
        t0.len() > 0,
        1 < ac,
        t0.len() as int % ac == 0,
        0 <= i < ac,
    ensures
        ({
            let idx = entry_cell(t0.len() as int, ac, i, x);
            &&& delete_upto(t0, ac, i, x, y)[idx] == t0[idx]
            &&& delete_upto(t0, ac, i, x, y).update(idx, dec_cell(t0[idx], x, y)) == delete_upto(
                t0,
                ac,
                i + 1,
                x,
                y,
            )
        }),
{
    let size = t0.len() as int;
    let idx = entry_cell(size, ac, i, x);
    lemma_entry_cell_fresh(size, ac, i, x);
    assert(delete_upto(t0, ac, i, x, y)[idx] == t0[idx]);
    let stepped = delete_upto(t0, ac, i, x, y).update(idx, dec_cell(t0[idx], x, y));
    assert forall|j: int| 0 <= j < size implies stepped[j] == delete_upto(t0, ac, i + 1, x, y)[j] by {
        if j == idx {
            assert(0 <= i < i + 1 && j == entry_cell(size, ac, i, x));
        } else if exists|i2: int| 0 <= i2 < i + 1 && j == #[trigger] entry_cell(size, ac, i2, x) {
            let i2 = choose|i2: int| 0 <= i2 < i + 1 && j == #[trigger] entry_cell(size, ac, i2, x);
            assert(i2 != i);
            assert(0 <= i2 < i && j == entry_cell(size, ac, i2, x));
        }
    }
    assert(stepped =~= delete_upto(t0, ac, i + 1, x, y));
}

/// What the single forward enumeration pass yields on cells `t` when it
/// has reached index `j`: the recovered entries in order of recovery
/// and the completeness flag, or nothing if a removal along the way
/// touched no cell. A singleton cell is recorded and its entry removed
/// from the working cells; an overloaded cell clears the flag for good;
/// an untouched cell is skipped. The pass never revisits an index, so a
/// cell that a later removal turns into a singleton stays unrecovered.
pub open spec fn peel_from(
    t: Seq<InvertibleBloomLookupTableNode>,
    ac: int,
    j: int,
) -> Option<(Seq<(u32, u32)>, bool)>
    decreases t.len() - j,
{
    if j < 0 || j >= t.len() {
        Some((Seq::empty(), true))
    } else {
        let c = t[j];
        if c.count == 1 {
            if !delete_matches(t, ac, c.key_sum) {
                None
            } else {
                match peel_from(delete_applied(t, ac, c.key_sum, c.value_sum), ac, j + 1) {
                    Some(r) => Some((seq![(c.key_sum, c.value_sum)] + r.0, r.1)),
                    None => None,
                }
            }
        } else if c.count > 1 {
            match peel_from(t, ac, j + 1) {
                Some(r) => Some((r.0, false)),
                None => None,
            }
        } else {
            peel_from(t, ac, j + 1)
        }
    }
}

/// One entry recovered by the enumeration pass: the key and value sums
/// of a cell that held exactly one entry.
pub struct Output {
    pub key_sum: u32,
    pub value_sum: u32,
}

/// What the enumeration pass returns: the recovered entries, and a flag
/// that is `true` only if no cell was overloaded when visited.
pub struct OutputList {
    pub key_pairs: Vec<Output>,
    pub complete_list: bool,
}

impl OutputList {
    /// An empty result, complete until a visit says otherwise.
    fn new() -> (r: OutputList)
        ensures
            r.key_pairs@.len() == 0,
            r.complete_list,
    {
        OutputList { key_pairs: Vec::new(), complete_list: true }
    }
}

/// The pairs held by a sequence of recovered entries.
pub open spec fn output_pairs(s: Seq<Output>) -> Seq<(u32, u32)> {
    s.map_values(|o: Output| (o.key_sum, o.value_sum))
}

/// The router stays inside its area: for a table partitioned evenly
/// into `ac` areas of positive width, the index routed within area `i`
/// lies in `[i * w, (i + 1) * w)`, which itself lies within the table.
pub proof fn lemma_routed_index_range(size: int, ac: int, i: int, value: u32)
    requires
        size > 0,
        1 < ac,
        size % ac == 0,
        0 <= i < ac,
    ensures
        area_width(size, ac) > 0,
        i * area_width(size, ac) <= routed_index(size, ac, i, value),
        routed_index(size, ac, i, value) < (i + 1) * area_width(size, ac),
        (i + 1) * area_width(size, ac) <= size,
{
    let w = area_width(size, ac);
    lemma_fundamental_div_mod(size, ac);
    assert(size == ac * w);
    assert(w > 0) by (nonlinear_arith)
        requires
            size == ac * w,
            size > 0,
            ac > 1,
    ;
    lemma_mod_bound(digest(value) as int, w);
    lemma_mul_inequality(i + 1, ac, w);
    assert((i + 1) * w == i * w + w) by (nonlinear_arith);
}

/// Different areas never share a cell: indices routed within distinct
/// areas are distinct, whatever was hashed.
pub proof fn lemma_distinct_areas(size: int, ac: int, i1: int, i2: int, v1: u32, v2: u32)
    requires
        size > 0,
        1 < ac,
        size % ac == 0,
        0 <= i1 < ac,
        0 <= i2 < ac,
        i1 != i2,
    ensures
        routed_index(size, ac, i1, v1) != routed_index(size, ac, i2, v2),
{
    let w = area_width(size, ac);
    lemma_routed_index_range(size, ac, i1, v1);
    lemma_routed_index_range(size, ac, i2, v2);
    if i1 < i2 {
        lemma_mul_inequality(i1 + 1, i2, w);
    } else {
        lemma_mul_inequality(i2 + 1, i1, w);
    }
}

/// A fixed-capacity probabilistic key-to-value map. The cell sequence is
/// partitioned into `area_count` equal contiguous areas; each operation
/// on a key touches exactly one cell per area.
#[derive(Clone)]
pub struct InvertibleBloomLookupTable {
    table: Vec<Node>,
    area_count: u8,
    postfix: Vec<u8>,
}

impl InvertibleBloomLookupTable {
    /// The cells of the table.
    pub closed spec fn cells(self) -> Seq<InvertibleBloomLookupTableNode> {
        self.table@
    }

    /// The number of areas the table is partitioned into.
    pub closed spec fn areas(self) -> int {
        self.area_count as int
    }

    /// The per-area nonces mixed into the key before hashing.
    pub closed spec fn nonces(self) -> Seq<u8> {
        self.postfix@
    }

    /// Well-formedness: the table is non-empty, has more than one area,
    /// the areas partition it exactly, and area `i`'s nonce is `i`.
    pub open spec fn wf(self) -> bool {
        &&& self.cells().len() > 0
        &&& 1 < self.areas() < 256
        &&& self.cells().len() as int % self.areas() == 0
        &&& self.nonces().len() == self.areas()
        &&& forall|i: int| 0 <= i < self.areas() ==> self.nonces()[i] == i as u8
    }

    /// Builds a table of `size` default cells partitioned into
    /// `area_count` areas, with nonce vector `[0, 1, ..., area_count-1]`.
    /// Construction fails, by returning no value, exactly when `size` is
    /// zero, `area_count` is at most one, or the areas would not
    /// partition the table evenly.
    pub fn new(size: usize, area_count: u8) -> (r: Option<InvertibleBloomLookupTable>)
        ensures
            (r is Some) <==> (size > 0 && area_count > 1 && size as int % area_count as int == 0),
            r matches Some(t) ==> {
                &&& t.wf()
                &&& t.cells().len() == size
                &&& t.areas() == area_count as int
                &&& forall|j: int| 0 <= j < size ==> t.cells()[j] == zero_cell()
            },
    {
        if size == 0 || area_count <= 1 || size % (area_count as usize) != 0 {
            return None;
        }
        let mut postfix: Vec<u8> = Vec::new();
        let mut i: u8 = 0;
        while i < area_count
            invariant
                i <= area_count,
                postfix@.len() == i as int,
                forall|k: int| 0 <= k < i as int ==> postfix@[k] == k as u8,
            decreases area_count - i,
        {
            postfix.push(i);
            i = i + 1;
        }
        let mut table: Vec<Node> = Vec::new();
        let mut j: usize = 0;
        while j < size
            invariant
                j <= size,
                table@.len() == j as int,
                forall|k: int| 0 <= k < j as int ==> table@[k] == zero_cell(),
            decreases size - j,
        {
            table.push(Node::default());
            j = j + 1;
        }
        Some(InvertibleBloomLookupTable { table, area_count, postfix })
    }

    /// Routes the hashed input `value` to one index within area `i`.
    /// Fails exactly when `i` is not a valid area index; a returned
    /// index always lies strictly within area `i`'s range.
    pub fn hash(&self, i: u8, value: u32) -> (r: Result<usize, IBLTError>)
        requires
            self.wf(),
        ensures
            (r is Ok) <==> (i as int) < self.areas(),
            r matches Ok(idx) ==> {
                let size = self.cells().len() as int;
                &&& idx as int == routed_index(size, self.areas(), i as int, value)
                &&& (i as int) * area_width(size, self.areas()) <= idx as int
                &&& (idx as int) < (i as int + 1) * area_width(size, self.areas())
                &&& (idx as int) < size
            },
            r matches Err(e) ==> e@ == "Index out of bounds"@,
    {
        if i >= self.area_count {
            return Err(IBLTError::new("Index out of bounds"));
        }
        let area_size: usize = self.table.len() / (self.area_count as usize);
        let hash_value: u64 = digest_of(value);
        proof {
            lemma_routed_index_range(
                self.cells().len() as int,
                self.areas(),
                i as int,
                value,
            );
        }
        Ok((hash_value % (area_size as u64)) as usize + (i as usize) * area_size)
    }

    /// Adds the entry `(x, y)` to the table: the cell for `x` in every
    /// area is stepped forward, wrapping modulo 2^32. Always succeeds.
    pub fn insert(&mut self, x: u32, y: u32) -> (r: Result<(), IBLTError>)
        requires
            old(self).wf(),
        ensures
            final(self).wf(),
            final(self).areas() == old(self).areas(),
            final(self).nonces() == old(self).nonces(),
            final(self).cells() == insert_applied(old(self).cells(), old(self).areas(), x, y),
            r is Ok,
    {
        let ghost t0 = self.table@;
        let ghost ac = self.area_count as int;
        let ghost size = self.table@.len() as int;
        proof {
            assert(self.table@ =~= insert_upto(t0, ac, 0, x, y));
        }
        let mut i: u8 = 0;
        while i < self.area_count
            invariant
                self.wf(),
                i as int <= ac,
                self.area_count as int == ac,
                self.postfix@ == old(self).postfix@,
                t0.len() == size,
                self.table@ == insert_upto(t0, ac, i as int, x, y),
            decreases self.area_count - i,
        {
            let key = x.wrapping_add(self.postfix[i as usize] as u32);
            let hash_value = self.hash(i, key)?;
            proof {
                lemma_insert_upto_step(t0, ac, i as int, x, y);
                assert(key == salted_key(x, i as int));
                assert(hash_value as int == entry_cell(size, ac, i as int, x));
            }
            let c = self.table[hash_value];
            self.table[hash_value] = InvertibleBloomLookupTableNode {
                count: c.count.wrapping_add(1),
                key_sum: c.key_sum.wrapping_add(x),
                value_sum: c.value_sum.wrapping_add(y),
            };
            i = i + 1;
        }
        Ok(())
    }

    /// Removes the entry `(x, y)` from the table: in every area, the
    /// cell for `x` is stepped back, wrapping modulo 2^32, unless its
    /// count is zero, in which case it is skipped. Fails exactly when
    /// every area's cell was skipped. Removal does not check that
    /// `(x, y)` was ever inserted: a caller that hands back anything
    /// but an originally inserted pair corrupts the accumulators.
    pub fn delete(&mut self, x: u32, y: u32) -> (r: Result<(), IBLTError>)
        requires
            old(self).wf(),
        ensures
            final(self).wf(),
            final(self).areas() == old(self).areas(),
            final(self).nonces() == old(self).nonces(),
            final(self).cells() == delete_applied(old(self).cells(), old(self).areas(), x, y),
            (r is Ok) <==> delete_matches(old(self).cells(), old(self).areas(), x),
            r matches Err(e) ==> e@ == "Error: Not Found"@,
    {
        let ghost t0 = self.table@;
        let ghost ac = self.area_count as int;
        let ghost size = self.table@.len() as int;
        proof {
            assert(self.table@ =~= delete_upto(t0, ac, 0, x, y));
        }
        let mut matched = false;
        let mut i: u8 = 0;
        while i < self.area_count
            invariant
                self.wf(),
                i as int <= ac,
                self.area_count as int == ac,
                self.postfix@ == old(self).postfix@,
                t0.len() == size,
                self.table@ == delete_upto(t0, ac, i as int, x, y),
                matched <==> exists|i2: int|
                    0 <= i2 < i as int && t0[#[trigger] entry_cell(size, ac, i2, x)].count != 0,
            decreases self.area_count - i,
        {
            let key = x.wrapping_add(self.postfix[i as usize] as u32);
            let hash_value = self.hash(i, key)?;
            proof {
                lemma_delete_upto_step(t0, ac, i as int, x, y);
                assert(key == salted_key(x, i as int));
                assert(hash_value as int == entry_cell(size, ac, i as int, x));
            }
            let c = self.table[hash_value];
            if c.count != 0 {
                self.table[hash_value] = InvertibleBloomLookupTableNode {
                    count: c.count - 1,
                    key_sum: c.key_sum.wrapping_sub(x),
                    value_sum: c.value_sum.wrapping_sub(y),
                };
                matched = true;
            } else {
                proof {
                    assert(self.table@ =~= delete_upto(t0, ac, i as int + 1, x, y));
                }
            }
            proof {
                let iw: int = i as int;
                if t0[entry_cell(size, ac, iw, x)].count != 0 {
                    assert(0 <= iw < iw + 1 && t0[entry_cell(size, ac, iw, x)].count != 0);
                }
            }
            i = i + 1;
        }
        if !matched {
            return Err(IBLTError::new("Error: Not Found"));
        }
        Ok(())
    }

    /// Looks up the value stored under key `x`. The areas are scanned
    /// in order and the scan stops at the first cell holding zero or
    /// one entries: an untouched cell or a singleton of another key
    /// means the key is absent, a singleton holding `x` yields its
    /// value. A key all of whose cells are overloaded cannot be
    /// resolved and is reported absent.
    pub fn get(&self, x: u32) -> (r: Result<u32, IBLTError>)
        requires
            self.wf(),
        ensures
            (r is Ok) <==> lookup_from(self.cells(), self.areas(), x, 0) is Some,
            r matches Ok(v) ==> lookup_from(self.cells(), self.areas(), x, 0) == Some(v),
            r matches Err(e) ==> e@ == "Error: Not Found"@,
    {
        let ghost t = self.table@;
        let ghost ac = self.area_count as int;
        let ghost size = self.table@.len() as int;
        let mut i: u8 = 0;
        while i < self.area_count
            invariant
                self.wf(),
                i as int <= ac,
                self.area_count as int == ac,
                t == self.table@,
                t.len() == size,
                lookup_from(t, ac, x, 0) == lookup_from(t, ac, x, i as int),
            decreases self.area_count - i,
        {
            let key = x.wrapping_add(self.postfix[i as usize] as u32);
            let hash_value = self.hash(i, key)?;
            proof {
                lemma_entry_cell_fresh(size, ac, i as int, x);
                assert(key == salted_key(x, i as int));
                assert(hash_value as int == entry_cell(size, ac, i as int, x));
            }
            let c = self.table[hash_value];
            if c.count == 0 {
                return Err(IBLTError::new("Error: Not Found"));
            } else if c.count == 1 {
                if c.key_sum == x {
                    return Ok(c.value_sum);
                } else {
                    return Err(IBLTError::new("Error: Not Found"));
                }
            }
            i = i + 1;
        }
        Err(IBLTError::new("Error: Not Found"))
    }

    /// A table with the same cells, areas and nonces, for the
    /// enumeration pass to consume.
    fn working_copy(&self) -> (c: InvertibleBloomLookupTable)
        requires
            self.wf(),
        ensures
            c.wf(),
            c.cells() == self.cells(),
            c.areas() == self.areas(),
            c.nonces() == self.nonces(),
    {
        let mut table: Vec<InvertibleBloomLookupTableNode> = Vec::new();
        let mut j: usize = 0;
        while j < self.table.len()
            invariant
                j <= self.table@.len(),
                table@.len() == j as int,
                forall|k: int| 0 <= k < j as int ==> table@[k] == self.table@[k],
            decreases self.table@.len() - j,
        {
            table.push(self.table[j]);
            j = j + 1;
        }
        let mut postfix: Vec<u8> = Vec::new();
        let mut p: usize = 0;
        while p < self.postfix.len()
            invariant
                p <= self.postfix@.len(),
                postfix@.len() == p as int,
                forall|k: int| 0 <= k < p as int ==> postfix@[k] == self.postfix@[k],
            decreases self.postfix@.len() - p,
        {
            postfix.push(self.postfix[p]);
            p = p + 1;
        }
        let c = InvertibleBloomLookupTable { table, area_count: self.area_count, postfix };
        proof {
            assert(c.cells() =~= self.cells());
            assert(c.nonces() =~= self.nonces());
        }
        c
    }

    /// Enumerates the table's contents by a single forward peeling pass
    /// over a working copy; the table itself is left untouched. Each
    /// singleton cell met yields one recovered entry, which is then
    /// removed from the working copy so that the cells it shares turn
    /// into new singletons; a cell that is overloaded when visited
    /// clears the completeness flag irreversibly. An entry whose cell
    /// becomes a singleton only after the pass has gone by is silently
    /// omitted.
    pub fn list_entries(&self) -> (r: Result<OutputList, IBLTError>)
        requires
            self.wf(),
        ensures
            (r is Ok) <==> peel_from(self.cells(), self.areas(), 0) is Some,
            r matches Ok(ol) ==> Some((output_pairs(ol.key_pairs@), ol.complete_list))
                == peel_from(self.cells(), self.areas(), 0),
            r matches Err(e) ==> e@ == "Error: Not Found"@,
    {
        let ghost t_orig = self.table@;
        let ghost ac = self.area_count as int;
        let mut ret_val = OutputList::new();
        let mut table = self.working_copy();
        let n = table.table.len();
        proof {
            assert(output_pairs(ret_val.key_pairs@) =~= Seq::<(u32, u32)>::empty());
        }
        let mut i: usize = 0;
        while i < n
            invariant
                table.wf(),
                table.areas() == ac,
                t_orig == self.cells(),
                ac == self.areas(),
                n == table.cells().len(),
                n == t_orig.len(),
                i <= n,
                match peel_from(table.cells(), ac, i as int) {
                    Some(rest) => peel_from(t_orig, ac, 0) == Some(
                        (
                            output_pairs(ret_val.key_pairs@) + rest.0,
                            ret_val.complete_list && rest.1,
                        ),
                    ),
                    None => peel_from(t_orig, ac, 0) is None,
                },
            decreases n - i,
        {
            let ghost t_cur = table.cells();
            let ghost acc = ret_val.key_pairs@;
            let ghost cl = ret_val.complete_list;
            let c = table.table[i];
            if c.count == 1 {
                let key_sum = c.key_sum;
                let value_sum = c.value_sum;
                ret_val.key_pairs.push(Output { key_sum, value_sum });
                match table.delete(key_sum, value_sum) {
                    Ok(_) => {
                        proof {
                            let e = (key_sum, value_sum);
                            assert(output_pairs(acc.push(Output { key_sum, value_sum })) =~= output_pairs(
                                acc,
                            ).push(e));
                            match peel_from(table.cells(), ac, i as int + 1) {
                                Some(rest) => {
                                    assert(output_pairs(acc) + (seq![e] + rest.0) =~= output_pairs(
                                        acc,
                                    ).push(e) + rest.0);
                                },
                                None => {},
                            }
                        }
                    },
                    Err(e) => {
                        proof {
                            assert(!delete_matches(t_cur, ac, key_sum));
                            assert(peel_from(t_cur, ac, i as int) is None);
                        }
                        return Err(e);
                    },
                }
            } else if ret_val.complete_list && c.count > 1 {
                ret_val.complete_list = false;
            }
            i = i + 1;
        }
        proof {
            assert(peel_from(table.cells(), ac, n as int) == Some(
                (Seq::<(u32, u32)>::empty(), true),
            ));
            assert(output_pairs(ret_val.key_pairs@) + Seq::<(u32, u32)>::empty() =~= output_pairs(
                ret_val.key_pairs@,
            ));
        }
        Ok(ret_val)
    }
}

} // verus!
