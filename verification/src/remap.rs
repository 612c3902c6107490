//! What follows the remapping of an image: the palette is cut down to the entries that pixels
//! use and put in order, and the indices of the pixels are rewritten to match.
use vstd::prelude::*;

use crate::error::liq_error;
use crate::pal::RGBA;
use crate::pal::MAX_COLORS;

verus! {

/// Number of pixels that use palette entry `slot`.
pub open spec fn usage(indices: Seq<u8>, slot: int) -> nat
    decreases indices.len(),
{
    if indices.len() == 0 {
        0
    } else {
        usage(indices.drop_last(), slot) + if indices.last() == slot {
            1nat
        } else {
            0nat
        }
    }
}

/// Whether entry `a` comes before entry `b` when entries are put in order of their use: the
/// one that more pixels use comes first, and of two that are used alike the one that came
/// first before.
pub open spec fn comes_before(indices: Seq<u8>, a: int, b: int) -> bool {
    usage(indices, a) > usage(indices, b) || (usage(indices, a) == usage(indices, b) && a < b)
}

/// Whether the entries named in `order` are in order of their use.
pub open spec fn ordered_by_usage(order: Seq<u8>, indices: Seq<u8>) -> bool {
    forall|i: int, j: int|
        0 <= i < j < order.len() ==> comes_before(
            indices,
            (#[trigger] order[i]) as int,
            (#[trigger] order[j]) as int,
        )
}

/// Whether `order` names every entry of a palette of `slots` entries that some pixel uses,
/// names no other entry and names none twice.
pub open spec fn names_used_entries(order: Seq<u8>, indices: Seq<u8>, slots: int) -> bool {
    &&& forall|i: int|
        0 <= i < order.len() ==> (#[trigger] order[i]) < slots && usage(indices, order[i] as int)
            > 0
    &&& forall|s: int|
        0 <= s < slots && #[trigger] usage(indices, s) > 0 ==> exists|i: int|
            0 <= i < order.len() && #[trigger] order[i] == s
    &&& forall|i: int, j: int|
        0 <= i < j < order.len() ==> (#[trigger] order[i]) != (#[trigger] order[j])
}

/// Whether some pixel uses an entry that is fully transparent.
pub open spec fn uses_transparent(palette: Seq<RGBA>, indices: Seq<u8>) -> bool {
    exists|s: int| 0 <= s < palette.len() && #[trigger] usage(indices, s) > 0 && palette[s].a == 0
}

/// A palette cut down to the entries in use.
pub struct Compacted {
    /// The entries that pixels use, in their new order
    pub palette: Vec<RGBA>,
    /// For each entry of the new palette, the place it had in the old one
    pub order: Vec<u8>,
}

/// What compacting a palette gives. The new palette holds just the entries that pixels use,
/// and every pixel keeps its color under its new index. The entries are in order of their use,
/// except that, where `last_index_transparent` is set and a fully transparent entry is in
/// use, the first such entry in that order stands at the end instead.
pub open spec fn compacted(
    palette: Seq<RGBA>,
    indices: Seq<u8>,
    last_index_transparent: bool,
    new_palette: Seq<RGBA>,
    order: Seq<u8>,
    new_indices: Seq<u8>,
) -> bool {
    let moved = last_index_transparent && uses_transparent(palette, indices);
    let in_order = if moved {
        order.len() - 1
    } else {
        order.len() as int
    };
    &&& names_used_entries(order, indices, palette.len() as int)
    &&& new_palette.len() == order.len()
    &&& forall|i: int| 0 <= i < order.len() ==> #[trigger] new_palette[i] == palette[order[i] as int]
    &&& new_indices.len() == indices.len()
    &&& forall|k: int|
        0 <= k < indices.len() ==> (#[trigger] new_indices[k]) < order.len() && order[new_indices[k] as int]
            == indices[k]
    &&& ordered_by_usage(order.take(in_order), indices)
    &&& moved ==> {
        &&& order.len() > 0
        &&& palette[order.last() as int].a == 0
        &&& forall|i: int|
            0 <= i < in_order && palette[(#[trigger] order[i]) as int].a == 0 ==> comes_before(
                indices,
                order.last() as int,
                order[i] as int,
            )
    }
}

/// Counts, for each entry of a palette of `slots` entries, the pixels that use it. There is no
/// result when a pixel names an entry that the palette does not have.
fn usage_counts(indices: &Vec<u8>, slots: usize) -> (r: Option<Vec<usize>>)
    ensures
        match r {
            Some(counts) => {
                &&& counts@.len() == slots
                &&& forall|k: int| 0 <= k < indices@.len() ==> (#[trigger] indices@[k]) < slots
                &&& forall|s: int| 0 <= s < slots ==> #[trigger] counts@[s] == usage(indices@, s)
            },
            None => exists|k: int| 0 <= k < indices@.len() && #[trigger] indices@[k] >= slots,
        },
{
    let mut counts: Vec<usize> = Vec::new();
    let mut s: usize = 0;
    while s < slots
        invariant
            s <= slots,
            counts@.len() == s,
            forall|t: int| 0 <= t < s ==> #[trigger] counts@[t] == 0,
        decreases slots - s,
    {
        counts.push(0);
        s += 1;
    }
    assert(indices@.take(0) =~= Seq::<u8>::empty());
    let mut k: usize = 0;
    while k < indices.len()
        invariant
            k <= indices@.len(),
            counts@.len() == slots,
            forall|j: int| 0 <= j < k ==> (#[trigger] indices@[j]) < slots,
            forall|t: int|
                0 <= t < slots ==> #[trigger] counts@[t] == usage(indices@.take(k as int), t),
        decreases indices@.len() - k,
    {
        let slot: usize = indices[k] as usize;
        if slot >= slots {
            return None;
        }
        proof {
            assert(indices@.take(k + 1).drop_last() =~= indices@.take(k as int));
            lemma_usage_bound(indices@.take(k as int), slot as int);
        }
        let n: usize = counts[slot];
        counts.set(slot, n + 1);
        k += 1;
    }
    assert(indices@.take(k as int) =~= indices@);
    Some(counts)
}

/// The entries in use, in order of their use.
fn usage_order(counts: &Vec<usize>, Ghost(indices): Ghost<Seq<u8>>) -> (order: Vec<u8>)
    requires
        counts@.len() <= MAX_COLORS,
        forall|s: int| 0 <= s < counts@.len() ==> #[trigger] counts@[s] == usage(indices, s),
    ensures
        names_used_entries(order@, indices, counts@.len() as int),
        ordered_by_usage(order@, indices),
        order@.len() <= counts@.len(),
{
    let mut order: Vec<u8> = Vec::new();
    let mut s: usize = 0;
    while s < counts.len()
        invariant
            s <= counts@.len() <= MAX_COLORS,
            order@.len() <= s,
            forall|t: int| 0 <= t < counts@.len() ==> #[trigger] counts@[t] == usage(indices, t),
            ordered_by_usage(order@, indices),
            forall|i: int|
                0 <= i < order@.len() ==> (#[trigger] order@[i]) < s && usage(
                    indices,
                    order@[i] as int,
                ) > 0,
            forall|t: int|
                0 <= t < s && #[trigger] usage(indices, t) > 0 ==> exists|i: int|
                    0 <= i < order@.len() && #[trigger] order@[i] == t,
            forall|i: int, j: int|
                0 <= i < j < order@.len() ==> (#[trigger] order@[i]) != (#[trigger] order@[j]),
        decreases counts@.len() - s,
    {
        let used: usize = counts[s];
        if used > 0 {
            let mut p: usize = 0;
            while p < order.len() && counts[order[p] as usize] >= used
                invariant
                    p <= order@.len(),
                    s < counts@.len(),
                    forall|i: int| 0 <= i < order@.len() ==> (#[trigger] order@[i]) < s,
                    forall|q: int|
                        0 <= q < p ==> counts@[(#[trigger] order@[q]) as int] >= used,
                decreases order@.len() - p,
            {
                p += 1;
            }
            let ghost old_order = order@;
            order.insert(p, s as u8);
            proof {
                old_order.insert_ensures(p as int, s as u8);
                assert forall|i: int, j: int| 0 <= i < j < order@.len() implies comes_before(
                    indices,
                    (#[trigger] order@[i]) as int,
                    (#[trigger] order@[j]) as int,
                ) && order@[i] != order@[j] by {
                    let a = if i < p {
                        i
                    } else {
                        i - 1
                    };
                    let b = if j < p {
                        j
                    } else {
                        j - 1
                    };
                    if i == p {
                        assert(order@[j] == old_order[b]);
                        assert(comes_before(
                            indices,
                            old_order[p as int] as int,
                            old_order[b] as int,
                        ) || b == p);
                    } else if j == p {
                        assert(order@[i] == old_order[a]);
                    } else {
                        assert(order@[i] == old_order[a]);
                        assert(order@[j] == old_order[b]);
                    }
                }
                assert forall|t: int| 0 <= t < s + 1 && #[trigger] usage(indices, t) > 0 implies exists|
                    i: int,
                | 0 <= i < order@.len() && #[trigger] order@[i] == t by {
                    if t == s {
                        assert(order@[p as int] == t);
                    } else {
                        let q = choose|q: int| 0 <= q < old_order.len() && #[trigger] old_order[q] == t;
                        if q < p {
                            assert(order@[q] == t);
                        } else {
                            assert(order@[q + 1] == t);
                        }
                    }
                }
                assert forall|i: int| 0 <= i < order@.len() implies (#[trigger] order@[i]) < s + 1
                    && usage(indices, order@[i] as int) > 0 by {
                    if i < p {
                        assert(order@[i] == old_order[i]);
                    } else if i > p {
                        assert(order@[i] == old_order[i - 1]);
                    }
                }
            }
        }
        s += 1;
    }
    order
}

/// Puts the first fully transparent entry that `order` names at the end, if it names one, and
/// says whether it did.
fn move_transparent_last(order: &mut Vec<u8>, palette: &[RGBA], Ghost(indices): Ghost<Seq<u8>>) -> (moved:
    bool)
    requires
        names_used_entries(old(order)@, indices, palette@.len() as int),
        ordered_by_usage(old(order)@, indices),
    ensures
        names_used_entries(final(order)@, indices, palette@.len() as int),
        final(order)@.len() == old(order)@.len(),
        moved == uses_transparent(palette@, indices),
        !moved ==> final(order)@ == old(order)@,
        moved ==> {
            let in_order = final(order)@.len() - 1;
            &&& final(order)@.len() > 0
            &&& ordered_by_usage(final(order)@.take(in_order), indices)
            &&& palette@[final(order)@.last() as int].a == 0
            &&& forall|i: int|
                0 <= i < in_order && palette@[(#[trigger] final(order)@[i]) as int].a == 0
                    ==> comes_before(indices, final(order)@.last() as int, final(order)@[i] as int)
        },
{
    let mut p: usize = 0;
    while p < order.len() && palette[order[p] as usize].a != 0
        invariant
            p <= order@.len(),
            order@ == old(order)@,
            forall|i: int| 0 <= i < order@.len() ==> (#[trigger] order@[i]) < palette@.len(),
            forall|q: int| 0 <= q < p ==> palette@[(#[trigger] order@[q]) as int].a != 0,
        decreases order@.len() - p,
    {
        p += 1;
    }
    if p == order.len() {
        proof {
            if uses_transparent(palette@, indices) {
                let s = choose|s: int|
                    0 <= s < palette@.len() && #[trigger] usage(indices, s) > 0 && palette@[s].a
                        == 0;
                let i = choose|i: int| 0 <= i < order@.len() && #[trigger] order@[i] == s;
                assert(palette@[order@[i] as int].a != 0);
            }
        }
        return false;
    }
    let ghost before = order@;
    let slot: u8 = order.remove(p);
    let ghost without = order@;
    order.push(slot);
    proof {
        before.remove_ensures(p as int);
        let after = order@;
        let n = after.len() - 1;
        assert(after.take(n) =~= without);
        assert(usage(indices, slot as int) > 0);
        assert forall|i: int, j: int| 0 <= i < j < without.len() implies comes_before(
            indices,
            (#[trigger] without[i]) as int,
            (#[trigger] without[j]) as int,
        ) && without[i] != without[j] by {
            let a = if i < p {
                i
            } else {
                i + 1
            };
            let b = if j < p {
                j
            } else {
                j + 1
            };
            assert(without[i] == before[a]);
            assert(without[j] == before[b]);
        }
        assert forall|i: int| 0 <= i < n && palette@[(#[trigger] after[i]) as int].a
            == 0 implies comes_before(indices, after.last() as int, after[i] as int) by {
            let a = if i < p {
                i
            } else {
                i + 1
            };
            assert(after[i] == without[i]);
            assert(without[i] == before[a]);
            assert(a > p);
        }
        assert forall|i: int, j: int| 0 <= i < j < after.len() implies (#[trigger] after[i]) != (
        #[trigger] after[j]) by {
            let a = if i < p {
                i
            } else {
                i + 1
            };
            if j < n {
                assert(after[i] == without[i] && after[j] == without[j]);
            } else {
                assert(after[i] == without[i]);
                assert(without[i] == before[a]);
            }
        }
        assert forall|i: int| 0 <= i < after.len() implies (#[trigger] after[i]) < palette@.len()
            && usage(indices, after[i] as int) > 0 by {
            let a = if i < p {
                i
            } else {
                i + 1
            };
            if i < n {
                assert(after[i] == without[i]);
                assert(without[i] == before[a]);
            }
        }
        assert forall|s: int|
            0 <= s < palette@.len() && #[trigger] usage(indices, s) > 0 implies exists|i: int|
            0 <= i < after.len() && #[trigger] after[i] == s by {
            let q = choose|q: int| 0 <= q < before.len() && #[trigger] before[q] == s;
            if q < p {
                assert(after[q] == without[q]);
                assert(after[q] == s);
            } else if q == p {
                assert(after[n] == s);
            } else {
                assert(after[q - 1] == without[q - 1]);
                assert(after[q - 1] == s);
            }
        }
        assert(uses_transparent(palette@, indices)) by {
            assert(usage(indices, slot as int) > 0 && palette@[slot as int].a == 0);
        }
    }
    true
}

/// Cuts a palette down to the entries that pixels use, puts them in order of their use and
/// rewrites the indices of the pixels to match. With `last_index_transparent`, a fully
/// transparent entry that is in use is put at the end of the palette.
///
/// Fails with `LIQ_VALUE_OUT_OF_RANGE`, and leaves the indices as they are, when the palette
/// has more than 256 entries or a pixel names an entry that the palette does not have.
pub fn compact_palette(palette: &[RGBA], indices: &mut Vec<u8>, last_index_transparent: bool) -> (r:
    Result<Compacted, liq_error>)
    ensures
        match r {
            Ok(c) => {
                &&& palette@.len() <= MAX_COLORS
                &&& forall|k: int|
                    0 <= k < old(indices)@.len() ==> (#[trigger] old(indices)@[k]) < palette@.len()
                &&& compacted(
                    palette@,
                    old(indices)@,
                    last_index_transparent,
                    c.palette@,
                    c.order@,
                    final(indices)@,
                )
            },
            Err(e) => {
                &&& e == liq_error::LIQ_VALUE_OUT_OF_RANGE
                &&& final(indices)@ == old(indices)@
                &&& palette@.len() > MAX_COLORS || exists|k: int|
                    0 <= k < old(indices)@.len() && #[trigger] old(indices)@[k] >= palette@.len()
            },
        },
{
    let slots: usize = palette.len();
    if slots > MAX_COLORS {
        return Err(liq_error::LIQ_VALUE_OUT_OF_RANGE);
    }
    let counts = match usage_counts(indices, slots) {
        Some(counts) => counts,
        None => {
            return Err(liq_error::LIQ_VALUE_OUT_OF_RANGE);
        },
    };
    let ghost before = indices@;
    let mut order = usage_order(&counts, Ghost(before));
    let moved = if last_index_transparent {
        move_transparent_last(&mut order, palette, Ghost(before))
    } else {
        false
    };
    proof {
        if !moved {
            assert(order@.take(order@.len() as int) =~= order@);
        }
    }
    let mut new_palette: Vec<RGBA> = Vec::new();
    let mut places: Vec<u8> = Vec::new();
    let mut s: usize = 0;
    while s < slots
        invariant
            s <= slots,
            places@.len() == s,
        decreases slots - s,
    {
        places.push(0);
        s += 1;
    }
    let mut i: usize = 0;
    while i < order.len()
        invariant
            i <= order@.len() <= slots <= MAX_COLORS,
            slots == palette@.len(),
            names_used_entries(order@, before, slots as int),
            places@.len() == slots,
            new_palette@.len() == i,
            forall|j: int| 0 <= j < i ==> #[trigger] new_palette@[j] == palette@[order@[j] as int],
            forall|j: int| 0 <= j < i ==> places@[(#[trigger] order@[j]) as int] == j,
        decreases order@.len() - i,
    {
        let slot: usize = order[i] as usize;
        new_palette.push(palette[slot]);
        places.set(slot, i as u8);
        i += 1;
    }
    let mut k: usize = 0;
    while k < indices.len()
        invariant
            k <= indices@.len(),
            indices@.len() == before.len(),
            slots == palette@.len(),
            places@.len() == slots,
            names_used_entries(order@, before, slots as int),
            forall|j: int| 0 <= j < before.len() ==> (#[trigger] before[j]) < slots,
            forall|j: int| 0 <= j < order@.len() ==> places@[(#[trigger] order@[j]) as int] == j,
            forall|j: int|
                0 <= j < k ==> (#[trigger] indices@[j]) < order@.len() && order@[indices@[j] as int]
                    == before[j],
            forall|j: int| k <= j < indices@.len() ==> #[trigger] indices@[j] == before[j],
        decreases indices@.len() - k,
    {
        let slot: usize = indices[k] as usize;
        proof {
            lemma_named_is_used(before, k as int);
            let at = choose|at: int| 0 <= at < order@.len() && #[trigger] order@[at] == slot;
            assert(places@[order@[at] as int] == at);
        }
        let place: u8 = places[slot];
        indices.set(k, place);
        k += 1;
    }
    Ok(Compacted { palette: new_palette, order })
}

/// Every pixel keeps its color when a palette is compacted.
pub proof fn lemma_compacted_keeps_colors(
    palette: Seq<RGBA>,
    indices: Seq<u8>,
    last_index_transparent: bool,
    new_palette: Seq<RGBA>,
    order: Seq<u8>,
    new_indices: Seq<u8>,
    k: int,
)
    requires
        compacted(palette, indices, last_index_transparent, new_palette, order, new_indices),
        0 <= k < indices.len(),
    ensures
        new_indices[k] < new_palette.len(),
        new_palette[new_indices[k] as int] == palette[indices[k] as int],
{
}

/// Where `last_index_transparent` is set and a pixel has a fully transparent color, the last
/// entry of the compacted palette is fully transparent, and the pixels that had that entry
/// before are the pixels that have the last index now.
pub proof fn lemma_transparent_is_last(
    palette: Seq<RGBA>,
    indices: Seq<u8>,
    new_palette: Seq<RGBA>,
    order: Seq<u8>,
    new_indices: Seq<u8>,
    pixel: int,
)
    requires
        compacted(palette, indices, true, new_palette, order, new_indices),
        0 <= pixel < indices.len(),
        indices[pixel] < palette.len(),
        palette[indices[pixel] as int].a == 0,
    ensures
        new_palette.len() > 0,
        new_palette.last().a == 0,
        forall|k: int|
            0 <= k < indices.len() ==> (#[trigger] new_indices[k] == new_palette.len() - 1
                <==> indices[k] == order.last()),
{
    lemma_named_is_used(indices, pixel);
    assert(usage(indices, indices[pixel] as int) > 0);
    assert(uses_transparent(palette, indices));
    assert forall|k: int| 0 <= k < indices.len() implies (#[trigger] new_indices[k]
        == new_palette.len() - 1 <==> indices[k] == order.last()) by {
        assert(order[new_indices[k] as int] == indices[k]);
    }
}

/// A compacted palette has no entry that no pixel uses: each entry is used by as many pixels
/// as used the entry that it was before.
pub proof fn lemma_compacted_usage(
    palette: Seq<RGBA>,
    indices: Seq<u8>,
    last_index_transparent: bool,
    new_palette: Seq<RGBA>,
    order: Seq<u8>,
    new_indices: Seq<u8>,
    i: int,
)
    requires
        compacted(palette, indices, last_index_transparent, new_palette, order, new_indices),
        0 <= i < new_palette.len(),
    ensures
        usage(new_indices, i) == usage(indices, order[i] as int),
        usage(new_indices, i) > 0,
{
    lemma_same_usage(indices, new_indices, order, i, indices.len() as int);
    assert(indices.take(indices.len() as int) =~= indices);
    assert(new_indices.take(indices.len() as int) =~= new_indices);
}

/// A palette that is compacted for an image with pixels has at least one entry and no more
/// entries than it had.
pub proof fn lemma_compacted_size(
    palette: Seq<RGBA>,
    indices: Seq<u8>,
    last_index_transparent: bool,
    new_palette: Seq<RGBA>,
    order: Seq<u8>,
    new_indices: Seq<u8>,
)
    requires
        compacted(palette, indices, last_index_transparent, new_palette, order, new_indices),
    ensures
        indices.len() > 0 ==> new_palette.len() >= 1,
        new_palette.len() <= palette.len(),
        new_palette.len() <= indices.len(),
{
    if indices.len() > 0 {
        assert(new_indices[0] < order.len());
    }
    lemma_distinct_below(order, palette.len() as int);
    lemma_entries_have_pixels(indices, order);
}

/// No entry is used by more pixels than there are.
pub proof fn lemma_usage_bound(indices: Seq<u8>, slot: int)
    ensures
        usage(indices, slot) <= indices.len(),
    decreases indices.len(),
{
    if indices.len() > 0 {
        lemma_usage_bound(indices.drop_last(), slot);
    }
}

/// An entry that a pixel names is in use.
pub proof fn lemma_named_is_used(indices: Seq<u8>, k: int)
    requires
        0 <= k < indices.len(),
    ensures
        usage(indices, indices[k] as int) > 0,
    decreases indices.len(),
{
    if k < indices.len() - 1 {
        lemma_named_is_used(indices.drop_last(), k);
    }
}

/// An entry in use is named by some pixel.
pub proof fn lemma_used_is_named(indices: Seq<u8>, slot: int) -> (k: int)
    requires
        usage(indices, slot) > 0,
    ensures
        0 <= k < indices.len(),
        indices[k] == slot,
    decreases indices.len(),
{
    if indices.last() == slot {
        indices.len() - 1
    } else {
        lemma_used_is_named(indices.drop_last(), slot)
    }
}

/// Among the first `n` pixels, as many have the new index `i` as had the entry that `i` names.
proof fn lemma_same_usage(indices: Seq<u8>, new_indices: Seq<u8>, order: Seq<u8>, i: int, n: int)
    requires
        new_indices.len() == indices.len(),
        0 <= n <= indices.len(),
        0 <= i < order.len(),
        forall|k: int|
            0 <= k < indices.len() ==> (#[trigger] new_indices[k]) < order.len() && order[new_indices[k] as int]
                == indices[k],
        forall|a: int, b: int|
            0 <= a < b < order.len() ==> (#[trigger] order[a]) != (#[trigger] order[b]),
    ensures
        usage(new_indices.take(n), i) == usage(indices.take(n), order[i] as int),
    decreases n,
{
    if n > 0 {
        lemma_same_usage(indices, new_indices, order, i, n - 1);
        assert(indices.take(n).drop_last() =~= indices.take(n - 1));
        assert(new_indices.take(n).drop_last() =~= new_indices.take(n - 1));
        let k = n - 1;
        assert(order[new_indices[k] as int] == indices[k]);
        if new_indices[k] != i {
            let a = new_indices[k] as int;
            if a < i {
                assert(order[a] != order[i]);
            } else {
                assert(order[i] != order[a]);
            }
        }
    }
}

/// A run of distinct numbers below `bound` is no longer than `bound`.
proof fn lemma_distinct_below(order: Seq<u8>, bound: int)
    requires
        bound >= 0,
        forall|i: int| 0 <= i < order.len() ==> (#[trigger] order[i]) < bound,
        forall|a: int, b: int|
            0 <= a < b < order.len() ==> (#[trigger] order[a]) != (#[trigger] order[b]),
    ensures
        order.len() <= bound,
    decreases bound,
{
    if order.len() > 0 {
        if bound == 0 {
            assert(order[0] < bound);
        } else {
            // take out the entry that is bound - 1, if there is one
            if exists|i: int| 0 <= i < order.len() && #[trigger] order[i] == bound - 1 {
                let p = choose|i: int| 0 <= i < order.len() && #[trigger] order[i] == bound - 1;
                let rest = order.remove(p);
                order.remove_ensures(p);
                assert forall|i: int| 0 <= i < rest.len() implies (#[trigger] rest[i]) < bound
                    - 1 by {
                    let a = if i < p {
                        i
                    } else {
                        i + 1
                    };
                    assert(rest[i] == order[a]);
                    if a < p {
                        assert(order[a] != order[p]);
                    } else {
                        assert(order[p] != order[a]);
                    }
                }
                assert forall|a: int, b: int| 0 <= a < b < rest.len() implies (#[trigger] rest[a])
                    != (#[trigger] rest[b]) by {
                    let a2 = if a < p {
                        a
                    } else {
                        a + 1
                    };
                    let b2 = if b < p {
                        b
                    } else {
                        b + 1
                    };
                    assert(rest[a] == order[a2] && rest[b] == order[b2]);
                }
                lemma_distinct_below(rest, bound - 1);
            } else {
                assert forall|i: int| 0 <= i < order.len() implies (#[trigger] order[i]) < bound
                    - 1 by {
                    assert(order[i] != bound - 1);
                }
                lemma_distinct_below(order, bound - 1);
            }
        }
    }
}

/// Distinct entries that are all in use are used by at least as many pixels as there are
/// entries.
proof fn lemma_entries_have_pixels(indices: Seq<u8>, order: Seq<u8>)
    requires
        forall|i: int| 0 <= i < order.len() ==> usage(indices, (#[trigger] order[i]) as int) > 0,
        forall|a: int, b: int|
            0 <= a < b < order.len() ==> (#[trigger] order[a]) != (#[trigger] order[b]),
    ensures
        order.len() <= indices.len(),
    decreases indices.len(),
{
    if order.len() > 0 {
        if indices.len() == 0 {
            assert(usage(indices, order[0] as int) > 0);
        } else {
            let last = indices.last();
            let front = indices.drop_last();
            // entries other than the one the last pixel names are in use among the others
            if exists|i: int| 0 <= i < order.len() && #[trigger] order[i] == last {
                let p = choose|i: int| 0 <= i < order.len() && #[trigger] order[i] == last;
                let rest = order.remove(p);
                order.remove_ensures(p);
                assert forall|i: int| 0 <= i < rest.len() implies usage(
                    front,
                    (#[trigger] rest[i]) as int,
                ) > 0 by {
                    let a = if i < p {
                        i
                    } else {
                        i + 1
                    };
                    assert(rest[i] == order[a]);
                    if a < p {
                        assert(order[a] != order[p]);
                    } else {
                        assert(order[p] != order[a]);
                    }
                    assert(usage(indices, order[a] as int) > 0);
                }
                assert forall|a: int, b: int| 0 <= a < b < rest.len() implies (#[trigger] rest[a])
                    != (#[trigger] rest[b]) by {
                    let a2 = if a < p {
                        a
                    } else {
                        a + 1
                    };
                    let b2 = if b < p {
                        b
                    } else {
                        b + 1
                    };
                    assert(rest[a] == order[a2] && rest[b] == order[b2]);
                }
                lemma_entries_have_pixels(front, rest);
            } else {
                assert forall|i: int| 0 <= i < order.len() implies usage(
                    front,
                    (#[trigger] order[i]) as int,
                ) > 0 by {
                    assert(order[i] != last);
                    assert(usage(indices, order[i] as int) > 0);
                }
                lemma_entries_have_pixels(front, order);
            }
        }
    }
}

/// Compacting has one result: whatever else meets the description of [`compacted`] for the
/// same palette and indices is the same palette, in the same order, with the same indices.
pub proof fn lemma_compacted_is_determined(
    palette: Seq<RGBA>,
    indices: Seq<u8>,
    last_index_transparent: bool,
    new_palette: Seq<RGBA>,
    order: Seq<u8>,
    new_indices: Seq<u8>,
    other_palette: Seq<RGBA>,
    other_order: Seq<u8>,
    other_indices: Seq<u8>,
)
    requires
        compacted(palette, indices, last_index_transparent, new_palette, order, new_indices),
        compacted(
            palette,
            indices,
            last_index_transparent,
            other_palette,
            other_order,
            other_indices,
        ),
    ensures
        order == other_order,
        new_palette == other_palette,
        new_indices == other_indices,
{
    let moved = last_index_transparent && uses_transparent(palette, indices);
    if moved {
        let m = order.len() - 1;
        let n = other_order.len() - 1;
        let a = order.take(m);
        let b = other_order.take(n);
        // the entry at the end is the same
        let j = choose|j: int| 0 <= j < other_order.len() && #[trigger] other_order[j] == order.last();
        let i = choose|i: int| 0 <= i < order.len() && #[trigger] order[i] == other_order.last();
        if j < n && i < m {
            assert(comes_before(indices, other_order.last() as int, other_order[j] as int));
            assert(comes_before(indices, order.last() as int, order[i] as int));
        }
        assert(order.last() == other_order.last());
        // and so are the entries before it
        assert forall|x: int| 0 <= x < a.len() implies names(b, #[trigger] a[x]) by {
            assert(a[x] == order[x]);
            let y = choose|y: int| 0 <= y < other_order.len() && #[trigger] other_order[y] == order[x];
            assert(order[x] != order[m]);
            assert(b[y] == a[x]);
        }
        assert forall|y: int| 0 <= y < b.len() implies names(a, #[trigger] b[y]) by {
            assert(b[y] == other_order[y]);
            let x = choose|x: int| 0 <= x < order.len() && #[trigger] order[x] == other_order[y];
            assert(other_order[y] != other_order[n]);
            assert(a[x] == b[y]);
        }
        lemma_one_order(a, b, indices);
        assert(order =~= a.push(order.last()));
        assert(other_order =~= b.push(other_order.last()));
    } else {
        assert(order.take(order.len() as int) =~= order);
        assert(other_order.take(other_order.len() as int) =~= other_order);
        assert forall|x: int| 0 <= x < order.len() implies names(
            other_order,
            #[trigger] order[x],
        ) by {
            let y = choose|y: int| 0 <= y < other_order.len() && #[trigger] other_order[y] == order[x];
        }
        assert forall|y: int| 0 <= y < other_order.len() implies names(
            order,
            #[trigger] other_order[y],
        ) by {
            let x = choose|x: int| 0 <= x < order.len() && #[trigger] order[x] == other_order[y];
        }
        lemma_one_order(order, other_order, indices);
    }
    assert(new_palette =~= other_palette);
    assert forall|k: int| 0 <= k < indices.len() implies new_indices[k] == other_indices[k] by {
        let x = new_indices[k] as int;
        let y = other_indices[k] as int;
        assert(order[x] == indices[k] && order[y] == indices[k]);
        if x < y {
            assert(order[x] != order[y]);
        } else if y < x {
            assert(order[y] != order[x]);
        }
    }
    assert(new_indices =~= other_indices);
}

/// Whether `order` names entry `slot`.
spec fn names(order: Seq<u8>, slot: u8) -> bool {
    exists|i: int| 0 <= i < order.len() && #[trigger] order[i] == slot
}

/// Entries can be put in order of their use in one way only.
proof fn lemma_one_order(a: Seq<u8>, b: Seq<u8>, indices: Seq<u8>)
    requires
        ordered_by_usage(a, indices),
        ordered_by_usage(b, indices),
        forall|x: int| 0 <= x < a.len() ==> names(b, #[trigger] a[x]),
        forall|y: int| 0 <= y < b.len() ==> names(a, #[trigger] b[y]),
    ensures
        a == b,
    decreases a.len(),
{
    if a.len() == 0 {
        if b.len() > 0 {
            assert(names(a, b[0]));
        }
        assert(a =~= b);
    } else {
        assert(names(b, a[0]));
        let y0 = choose|y: int| 0 <= y < b.len() && #[trigger] b[y] == a[0];
        assert(names(a, b[0]));
        let x0 = choose|x: int| 0 <= x < a.len() && #[trigger] a[x] == b[0];
        if y0 > 0 && x0 > 0 {
            assert(comes_before(indices, b[0] as int, b[y0] as int));
            assert(comes_before(indices, a[0] as int, a[x0] as int));
        }
        if y0 > 0 && x0 == 0 {
            assert(comes_before(indices, b[0] as int, b[y0] as int));
        }
        if x0 > 0 && y0 == 0 {
            assert(comes_before(indices, a[0] as int, a[x0] as int));
        }
        assert(a[0] == b[0]);
        let ta = a.drop_first();
        let tb = b.drop_first();
        assert forall|i: int, j: int| 0 <= i < j < ta.len() implies comes_before(
            indices,
            (#[trigger] ta[i]) as int,
            (#[trigger] ta[j]) as int,
        ) by {
            assert(ta[i] == a[i + 1] && ta[j] == a[j + 1]);
        }
        assert forall|i: int, j: int| 0 <= i < j < tb.len() implies comes_before(
            indices,
            (#[trigger] tb[i]) as int,
            (#[trigger] tb[j]) as int,
        ) by {
            assert(tb[i] == b[i + 1] && tb[j] == b[j + 1]);
        }
        assert forall|x: int| 0 <= x < ta.len() implies names(tb, #[trigger] ta[x]) by {
            assert(ta[x] == a[x + 1]);
            assert(names(b, a[x + 1]));
            let y = choose|y: int| 0 <= y < b.len() && #[trigger] b[y] == a[x + 1];
            assert(comes_before(indices, a[0] as int, a[x + 1] as int));
            assert(y > 0);
            assert(tb[y - 1] == ta[x]);
        }
        assert forall|y: int| 0 <= y < tb.len() implies names(ta, #[trigger] tb[y]) by {
            assert(tb[y] == b[y + 1]);
            assert(names(a, b[y + 1]));
            let x = choose|x: int| 0 <= x < a.len() && #[trigger] a[x] == b[y + 1];
            assert(comes_before(indices, b[0] as int, b[y + 1] as int));
            assert(x > 0);
            assert(ta[x - 1] == tb[y]);
        }
        lemma_one_order(ta, tb, indices);
        assert(a =~= seq![a[0]] + ta);
        assert(b =~= seq![b[0]] + tb);
    }
}

} // verus!
