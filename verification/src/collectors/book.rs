//! One side of an order book: price levels, diffs, depth.
//!
//! Prices and quantities are binary64 bit patterns. A level is found by the bits
//! of its price; levels are ordered by the total order on binary64 numbers.

use crate::sorting;
use std::collections::HashMap;
use vstd::prelude::*;

verus! {

broadcast use vstd::std_specs::hash::group_hash_axioms;

/// The bit pattern of negative zero: the sign bit alone.
pub const SIGN_BIT: u64 = 0x8000_0000_0000_0000;

/// The pattern is a zero, of either sign.
pub open spec fn is_zero(quantity: u64) -> bool {
    quantity == 0 || quantity == SIGN_BIT
}

/// Where a price stands in the total order on binary64 numbers: patterns without
/// the sign bit count upwards from zero, patterns with it downwards from minus
/// one.
pub open spec fn price_rank(price: u64) -> int {
    if price < SIGN_BIT {
        price as int
    } else {
        SIGN_BIT - 1 - price
    }
}

/// The rank as an unsigned key.
pub fn price_key(price: u64) -> (r: u64)
    ensures
        r == price_rank(price) + SIGN_BIT,
{
    if price < SIGN_BIT {
        price + SIGN_BIT
    } else {
        0xffff_ffff_ffff_ffff - price
    }
}

/// Different patterns have different ranks: the order leaves no ties.
pub proof fn price_rank_is_injective(a: u64, b: u64)
    ensures
        price_rank(a) == price_rank(b) ==> a == b,
{
}

/// `a` is the better price: the higher one among bids, the lower one among asks.
pub open spec fn better_price(bids: bool, a: u64, b: u64) -> bool {
    if bids {
        price_rank(a) > price_rank(b)
    } else {
        price_rank(a) < price_rank(b)
    }
}

/// A side after one level `(price, quantity)`: zero deletes the price, any other
/// quantity replaces what was there.
pub open spec fn set_level(side: Map<u64, u64>, level: (u64, u64)) -> Map<u64, u64> {
    if is_zero(level.1) {
        side.remove(level.0)
    } else {
        side.insert(level.0, level.1)
    }
}

/// A side after a list of levels, in their order.
pub open spec fn set_levels(side: Map<u64, u64>, levels: Seq<(u64, u64)>) -> Map<u64, u64>
    decreases levels.len(),
{
    if levels.len() == 0 {
        side
    } else {
        set_level(set_levels(side, levels.drop_last()), levels.last())
    }
}

/// The levels up to the first that could not be read.
pub open spec fn readable_prefix(values: Seq<Option<(u64, u64)>>) -> Seq<(u64, u64)>
    decreases values.len(),
{
    if values.len() == 0 {
        seq![]
    } else {
        let front = readable_prefix(values.drop_last());
        match values.last() {
            Some(level) if front.len() == values.len() - 1 => front.push(level),
            _ => front,
        }
    }
}

/// Every level could be read.
pub open spec fn all_readable(values: Seq<Option<(u64, u64)>>) -> bool {
    forall|i: int| 0 <= i < values.len() ==> (#[trigger] values[i]) is Some
}

/// `readable_prefix` reaches the end exactly when every level could be read.
pub proof fn lemma_readable_prefix(values: Seq<Option<(u64, u64)>>)
    ensures
        readable_prefix(values).len() <= values.len(),
        all_readable(values) <==> readable_prefix(values).len() == values.len(),
    decreases values.len(),
{
    if values.len() > 0 {
        let front = values.drop_last();
        lemma_readable_prefix(front);
        if all_readable(values) {
            assert forall|i: int| 0 <= i < front.len() implies (#[trigger] front[i]) is Some by {
                assert(values[i] is Some);
            }
            assert(values[values.len() - 1] is Some);
        }
        if readable_prefix(values).len() == values.len() {
            assert forall|i: int| 0 <= i < values.len() implies (#[trigger] values[i]) is Some by {
                if i < front.len() {
                    assert(front[i] is Some);
                }
            }
        }
    }
}

/// `after` is what `before` becomes by levels that replace one another: a price holds the
/// quantity of the last level that has it, or nothing where that is a zero of either sign;
/// a price that no level has keeps what it held.
pub open spec fn replaces(
    before: Map<u64, u64>,
    levels: Seq<(u64, u64)>,
    after: Map<u64, u64>,
) -> bool {
    &&& forall|k: int|
        0 <= k < levels.len() && (forall|m: int|
            k < m < levels.len() ==> (#[trigger] levels[m]).0 != levels[k].0) ==> {
            let (price, quantity) = #[trigger] levels[k];
            if quantity == 0 || quantity == 0x8000_0000_0000_0000u64 {
                !after.contains_key(price)
            } else {
                after.contains_key(price) && after[price] == quantity
            }
        }
    &&& forall|price: u64|
        (forall|k: int| 0 <= k < levels.len() ==> (#[trigger] levels[k]).0 != price) ==> {
            &&& #[trigger] after.contains_key(price) == before.contains_key(price)
            &&& before.contains_key(price) ==> after[price] == before[price]
        }
}

/// Levels replace one another: the last level that has a price decides it, and other
/// prices stay as they are.
pub proof fn levels_replace_one_another(side: Map<u64, u64>, levels: Seq<(u64, u64)>)
    ensures
        replaces(side, levels, set_levels(side, levels)),
{
    let after = set_levels(side, levels);
    assert forall|k: int|
        0 <= k < levels.len() && (forall|m: int|
            k < m < levels.len() ==> (#[trigger] levels[m]).0 != levels[k].0) implies ({
        let (price, quantity) = #[trigger] levels[k];
        if quantity == 0 || quantity == 0x8000_0000_0000_0000u64 {
            !after.contains_key(price)
        } else {
            after.contains_key(price) && after[price] == quantity
        }
    }) by {
        lemma_last_mention(side, levels, k);
    }
    assert forall|price: u64|
        (forall|k: int| 0 <= k < levels.len() ==> (#[trigger] levels[k]).0 != price) implies {
        &&& #[trigger] after.contains_key(price) == side.contains_key(price)
        &&& side.contains_key(price) ==> after[price] == side[price]
    } by {
        lemma_no_mention(side, levels, price);
    }
}

proof fn lemma_last_mention(side: Map<u64, u64>, levels: Seq<(u64, u64)>, k: int)
    requires
        0 <= k < levels.len(),
        forall|m: int| k < m < levels.len() ==> (#[trigger] levels[m]).0 != levels[k].0,
    ensures
        ({
            let after = set_levels(side, levels);
            let (price, quantity) = levels[k];
            if quantity == 0 || quantity == 0x8000_0000_0000_0000u64 {
                !after.contains_key(price)
            } else {
                after.contains_key(price) && after[price] == quantity
            }
        }),
    decreases levels.len(),
{
    if k < levels.len() - 1 {
        let front = levels.drop_last();
        assert forall|m: int| k < m < front.len() implies (#[trigger] front[m]).0 != front[k].0 by {
            assert(front[m] == levels[m]);
        }
        lemma_last_mention(side, front, k);
        assert(levels[levels.len() - 1].0 != levels[k].0);
    }
}

proof fn lemma_no_mention(side: Map<u64, u64>, levels: Seq<(u64, u64)>, price: u64)
    requires
        forall|k: int| 0 <= k < levels.len() ==> (#[trigger] levels[k]).0 != price,
    ensures
        set_levels(side, levels).contains_key(price) == side.contains_key(price),
        side.contains_key(price) ==> set_levels(side, levels)[price] == side[price],
    decreases levels.len(),
{
    if levels.len() > 0 {
        let front = levels.drop_last();
        assert forall|k: int| 0 <= k < front.len() implies (#[trigger] front[k]).0 != price by {
            assert(front[k] == levels[k]);
        }
        lemma_no_mention(side, front, price);
        assert(levels[levels.len() - 1].0 != price);
    }
}

/// Levels are read as they came, up to the first that could not be read.
pub proof fn reading_stops_at_the_first_bad_level(values: Seq<Option<(u64, u64)>>, n: int)
    requires
        0 <= n <= values.len(),
        forall|i: int| 0 <= i < n ==> (#[trigger] values[i]) is Some,
        n < values.len() ==> values[n] is None,
    ensures
        readable_prefix(values).len() == n,
        forall|i: int| 0 <= i < n ==> values[i] == Some(#[trigger] readable_prefix(values)[i]),
        all_readable(values) <==> n == values.len(),
    decreases values.len(),
{
    if values.len() > 0 {
        let front = values.drop_last();
        assert forall|i: int| 0 <= i < n && i < front.len() implies (#[trigger] front[i]) is Some by {
            assert(front[i] == values[i]);
        }
        if n < values.len() {
            if n < front.len() {
                assert(front[n] is None);
            }
            reading_stops_at_the_first_bad_level(front, n);
            assert(!all_readable(values));
        } else {
            reading_stops_at_the_first_bad_level(front, n - 1);
            assert(values[n - 1] is Some);
            assert forall|i: int| 0 <= i < n implies values[i] == Some(
                #[trigger] readable_prefix(values)[i],
            ) by {
                if i < n - 1 {
                    assert(front[i] == Some(readable_prefix(front)[i]));
                }
            }
        }
    }
}

/// Applies levels to a side.
pub fn apply_levels(side: &mut HashMap<u64, u64>, levels: &Vec<(u64, u64)>)
    ensures
        final(side)@ == set_levels(old(side)@, levels@),
        replaces(old(side)@, levels@, final(side)@),
{
    let mut i: usize = 0;
    assert(levels@.take(0) =~= seq![]);
    while i < levels.len()
        invariant
            i <= levels.len(),
            side@ == set_levels(old(side)@, levels@.take(i as int)),
        decreases levels.len() - i,
    {
        let price: u64 = levels[i].0;
        let quantity: u64 = levels[i].1;
        if quantity == 0 || quantity == SIGN_BIT {
            side.remove(&price);
        } else {
            side.insert(price, quantity);
        }
        assert(levels@.take(i + 1).drop_last() =~= levels@.take(i as int));
        i = i + 1;
    }
    assert(levels@.take(levels.len() as int) =~= levels@);
    proof {
        levels_replace_one_another(old(side)@, levels@);
    }
}

/// Applies levels to a side up to the first that could not be read, and says
/// whether there was none.
pub fn apply_values(side: &mut HashMap<u64, u64>, values: &Vec<Option<(u64, u64)>>) -> (r: bool)
    ensures
        r == all_readable(values@),
        final(side)@ == set_levels(old(side)@, readable_prefix(values@)),
{
    let mut i: usize = 0;
    assert(values@.take(0) =~= seq![]);
    while i < values.len()
        invariant
            i <= values.len(),
            readable_prefix(values@.take(i as int)).len() == i,
            side@ == set_levels(old(side)@, readable_prefix(values@.take(i as int))),
        decreases values.len() - i,
    {
        let ghost seen = values@.take(i + 1);
        assert(seen.drop_last() =~= values@.take(i as int));
        match values[i] {
            Some((price, quantity)) => {
                if quantity == 0 || quantity == SIGN_BIT {
                    side.remove(&price);
                } else {
                    side.insert(price, quantity);
                }
                assert(readable_prefix(seen).drop_last() =~= readable_prefix(
                    values@.take(i as int),
                ));
            },
            None => {
                proof {
                    lemma_prefix_stops(values@, i as int);
                    assert(values@[i as int] is None);
                }
                return false;
            },
        }
        i = i + 1;
    }
    assert(values@.take(values.len() as int) =~= values@);
    proof {
        lemma_readable_prefix(values@);
    }
    true
}

/// Levels from an unreadable one on do not matter.
proof fn lemma_prefix_stops(values: Seq<Option<(u64, u64)>>, n: int)
    requires
        0 <= n < values.len(),
        values[n] is None,
        readable_prefix(values.take(n)).len() == n,
    ensures
        readable_prefix(values) == readable_prefix(values.take(n)),
    decreases values.len(),
{
    let front = values.drop_last();
    if n == values.len() - 1 {
        assert(front =~= values.take(n));
    } else {
        assert(front.take(n) =~= values.take(n));
        lemma_prefix_stops(front, n);
    }
}

/// The quantity that a list of levels leaves at a price it mentions: that of the
/// last mention.
pub open spec fn last_quantity(levels: Seq<(u64, u64)>, price: u64) -> Option<u64>
    decreases levels.len(),
{
    if levels.len() == 0 {
        None
    } else if levels.last().0 == price {
        Some(levels.last().1)
    } else {
        last_quantity(levels.drop_last(), price)
    }
}

/// Quantities are absolute. A price that the levels mention holds the quantity of
/// its last mention afterwards, or nothing when that is zero, whatever the side
/// held before; a price that they do not mention keeps what it held.
pub proof fn levels_are_absolute(side: Map<u64, u64>, levels: Seq<(u64, u64)>, price: u64)
    ensures
        match last_quantity(levels, price) {
            Some(quantity) => {
                &&& is_zero(quantity) ==> !set_levels(side, levels).contains_key(price)
                &&& !is_zero(quantity) ==> set_levels(side, levels).contains_key(price)
                    && set_levels(side, levels)[price] == quantity
            },
            None => {
                &&& set_levels(side, levels).contains_key(price) == side.contains_key(price)
                &&& side.contains_key(price) ==> set_levels(side, levels)[price] == side[price]
            },
        },
    decreases levels.len(),
{
    if levels.len() > 0 {
        levels_are_absolute(side, levels.drop_last(), price);
    }
}

/// A side heals: after the same levels, two sides agree on every price that the
/// levels mention, however far apart they were.
pub proof fn mentioned_prices_agree(
    a: Map<u64, u64>,
    b: Map<u64, u64>,
    levels: Seq<(u64, u64)>,
    price: u64,
)
    requires
        last_quantity(levels, price) is Some,
    ensures
        set_levels(a, levels).contains_key(price) == set_levels(b, levels).contains_key(price),
        set_levels(a, levels).contains_key(price) ==> set_levels(a, levels)[price] == set_levels(
            b,
            levels,
        )[price],
{
    levels_are_absolute(a, levels, price);
    levels_are_absolute(b, levels, price);
}

/// Applying the same levels a second time changes nothing.
pub proof fn levels_are_idempotent(side: Map<u64, u64>, levels: Seq<(u64, u64)>)
    ensures
        set_levels(set_levels(side, levels), levels) == set_levels(side, levels),
{
    let once = set_levels(side, levels);
    let twice = set_levels(once, levels);
    assert forall|p: u64|
        #![trigger twice.dom().contains(p)]
        #![trigger once.dom().contains(p)]
        twice.dom().contains(p) == once.dom().contains(p) && (once.dom().contains(p) ==> twice[p]
            == once[p]) by {
        levels_are_absolute(side, levels, p);
        levels_are_absolute(once, levels, p);
    }
    assert(twice =~= once);
}

/// A zero quantity never stays in a side that held none.
pub proof fn no_zero_levels(side: Map<u64, u64>, levels: Seq<(u64, u64)>)
    requires
        forall|p: u64| #[trigger] side.contains_key(p) ==> !is_zero(side[p]),
    ensures
        forall|p: u64| #[trigger]
            set_levels(side, levels).contains_key(p) ==> !is_zero(set_levels(side, levels)[p]),
{
    assert forall|p: u64| #[trigger] set_levels(side, levels).contains_key(p) implies !is_zero(
        set_levels(side, levels)[p],
    ) by {
        levels_are_absolute(side, levels, p);
    }
}

/// `listed` is every level of `side`, best price first.
pub open spec fn lists_side(bids: bool, side: Map<u64, u64>, listed: Seq<(u64, u64)>) -> bool {
    &&& forall|i: int|
        0 <= i < listed.len() ==> side.contains_key((#[trigger] listed[i]).0)
            && side[listed[i].0] == listed[i].1
    &&& forall|p: u64| #[trigger]
        side.contains_key(p) ==> exists|i: int|
            0 <= i < listed.len() && (#[trigger] listed[i]).0 == p
    &&& forall|i: int, j: int|
        0 <= i < j < listed.len() ==> better_price(
            bids,
            (#[trigger] listed[i]).0,
            (#[trigger] listed[j]).0,
        )
}

/// The levels of a side, in no particular order.
fn collect_levels(side: &HashMap<u64, u64>) -> (r: Vec<(u64, u64)>)
    ensures
        forall|i: int|
            0 <= i < r.len() ==> side@.contains_key((#[trigger] r@[i]).0) && side@[r@[i].0]
                == r@[i].1,
        forall|p: u64| #[trigger]
            side@.contains_key(p) ==> exists|i: int| 0 <= i < r.len() && (#[trigger] r@[i]).0 == p,
        forall|i: int, j: int|
            0 <= i < j < r.len() ==> (#[trigger] r@[i]).0 != (#[trigger] r@[j]).0,
{
    let mut out: Vec<(u64, u64)> = Vec::new();
    let entries = side.iter();
    let ghost all = vstd::std_specs::iter::IteratorSpec::remaining(&entries);
    assert(all == vstd::std_specs::iter::IteratorSpec::remaining(
        &vstd::std_specs::hash::spec_hash_map_iter(side),
    ));
    for entry in it: entries
        invariant
            it.seq() == all,
            all.no_duplicates(),
            forall|i: int|
                0 <= i < all.len() ==> side@.contains_key(*(#[trigger] all[i]).0)
                    && side@[*all[i].0] == *all[i].1,
            out.len() == it.index(),
            forall|i: int|
                0 <= i < out.len() ==> (#[trigger] out@[i]).0 == *all[i].0 && out@[i].1
                    == *all[i].1,
    {
        out.push((*entry.0, *entry.1));
    }
    proof {
        assert forall|p: u64| #[trigger] side@.contains_key(p) implies exists|i: int|
            0 <= i < out.len() && (#[trigger] out@[i]).0 == p by {
            assert(all.contains((&p, &side@[p])));
            let i = choose|i: int| 0 <= i < all.len() && all[i] == (&p, &side@[p]);
            assert(out@[i].0 == p);
        }
        assert forall|i: int, j: int| 0 <= i < j < out.len() implies (#[trigger] out@[i]).0 != (
        #[trigger] out@[j]).0 by {
            assert(all[i] != all[j]);
        }
    }
    out
}

/// The levels of a side, best price first.
pub fn best_levels(bids: bool, side: &HashMap<u64, u64>) -> (r: Vec<(u64, u64)>)
    ensures
        lists_side(bids, side@, r@),
{
    let levels: Vec<(u64, u64)> = collect_levels(side);
    let mut keys: Vec<u64> = Vec::new();
    let mut i: usize = 0;
    while i < levels.len()
        invariant
            i <= levels.len(),
            keys.len() == i,
            forall|k: int|
                0 <= k < i ==> #[trigger] keys@[k] == (if bids {
                    SIGN_BIT - 1 - price_rank(levels@[k].0)
                } else {
                    price_rank(levels@[k].0) + SIGN_BIT
                }),
        decreases levels.len() - i,
    {
        let key: u64 = price_key(levels[i].0);
        if bids {
            keys.push(0xffff_ffff_ffff_ffff - key);
        } else {
            keys.push(key);
        }
        i = i + 1;
    }
    let order: Vec<usize> = sorting::stable_order(&keys);
    let mut out: Vec<(u64, u64)> = Vec::new();
    let mut j: usize = 0;
    while j < order.len()
        invariant
            j <= order.len(),
            out.len() == j,
            order.len() == levels.len(),
            forall|k: int| 0 <= k < order.len() ==> (#[trigger] order@[k] as int) < levels.len(),
            forall|k: int| 0 <= k < j ==> #[trigger] out@[k] == levels@[order@[k] as int],
        decreases order.len() - j,
    {
        out.push(levels[order[j]]);
        j = j + 1;
    }
    proof {
        assert forall|x: int, y: int| 0 <= x < y < out.len() implies better_price(
            bids,
            (#[trigger] out@[x]).0,
            (#[trigger] out@[y]).0,
        ) by {
            let a = order@[x];
            let b = order@[y];
            assert(sorting::entry_before((keys@[a as int], a), (keys@[b as int], b)));
            if keys@[a as int] == keys@[b as int] {
                price_rank_is_injective(levels@[a as int].0, levels@[b as int].0);
            }
        }
        assert forall|p: u64| #[trigger] side@.contains_key(p) implies exists|x: int|
            0 <= x < out.len() && (#[trigger] out@[x]).0 == p by {
            let at = choose|at: int| 0 <= at < levels.len() && (#[trigger] levels@[at]).0 == p;
            assert(order@.contains(at as usize));
            let x = choose|x: int| 0 <= x < order.len() && order@[x] == at as usize;
            assert(out@[x].0 == p);
        }
    }
    out
}

/// The prices of a side that are better than `price`.
pub open spec fn better_prices(bids: bool, side: Map<u64, u64>, price: u64) -> Set<u64> {
    side.dom().filter(|p: u64| better_price(bids, p, price))
}

/// The best `depth` levels of a side: those with fewer than `depth` better ones.
pub open spec fn trimmed(bids: bool, depth: nat, side: Map<u64, u64>) -> Map<u64, u64> {
    side.restrict(side.dom().filter(|p: u64| better_prices(bids, side, p).len() < depth))
}

/// A listing names each level once.
proof fn lemma_listing_length(bids: bool, side: Map<u64, u64>, listed: Seq<(u64, u64)>)
    requires
        lists_side(bids, side, listed),
    ensures
        side.dom().finite(),
        side.dom().len() == listed.len(),
{
    let prices = listed.map_values(|l: (u64, u64)| l.0);
    assert forall|i: int, j: int| 0 <= i < j < prices.len() implies prices[i] != prices[j] by {
        assert(better_price(bids, listed[i].0, listed[j].0));
    }
    prices.unique_seq_to_set();
    assert forall|p: u64| side.dom().contains(p) <==> prices.to_set().contains(p) by {
        if side.contains_key(p) {
            let i = choose|i: int| 0 <= i < listed.len() && (#[trigger] listed[i]).0 == p;
            assert(prices[i] == p);
        }
        if prices.to_set().contains(p) {
            let i = choose|i: int| 0 <= i < prices.len() && prices[i] == p;
            assert(listed[i].0 == p);
        }
    }
    assert(side.dom() =~= prices.to_set());
}

/// Ahead of the level at `i` in a listing stand exactly the better prices.
proof fn lemma_better_count(bids: bool, side: Map<u64, u64>, listed: Seq<(u64, u64)>, i: int)
    requires
        lists_side(bids, side, listed),
        0 <= i < listed.len(),
    ensures
        better_prices(bids, side, listed[i].0).len() == i,
{
    let price = listed[i].0;
    let ahead = listed.take(i).map_values(|l: (u64, u64)| l.0);
    assert forall|x: int, y: int| 0 <= x < y < ahead.len() implies ahead[x] != ahead[y] by {
        assert(better_price(bids, listed[x].0, listed[y].0));
    }
    ahead.unique_seq_to_set();
    assert forall|p: u64| better_prices(bids, side, price).contains(p) <==> ahead.to_set().contains(
        p,
    ) by {
        if better_prices(bids, side, price).contains(p) {
            assert(side.contains_key(p));
            let k = choose|k: int| 0 <= k < listed.len() && (#[trigger] listed[k]).0 == p;
            if k > i {
                assert(better_price(bids, listed[i].0, listed[k].0));
            }
            assert(ahead[k] == p);
        }
        if ahead.to_set().contains(p) {
            let k = choose|k: int| 0 <= k < ahead.len() && ahead[k] == p;
            assert(better_price(bids, listed[k].0, listed[i].0));
            assert(side.contains_key(listed[k].0));
        }
    }
    assert(better_prices(bids, side, price) =~= ahead.to_set());
}

/// A side no deeper than `depth` is not changed by trimming.
pub proof fn trimming_within_depth_keeps_everything(bids: bool, depth: nat, side: Map<u64, u64>)
    requires
        side.dom().finite(),
        side.dom().len() <= depth,
    ensures
        trimmed(bids, depth, side) == side,
{
    assert forall|p: u64| side.dom().contains(p) implies better_prices(bids, side, p).len()
        < depth by {
        let others = side.dom().remove(p);
        vstd::set_lib::lemma_len_subset(better_prices(bids, side, p), others);
    }
    assert(trimmed(bids, depth, side) =~= side);
}

/// Trimming a trimmed side again changes nothing.
pub proof fn trimming_is_idempotent(bids: bool, depth: nat, side: Map<u64, u64>)
    requires
        side.dom().finite(),
    ensures
        trimmed(bids, depth, trimmed(bids, depth, side)) == trimmed(bids, depth, side),
{
    let once = trimmed(bids, depth, side);
    assert forall|p: u64| once.dom().contains(p) implies better_prices(bids, once, p).len()
        < depth by {
        assert(better_prices(bids, side, p).len() < depth);
        vstd::set_lib::lemma_len_subset(
            better_prices(bids, once, p),
            better_prices(bids, side, p),
        );
    }
    assert(trimmed(bids, depth, once) =~= once);
}

/// The worst of some prices.
proof fn lemma_worst_price(bids: bool, prices: Set<u64>) -> (worst: u64)
    requires
        prices.finite(),
        prices.len() > 0,
    ensures
        prices.contains(worst),
        forall|p: u64| #[trigger] prices.contains(p) ==> p == worst || better_price(bids, p, worst),
    decreases prices.len(),
{
    let one = prices.choose();
    let rest = prices.remove(one);
    if rest.len() == 0 {
        assert(rest =~= Set::empty());
        assert forall|p: u64| #[trigger] prices.contains(p) implies p == one by {
            assert(!rest.contains(p));
        }
        one
    } else {
        let worst = lemma_worst_price(bids, rest);
        let result = if better_price(bids, worst, one) {
            one
        } else {
            worst
        };
        assert forall|p: u64| #[trigger] prices.contains(p) implies p == result || better_price(
            bids,
            p,
            result,
        ) by {
            price_rank_is_injective(worst, one);
            if p != one {
                assert(rest.contains(p));
            }
        }
        result
    }
}

/// A trimmed side has at most `depth` levels.
pub proof fn trimming_bounds_the_side(bids: bool, depth: nat, side: Map<u64, u64>)
    requires
        side.dom().finite(),
    ensures
        trimmed(bids, depth, side).dom().finite(),
        trimmed(bids, depth, side).dom().len() <= depth,
{
    let kept = trimmed(bids, depth, side).dom();
    assert(kept.subset_of(side.dom()));
    vstd::set_lib::lemma_len_subset(kept, side.dom());
    if kept.len() > 0 {
        let worst = lemma_worst_price(bids, kept);
        let better = better_prices(bids, side, worst);
        assert(kept.remove(worst).subset_of(better));
        vstd::set_lib::lemma_len_subset(kept.remove(worst), better);
    }
}

/// Applying levels to a finite side leaves it finite.
pub proof fn lemma_levels_stay_finite(side: Map<u64, u64>, levels: Seq<(u64, u64)>)
    requires
        side.dom().finite(),
    ensures
        set_levels(side, levels).dom().finite(),
    decreases levels.len(),
{
    if levels.len() > 0 {
        lemma_levels_stay_finite(side, levels.drop_last());
    }
}

/// Every level that trimming keeps is better than every level that it drops, and
/// keeps its quantity.
pub proof fn trimming_keeps_the_best(
    bids: bool,
    depth: nat,
    side: Map<u64, u64>,
    kept: u64,
    dropped: u64,
)
    requires
        side.dom().finite(),
        trimmed(bids, depth, side).contains_key(kept),
        side.contains_key(dropped),
        !trimmed(bids, depth, side).contains_key(dropped),
    ensures
        better_price(bids, kept, dropped),
        side.contains_key(kept),
        trimmed(bids, depth, side)[kept] == side[kept],
{
    price_rank_is_injective(kept, dropped);
    if !better_price(bids, kept, dropped) {
        assert(better_price(bids, dropped, kept));
        vstd::set_lib::lemma_len_subset(
            better_prices(bids, side, dropped),
            better_prices(bids, side, kept),
        );
        assert(better_prices(bids, side, kept).len() < depth);
        assert(trimmed(bids, depth, side).contains_key(dropped));
    }
}

/// The best price of a side survives trimming to any depth but zero, so the touch
/// of the book is never lost.
pub proof fn trimming_keeps_the_touch(bids: bool, depth: nat, side: Map<u64, u64>, best: u64)
    requires
        depth > 0,
        side.contains_key(best),
        forall|p: u64| #[trigger] side.contains_key(p) ==> !better_price(bids, p, best),
    ensures
        trimmed(bids, depth, side).contains_key(best),
{
    assert(better_prices(bids, side, best) =~= Set::empty());
}

/// Keeps the best `depth` levels of a side.
pub fn trim_side(bids: bool, depth: usize, side: &mut HashMap<u64, u64>)
    ensures
        final(side)@ == trimmed(bids, depth as nat, old(side)@),
        final(side)@.dom().len() == (if old(side)@.dom().len() <= depth {
            old(side)@.dom().len()
        } else {
            depth as nat
        }),
{
    if side.len() <= depth {
        proof {
            trimming_within_depth_keeps_everything(bids, depth as nat, side@);
        }
        return;
    }
    let listed: Vec<(u64, u64)> = best_levels(bids, side);
    proof {
        lemma_listing_length(bids, old(side)@, listed@);
    }
    side.clear();
    let mut i: usize = 0;
    while i < depth
        invariant
            i <= depth < listed.len(),
            lists_side(bids, old(side)@, listed@),
            side@.dom().finite(),
            side@.dom().len() == i,
            forall|k: int|
                0 <= k < i ==> side@.dom().contains((#[trigger] listed@[k]).0)
                    && side@[listed@[k].0] == listed@[k].1,
            forall|p: u64| #[trigger]
                side@.dom().contains(p) ==> exists|k: int|
                    0 <= k < i && (#[trigger] listed@[k]).0 == p,
        decreases depth - i,
    {
        let ghost before = side@;
        let price: u64 = listed[i].0;
        assert(!before.dom().contains(price)) by {
            if before.dom().contains(price) {
                let k = choose|k: int| 0 <= k < i && (#[trigger] listed@[k]).0 == price;
                assert(better_price(bids, listed@[k].0, listed@[i as int].0));
            }
        }
        side.insert(price, listed[i].1);
        assert(side@ == before.insert(price, listed@[i as int].1));
        assert forall|p: u64| #[trigger] side@.dom().contains(p) implies exists|k: int|
            0 <= k < i + 1 && (#[trigger] listed@[k]).0 == p by {
            if p == price {
                assert(listed@[i as int].0 == p);
            } else {
                assert(before.dom().contains(p));
                let k = choose|k: int| 0 <= k < i && (#[trigger] listed@[k]).0 == p;
                assert(listed@[k].0 == p);
            }
        }
        i = i + 1;
    }
    proof {
        let before = old(side)@;
        let after = trimmed(bids, depth as nat, before);
        assert forall|p: u64| side@.dom().contains(p) <==> after.dom().contains(p) by {
            if side@.dom().contains(p) {
                let k = choose|k: int| 0 <= k < i && (#[trigger] listed@[k]).0 == p;
                lemma_better_count(bids, before, listed@, k);
                assert(before.contains_key(listed@[k].0));
            }
            if after.dom().contains(p) {
                assert(before.contains_key(p));
                let k = choose|k: int| 0 <= k < listed.len() && (#[trigger] listed@[k]).0 == p;
                lemma_better_count(bids, before, listed@, k);
                assert(side@.dom().contains(listed@[k].0));
            }
        }
        assert forall|p: u64| side@.dom().contains(p) implies side@[p] == after[p] by {
            let k = choose|k: int| 0 <= k < i && (#[trigger] listed@[k]).0 == p;
            assert(side@[listed@[k].0] == listed@[k].1);
            assert(before.contains_key(listed@[k].0) && before[listed@[k].0] == listed@[k].1);
            assert(after.dom().contains(p));
        }
        assert(side@ =~= after);
    }
}

/// Prices are ordered as the numbers whose bit patterns they are: positive ones by their
/// patterns, negative ones against them, and every negative one below every positive one.
pub proof fn ranks_order_as_numbers(a: u64, b: u64)
    ensures
        a < 0x8000_0000_0000_0000 && b < 0x8000_0000_0000_0000 ==> (price_rank(a) < price_rank(b)
            <==> a < b),
        a >= 0x8000_0000_0000_0000 && b >= 0x8000_0000_0000_0000 ==> (price_rank(a) < price_rank(b)
            <==> a > b),
        a >= 0x8000_0000_0000_0000 && b < 0x8000_0000_0000_0000 ==> price_rank(a) < price_rank(b),
{
}

/// Among positive prices the better bid is the higher one, and the better ask the lower
/// one.
pub proof fn better_bids_are_higher(a: u64, b: u64)
    requires
        a < 0x8000_0000_0000_0000,
        b < 0x8000_0000_0000_0000,
    ensures
        better_price(true, a, b) <==> a > b,
        better_price(false, a, b) <==> a < b,
{
}

/// A side is listed from its best price on: positive bids from the highest down, positive
/// asks from the lowest up, each level of the side once and with its quantity.
pub proof fn listing_goes_from_the_best(
    bids: bool,
    side: Map<u64, u64>,
    listed: Seq<(u64, u64)>,
    i: int,
    j: int,
)
    requires
        lists_side(bids, side, listed),
        0 <= i < j < listed.len(),
        listed[i].0 < 0x8000_0000_0000_0000,
        listed[j].0 < 0x8000_0000_0000_0000,
    ensures
        bids ==> listed[i].0 > listed[j].0,
        !bids ==> listed[i].0 < listed[j].0,
        side.contains_key(listed[i].0) && side[listed[i].0] == listed[i].1,
        listed.len() == side.dom().len(),
{
    lemma_listing_length(bids, side, listed);
    better_bids_are_higher(listed[i].0, listed[j].0);
}

/// The best of some prices.
proof fn lemma_best_price(bids: bool, prices: Set<u64>) -> (best: u64)
    requires
        prices.finite(),
        prices.len() > 0,
    ensures
        prices.contains(best),
        forall|p: u64| #[trigger] prices.contains(p) ==> p == best || better_price(bids, best, p),
{
    let best = lemma_worst_price(!bids, prices);
    assert forall|p: u64| #[trigger] prices.contains(p) implies p == best || better_price(
        bids,
        best,
        p,
    ) by {}
    best
}

/// Trimming drops no more than it must: a side that is deeper than `depth` keeps exactly
/// `depth` levels.
pub proof fn trimming_fills_the_depth(bids: bool, depth: nat, side: Map<u64, u64>)
    requires
        side.dom().finite(),
        side.dom().len() > depth,
    ensures
        trimmed(bids, depth, side).dom().len() == depth,
{
    let kept = trimmed(bids, depth, side).dom();
    trimming_bounds_the_side(bids, depth, side);
    if kept.len() < depth {
        let dropped = side.dom().difference(kept);
        assert(kept.union(dropped) =~= side.dom());
        assert(kept.disjoint(dropped));
        vstd::set_lib::lemma_set_disjoint_lens(kept, dropped);
        let best = lemma_best_price(bids, dropped);
        let better = better_prices(bids, side, best);
        assert forall|p: u64| #[trigger] better.contains(p) implies kept.contains(p) by {
            if dropped.contains(p) {
                price_rank_is_injective(p, best);
            }
        }
        vstd::set_lib::lemma_len_subset(better, kept);
        assert(kept.contains(best));
    }
}

/// Of positive prices trimming keeps the highest bids and the lowest asks.
pub proof fn trimming_keeps_highest_bids_and_lowest_asks(
    depth: nat,
    side: Map<u64, u64>,
    kept: u64,
    dropped: u64,
)
    requires
        side.dom().finite(),
        side.contains_key(kept),
        side.contains_key(dropped),
        kept < 0x8000_0000_0000_0000,
        dropped < 0x8000_0000_0000_0000,
    ensures
        trimmed(true, depth, side).contains_key(kept) && !trimmed(true, depth, side).contains_key(
            dropped,
        ) ==> kept > dropped,
        trimmed(false, depth, side).contains_key(kept) && !trimmed(false, depth, side).contains_key(
            dropped,
        ) ==> kept < dropped,
        trimmed(true, depth, side).contains_key(kept) ==> trimmed(true, depth, side)[kept]
            == side[kept],
        trimmed(false, depth, side).contains_key(kept) ==> trimmed(false, depth, side)[kept]
            == side[kept],
{
    better_bids_are_higher(kept, dropped);
    if trimmed(true, depth, side).contains_key(kept) && !trimmed(true, depth, side).contains_key(
        dropped,
    ) {
        trimming_keeps_the_best(true, depth, side, kept, dropped);
    }
    if trimmed(false, depth, side).contains_key(kept) && !trimmed(false, depth, side).contains_key(
        dropped,
    ) {
        trimming_keeps_the_best(false, depth, side, kept, dropped);
    }
}

} // verus!
