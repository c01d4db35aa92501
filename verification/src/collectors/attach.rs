//! Joining a snapshot and a stream of diffs: the buffered diffs are put in order,
//! the first that bridges onto the snapshot is found, and those after it must
//! form an unbroken chain.

use crate::models::DepthUpdateWs;
use vstd::prelude::*;

verus! {

/// Which rule matched when buffered diffs were bridged onto a snapshot.
#[derive(Clone, Copy, Debug, PartialEq, Eq, Structural)]
pub enum BridgeRule {
    /// The diff starts no later than right after the snapshot.
    PerfectContinuity,
    /// The snapshot lies between the previous diff's end and this diff's start.
    PuAttach,
}

impl BridgeRule {
    /// The rule in words.
    pub fn label(self) -> (r: &'static str)
        ensures
            r@ == (match self {
                BridgeRule::PerfectContinuity => "perfect continuity"@,
                BridgeRule::PuAttach => "pu-based attach"@,
            }),
    {
        match self {
            BridgeRule::PerfectContinuity => "perfect continuity",
            BridgeRule::PuAttach => "pu-based attach",
        }
    }
}

/// The rule by which a diff bridges onto a snapshot that ends at `snapshot_u`.
/// A diff that ends no later than the snapshot bridges by none.
pub open spec fn bridge_rule(snapshot_u: u64, diff: DepthUpdateWs) -> Option<BridgeRule> {
    if diff.final_update_id <= snapshot_u {
        None
    } else if diff.first_update_id <= snapshot_u + 1 {
        Some(BridgeRule::PerfectContinuity)
    } else if diff.prev_update_id <= snapshot_u < diff.first_update_id {
        Some(BridgeRule::PuAttach)
    } else {
        None
    }
}

/// The first diff that bridges onto the snapshot, and the rule that matched.
pub fn find_bridge(snapshot_u: u64, diffs: &[DepthUpdateWs]) -> (r: Option<(usize, BridgeRule)>)
    ensures
        match r {
            Some((at, rule)) => {
                &&& at < diffs@.len()
                &&& bridge_rule(snapshot_u, diffs@[at as int]) == Some(rule)
                &&& forall|i: int|
                    0 <= i < at ==> bridge_rule(snapshot_u, #[trigger] diffs@[i]) is None
            },
            None => forall|i: int|
                0 <= i < diffs@.len() ==> bridge_rule(snapshot_u, #[trigger] diffs@[i]) is None,
        },
        forall|k: int|
            0 <= k < diffs@.len() && (#[trigger] diffs@[k]).final_update_id > snapshot_u && (
            diffs@[k].first_update_id <= snapshot_u + 1 || diffs@[k].prev_update_id <= snapshot_u)
                ==> (r matches Some((at, _)) && at <= k),
        r matches Some((at, rule)) ==> {
            &&& diffs@[at as int].final_update_id > snapshot_u
            &&& rule == BridgeRule::PerfectContinuity <==> diffs@[at as int].first_update_id
                <= snapshot_u + 1
            &&& rule == BridgeRule::PuAttach ==> diffs@[at as int].prev_update_id <= snapshot_u
        },
{
    let mut i: usize = 0;
    while i < diffs.len()
        invariant
            i <= diffs@.len(),
            forall|k: int| 0 <= k < i ==> bridge_rule(snapshot_u, #[trigger] diffs@[k]) is None,
        decreases diffs@.len() - i,
    {
        let diff: &DepthUpdateWs = &diffs[i];
        if diff.final_update_id > snapshot_u {
            if diff.first_update_id <= snapshot_u + 1 {
                return Some((i, BridgeRule::PerfectContinuity));
            }
            if diff.prev_update_id <= snapshot_u && snapshot_u < diff.first_update_id {
                return Some((i, BridgeRule::PuAttach));
            }
        }
        i = i + 1;
    }
    None
}

/// Of two diffs with one final id, the one at `i` is kept over the one at `j`: the
/// later event wins, then the earlier start, then the earlier arrival.
pub open spec fn kept_over(diffs: Seq<DepthUpdateWs>, i: int, j: int) -> bool {
    let a = diffs[i];
    let b = diffs[j];
    ||| a.event_time > b.event_time
    ||| a.event_time == b.event_time && a.first_update_id < b.first_update_id
    ||| a.event_time == b.event_time && a.first_update_id == b.first_update_id && i < j
}

/// Among the first `n` diffs, the one at `i` is kept over all others with its final
/// id.
pub open spec fn is_kept(diffs: Seq<DepthUpdateWs>, n: int, i: int) -> bool {
    &&& 0 <= i < n
    &&& forall|j: int|
        0 <= j < n && j != i && (#[trigger] diffs[j]).final_update_id == diffs[i].final_update_id
            ==> kept_over(diffs, i, j)
}

/// Final ids strictly increase.
pub open spec fn ids_increase(diffs: Seq<DepthUpdateWs>) -> bool {
    forall|i: int, j: int|
        0 <= i < j < diffs.len() ==> (#[trigger] diffs[i]).final_update_id < (
        #[trigger] diffs[j]).final_update_id
}

/// `diff` is one of the first `n` diffs, and kept.
pub open spec fn comes_from(diffs: Seq<DepthUpdateWs>, n: int, diff: DepthUpdateWs) -> bool {
    exists|i: int| #[trigger] is_kept(diffs, n, i) && diffs[i] == diff
}

/// Some diff has the final id `id`.
pub open spec fn has_id(diffs: Seq<DepthUpdateWs>, id: u64) -> bool {
    exists|k: int| 0 <= k < diffs.len() && (#[trigger] diffs[k]).final_update_id == id
}

/// `out` holds, for every final id among the first `n` diffs, the diff that is kept,
/// in increasing order of id.
pub open spec fn normalizes_to(diffs: Seq<DepthUpdateWs>, n: int, out: Seq<DepthUpdateWs>) -> bool {
    &&& ids_increase(out)
    &&& forall|k: int| 0 <= k < out.len() ==> #[trigger] comes_from(diffs, n, out[k])
    &&& forall|i: int| 0 <= i < n ==> #[trigger] has_id(out, diffs[i].final_update_id)
}

/// Puts buffered diffs in order of their final id, keeping one diff for each id.
pub fn normalize_messages_for_attach(msgs: Vec<DepthUpdateWs>) -> (r: Vec<DepthUpdateWs>)
    ensures
        normalizes_to(msgs@, msgs@.len() as int, r@),
{
    let ghost diffs = msgs@;
    let mut out: Vec<DepthUpdateWs> = Vec::new();
    for msg in it: msgs
        invariant
            it.seq() == diffs,
            normalizes_to(diffs, it.index(), out@),
    {
        let ghost n = it.index();
        let ghost before = out@;
        let mut at: usize = out.len();
        while at > 0 && out[at - 1].final_update_id > msg.final_update_id
            invariant
                at <= out.len(),
                out@ == before,
                ids_increase(before),
                forall|k: int|
                    at <= k < before.len() ==> (#[trigger] before[k]).final_update_id
                        > msg.final_update_id,
            decreases at,
        {
            at = at - 1;
        }
        assert(msg == diffs[n]);
        if at > 0 && out[at - 1].final_update_id == msg.final_update_id {
            let held: &DepthUpdateWs = &out[at - 1];
            if msg.event_time > held.event_time || (msg.event_time == held.event_time
                && msg.first_update_id < held.first_update_id) {
                out.set(at - 1, msg);
                proof {
                    lemma_replace(diffs, n, before, at as int - 1);
                }
            } else {
                proof {
                    lemma_keep(diffs, n, before, at as int - 1);
                }
            }
        } else {
            out.insert(at, msg);
            proof {
                lemma_insert(diffs, n, before, at as int);
            }
        }
    }
    out
}

/// One of the first `n` diffs that is kept, and shares no id with the next one, is
/// kept when that one is taken in.
proof fn lemma_still_kept(diffs: Seq<DepthUpdateWs>, n: int, diff: DepthUpdateWs)
    requires
        0 <= n < diffs.len(),
        comes_from(diffs, n, diff),
        diff.final_update_id != diffs[n].final_update_id,
    ensures
        comes_from(diffs, n + 1, diff),
{
    let i = choose|i: int| #[trigger] is_kept(diffs, n, i) && diffs[i] == diff;
    assert(is_kept(diffs, n + 1, i));
}

/// The next diff replaces the one that is held for its id.
proof fn lemma_replace(diffs: Seq<DepthUpdateWs>, n: int, out: Seq<DepthUpdateWs>, at: int)
    requires
        0 <= n < diffs.len(),
        normalizes_to(diffs, n, out),
        0 <= at < out.len(),
        out[at].final_update_id == diffs[n].final_update_id,
        diffs[n].event_time > out[at].event_time || (diffs[n].event_time == out[at].event_time
            && diffs[n].first_update_id < out[at].first_update_id),
    ensures
        normalizes_to(diffs, n + 1, out.update(at, diffs[n])),
{
    let new = out.update(at, diffs[n]);
    assert forall|k: int| 0 <= k < new.len() implies #[trigger] comes_from(
        diffs,
        n + 1,
        new[k],
    ) by {
        assert(comes_from(diffs, n, out[k]));
        if k == at {
            let i = choose|i: int| #[trigger] is_kept(diffs, n, i) && diffs[i] == out[k];
            assert(is_kept(diffs, n + 1, n));
        } else {
            lemma_still_kept(diffs, n, out[k]);
        }
    }
    assert forall|i: int| 0 <= i < n + 1 implies #[trigger] has_id(
        new,
        diffs[i].final_update_id,
    ) by {
        if i < n {
            assert(has_id(out, diffs[i].final_update_id));
            let k = choose|k: int|
                0 <= k < out.len() && (#[trigger] out[k]).final_update_id
                    == diffs[i].final_update_id;
            assert(new[k].final_update_id == diffs[i].final_update_id);
        } else {
            assert(new[at].final_update_id == diffs[i].final_update_id);
        }
    }
}

/// The diff that is held for an id stays in place of the next one.
proof fn lemma_keep(diffs: Seq<DepthUpdateWs>, n: int, out: Seq<DepthUpdateWs>, at: int)
    requires
        0 <= n < diffs.len(),
        normalizes_to(diffs, n, out),
        0 <= at < out.len(),
        out[at].final_update_id == diffs[n].final_update_id,
        !(diffs[n].event_time > out[at].event_time || (diffs[n].event_time == out[at].event_time
            && diffs[n].first_update_id < out[at].first_update_id)),
    ensures
        normalizes_to(diffs, n + 1, out),
{
    assert forall|k: int| 0 <= k < out.len() implies #[trigger] comes_from(
        diffs,
        n + 1,
        out[k],
    ) by {
        assert(comes_from(diffs, n, out[k]));
        if k == at {
            let i = choose|i: int| #[trigger] is_kept(diffs, n, i) && diffs[i] == out[k];
            assert(is_kept(diffs, n + 1, i));
        } else {
            lemma_still_kept(diffs, n, out[k]);
        }
    }
    assert forall|i: int| 0 <= i < n + 1 implies #[trigger] has_id(
        out,
        diffs[i].final_update_id,
    ) by {
        if i == n {
            assert(out[at].final_update_id == diffs[i].final_update_id);
        }
    }
}

/// The next diff brings a new id.
proof fn lemma_insert(diffs: Seq<DepthUpdateWs>, n: int, out: Seq<DepthUpdateWs>, at: int)
    requires
        0 <= n < diffs.len(),
        normalizes_to(diffs, n, out),
        0 <= at <= out.len(),
        at > 0 ==> out[at - 1].final_update_id < diffs[n].final_update_id,
        forall|k: int|
            at <= k < out.len() ==> (#[trigger] out[k]).final_update_id
                > diffs[n].final_update_id,
    ensures
        normalizes_to(diffs, n + 1, out.insert(at, diffs[n])),
{
    let new = out.insert(at, diffs[n]);
    let id = diffs[n].final_update_id;
    assert forall|k: int| 0 <= k < at implies (#[trigger] out[k]).final_update_id < id by {
        if k < at - 1 {
            assert(out[k].final_update_id < out[at - 1].final_update_id);
        }
    }
    assert forall|i: int| 0 <= i < n implies (#[trigger] diffs[i]).final_update_id != id by {
        assert(has_id(out, diffs[i].final_update_id));
    }
    assert forall|k: int| 0 <= k < new.len() implies new[k] == (if k < at {
        out[k]
    } else if k == at {
        diffs[n]
    } else {
        out[k - 1]
    }) by {}
    assert(ids_increase(new));
    assert forall|k: int| 0 <= k < new.len() implies #[trigger] comes_from(
        diffs,
        n + 1,
        new[k],
    ) by {
        if k == at {
            assert(is_kept(diffs, n + 1, n));
        } else {
            let from = if k < at {
                k
            } else {
                k - 1
            };
            assert(comes_from(diffs, n, out[from]));
            lemma_still_kept(diffs, n, out[from]);
        }
    }
    assert forall|i: int| 0 <= i < n + 1 implies #[trigger] has_id(
        new,
        diffs[i].final_update_id,
    ) by {
        if i == n {
            assert(new[at].final_update_id == id);
        } else {
            assert(has_id(out, diffs[i].final_update_id));
            let k = choose|k: int|
                0 <= k < out.len() && (#[trigger] out[k]).final_update_id
                    == diffs[i].final_update_id;
            if k < at {
                assert(new[k].final_update_id == diffs[i].final_update_id);
            } else {
                assert(new[k + 1].final_update_id == diffs[i].final_update_id);
            }
        }
    }
}

/// Only one list qualifies: what normalizing gives is fixed by what is buffered.
pub proof fn normalization_is_unique(
    diffs: Seq<DepthUpdateWs>,
    a: Seq<DepthUpdateWs>,
    b: Seq<DepthUpdateWs>,
)
    requires
        normalizes_to(diffs, diffs.len() as int, a),
        normalizes_to(diffs, diffs.len() as int, b),
    ensures
        a == b,
{
    lemma_same_prefix(diffs, a, b, a.len() as int);
    lemma_same_prefix(diffs, b, a, b.len() as int);
    assert(a =~= b);
}

/// Every diff of `a` up to `n` stands at the same place in `b`.
proof fn lemma_same_prefix(
    diffs: Seq<DepthUpdateWs>,
    a: Seq<DepthUpdateWs>,
    b: Seq<DepthUpdateWs>,
    n: int,
)
    requires
        normalizes_to(diffs, diffs.len() as int, a),
        normalizes_to(diffs, diffs.len() as int, b),
        0 <= n <= a.len(),
    ensures
        n <= b.len(),
        forall|k: int| 0 <= k < n ==> a[k] == b[k],
    decreases n,
{
    if n > 0 {
        let m = n - 1;
        lemma_same_prefix(diffs, a, b, m);
        let all = diffs.len() as int;
        assert(comes_from(diffs, all, a[m]));
        let i = choose|i: int| #[trigger] is_kept(diffs, all, i) && diffs[i] == a[m];
        assert(has_id(b, diffs[i].final_update_id));
        let j = choose|j: int|
            0 <= j < b.len() && (#[trigger] b[j]).final_update_id == a[m].final_update_id;
        if j < m {
            assert(a[j] == b[j]);
            assert(a[j].final_update_id < a[m].final_update_id);
        }
        assert(comes_from(diffs, all, b[m]));
        let x = choose|x: int| #[trigger] is_kept(diffs, all, x) && diffs[x] == b[m];
        assert(has_id(a, diffs[x].final_update_id));
        let y = choose|y: int|
            0 <= y < a.len() && (#[trigger] a[y]).final_update_id == b[m].final_update_id;
        if y < m {
            assert(a[y] == b[y]);
            assert(b[y].final_update_id < b[m].final_update_id);
        }
        if j > m {
            assert(b[m].final_update_id < b[j].final_update_id);
            if y > m {
                assert(a[m].final_update_id < a[y].final_update_id);
            }
        }
        assert(a[m].final_update_id == b[m].final_update_id);
        if i != x {
            assert(kept_over(diffs, i, x));
            assert(kept_over(diffs, x, i));
        }
    }
}

/// Normalizing a normalized list gives it back.
pub proof fn normalization_is_idempotent(diffs: Seq<DepthUpdateWs>, out: Seq<DepthUpdateWs>)
    requires
        ids_increase(diffs),
        normalizes_to(diffs, diffs.len() as int, out),
    ensures
        out == diffs,
{
    let n = diffs.len() as int;
    assert forall|k: int| 0 <= k < n implies #[trigger] comes_from(diffs, n, diffs[k]) by {
        assert forall|j: int|
            0 <= j < n && j != k && (#[trigger] diffs[j]).final_update_id
                == diffs[k].final_update_id implies kept_over(diffs, k, j) by {
            if j < k {
                assert(diffs[j].final_update_id < diffs[k].final_update_id);
            } else {
                assert(diffs[k].final_update_id < diffs[j].final_update_id);
            }
        }
        assert(is_kept(diffs, n, k));
    }
    assert forall|i: int| 0 <= i < n implies #[trigger] has_id(
        diffs,
        diffs[i].final_update_id,
    ) by {}
    normalization_is_unique(diffs, out, diffs);
}

/// Where the first diff stands that bridges onto the snapshot; past the end when
/// none does.
pub open spec fn bridge_index(snapshot_u: u64, diffs: Seq<DepthUpdateWs>) -> nat
    decreases diffs.len(),
{
    if diffs.len() == 0 {
        0
    } else if bridge_rule(snapshot_u, diffs[0]) is Some {
        0
    } else {
        1 + bridge_index(snapshot_u, diffs.drop_first())
    }
}

/// `bridge_index` is the place of the first diff that bridges.
pub proof fn lemma_bridge_index(snapshot_u: u64, diffs: Seq<DepthUpdateWs>, at: int)
    requires
        0 <= at <= diffs.len(),
        forall|i: int| 0 <= i < at ==> bridge_rule(snapshot_u, #[trigger] diffs[i]) is None,
        at < diffs.len() ==> bridge_rule(snapshot_u, diffs[at]) is Some,
    ensures
        bridge_index(snapshot_u, diffs) == at,
    decreases diffs.len(),
{
    if diffs.len() > 0 && at > 0 {
        assert(bridge_rule(snapshot_u, diffs[0]) is None);
        let rest = diffs.drop_first();
        assert forall|i: int| 0 <= i < at - 1 implies bridge_rule(
            snapshot_u,
            #[trigger] rest[i],
        ) is None by {
            assert(rest[i] == diffs[i + 1]);
        }
        lemma_bridge_index(snapshot_u, rest, at - 1);
    }
}

/// How many leading diffs form a chain: each but the first names the final id of the
/// one before it as its previous id.
pub open spec fn chain_len(diffs: Seq<DepthUpdateWs>) -> nat
    decreases diffs.len(),
{
    if diffs.len() <= 1 {
        diffs.len()
    } else if diffs[1].prev_update_id == diffs[0].final_update_id {
        1 + chain_len(diffs.drop_first())
    } else {
        1
    }
}

/// The chain ends where the first diff does not continue the one before it.
pub proof fn lemma_chain_len(diffs: Seq<DepthUpdateWs>, n: int)
    requires
        diffs.len() > 0,
        0 < n <= diffs.len(),
        forall|j: int|
            0 < j < n ==> (#[trigger] diffs[j]).prev_update_id == diffs[j - 1].final_update_id,
        n < diffs.len() ==> diffs[n].prev_update_id != diffs[n - 1].final_update_id,
    ensures
        chain_len(diffs) == n,
    decreases diffs.len(),
{
    if diffs.len() > 1 && n > 1 {
        assert(diffs[1].prev_update_id == diffs[0].final_update_id);
        let rest = diffs.drop_first();
        assert forall|j: int| 0 < j < n - 1 implies (#[trigger] rest[j]).prev_update_id == rest[j
            - 1].final_update_id by {
            assert(diffs[j + 1].prev_update_id == diffs[j].final_update_id);
        }
        lemma_chain_len(rest, n - 1);
    }
}

/// In a chain every diff starts where the one before it ended: nothing was missed
/// between them.
pub proof fn chain_is_unbroken(diffs: Seq<DepthUpdateWs>, j: int)
    requires
        0 < j < chain_len(diffs),
    ensures
        j < diffs.len(),
        diffs[j].prev_update_id == diffs[j - 1].final_update_id,
    decreases diffs.len(),
{
    if diffs.len() > 1 && j > 1 {
        let rest = diffs.drop_first();
        chain_is_unbroken(rest, j - 1);
        assert(rest[j - 1] == diffs[j]);
        assert(rest[j - 2] == diffs[j - 1]);
    }
}

/// No diff from the bridge on is covered by the snapshot.
pub proof fn bridged_diffs_are_not_covered(snapshot_u: u64, diffs: Seq<DepthUpdateWs>, j: int)
    requires
        ids_increase(diffs),
        bridge_index(snapshot_u, diffs) <= j < diffs.len(),
    ensures
        diffs[j].final_update_id > snapshot_u,
    decreases diffs.len(),
{
    let at = bridge_index(snapshot_u, diffs) as int;
    if at == 0 {
        if j > 0 {
            assert(diffs[0].final_update_id < diffs[j].final_update_id);
        }
    } else {
        let rest = diffs.drop_first();
        assert forall|x: int, y: int| 0 <= x < y < rest.len() implies (
        #[trigger] rest[x]).final_update_id < (#[trigger] rest[y]).final_update_id by {
            assert(diffs[x + 1].final_update_id < diffs[y + 1].final_update_id);
        }
        bridged_diffs_are_not_covered(snapshot_u, rest, j - 1);
        assert(rest[j - 1] == diffs[j]);
    }
}

/// Every diff that covers the id right after the snapshot bridges onto it, wherever the
/// diff starts, and so does every diff that follows the snapshot in the stream: the search
/// goes no further than to the first of them.
pub proof fn covering_diffs_bridge(snapshot_u: u64, diffs: Seq<DepthUpdateWs>, k: int)
    requires
        0 <= k < diffs.len(),
        diffs[k].final_update_id > snapshot_u,
        diffs[k].first_update_id <= snapshot_u + 1 || diffs[k].prev_update_id <= snapshot_u,
    ensures
        bridge_index(snapshot_u, diffs) <= k,
    decreases diffs.len(),
{
    if bridge_rule(snapshot_u, diffs[0]) is None && k > 0 {
        let rest = diffs.drop_first();
        assert(rest[k - 1] == diffs[k]);
        covering_diffs_bridge(snapshot_u, rest, k - 1);
    }
}

/// A diff onto which nothing leads from the snapshot is never taken for the bridge: what is
/// found ends after the snapshot, and starts no later than right after it or follows on it.
pub proof fn bridge_leaves_no_gap(snapshot_u: u64, diffs: Seq<DepthUpdateWs>)
    requires
        bridge_index(snapshot_u, diffs) < diffs.len(),
    ensures
        ({
            let found = diffs[bridge_index(snapshot_u, diffs) as int];
            &&& found.final_update_id > snapshot_u
            &&& found.first_update_id <= snapshot_u + 1 || found.prev_update_id <= snapshot_u
        }),
    decreases diffs.len(),
{
    if bridge_rule(snapshot_u, diffs[0]) is None {
        let rest = diffs.drop_first();
        bridge_leaves_no_gap(snapshot_u, rest);
        assert(rest[bridge_index(snapshot_u, rest) as int] == diffs[bridge_index(
            snapshot_u,
            diffs,
        ) as int]);
    }
}

/// The rule that is reported tells the two ways apart: by the first the diff covers the id
/// right after the snapshot, by the second it starts later and only follows on it.
pub proof fn bridge_rules_are_told_apart(snapshot_u: u64, diff: DepthUpdateWs)
    ensures
        bridge_rule(snapshot_u, diff) == Some(BridgeRule::PerfectContinuity) <==> (
        diff.first_update_id <= snapshot_u + 1 && snapshot_u < diff.final_update_id),
        bridge_rule(snapshot_u, diff) == Some(BridgeRule::PuAttach) <==> (diff.first_update_id
            > snapshot_u + 1 && diff.prev_update_id <= snapshot_u && snapshot_u
            < diff.final_update_id),
{
}

/// A chain goes on for as long as it can: it ends with the diffs, or at one that does not
/// name the final id of the one before it. A single diff is a chain.
pub proof fn chain_ends_at_a_gap(diffs: Seq<DepthUpdateWs>)
    requires
        diffs.len() > 0,
    ensures
        ({
            let n = chain_len(diffs) as int;
            &&& 1 <= n <= diffs.len()
            &&& n < diffs.len() ==> diffs[n].prev_update_id != diffs[n - 1].final_update_id
        }),
    decreases diffs.len(),
{
    if diffs.len() > 1 && diffs[1].prev_update_id == diffs[0].final_update_id {
        let rest = diffs.drop_first();
        chain_ends_at_a_gap(rest);
        let n = chain_len(rest) as int;
        assert(rest[n - 1] == diffs[n]);
        if n < rest.len() {
            assert(rest[n] == diffs[n + 1]);
        }
    }
}

/// Of buffered diffs with one final id the one with the latest event time is kept, and of
/// those the one that starts earliest. Nothing is kept that was not buffered, and the final
/// ids increase.
pub proof fn normalizing_keeps_the_newest(
    diffs: Seq<DepthUpdateWs>,
    out: Seq<DepthUpdateWs>,
    i: int,
    k: int,
)
    requires
        normalizes_to(diffs, diffs.len() as int, out),
        0 <= i < diffs.len(),
        0 <= k < out.len(),
    ensures
        diffs.contains(out[k]),
        exists|at: int| 0 <= at < out.len() && out[at].final_update_id == diffs[i].final_update_id,
        out[k].final_update_id == diffs[i].final_update_id ==> {
            &&& out[k].event_time >= diffs[i].event_time
            &&& out[k].event_time == diffs[i].event_time ==> out[k].first_update_id
                <= diffs[i].first_update_id
        },
        forall|m: int| k < m < out.len() ==> out[k].final_update_id < #[trigger] out[m].final_update_id,
{
    let n = diffs.len() as int;
    assert(comes_from(diffs, n, out[k]));
    let from = choose|j: int| #[trigger] is_kept(diffs, n, j) && diffs[j] == out[k];
    assert(diffs.contains(diffs[from]));
    assert(has_id(out, diffs[i].final_update_id));
    let at = choose|at: int|
        0 <= at < out.len() && (#[trigger] out[at]).final_update_id == diffs[i].final_update_id;
    assert(out[at].final_update_id == diffs[i].final_update_id);
    if out[k].final_update_id == diffs[i].final_update_id && from != i {
        assert(kept_over(diffs, from, i));
    }
}

/// Of diffs that agree in their ids and time the first to arrive is kept.
pub proof fn the_first_of_equals_is_kept(
    diffs: Seq<DepthUpdateWs>,
    out: Seq<DepthUpdateWs>,
    i: int,
    k: int,
)
    requires
        normalizes_to(diffs, diffs.len() as int, out),
        0 <= i < diffs.len(),
        0 <= k < out.len(),
        out[k].final_update_id == diffs[i].final_update_id,
        out[k].event_time == diffs[i].event_time,
        out[k].first_update_id == diffs[i].first_update_id,
        forall|j: int|
            0 <= j < i ==> !((#[trigger] diffs[j]).final_update_id == diffs[i].final_update_id
                && diffs[j].event_time == diffs[i].event_time && diffs[j].first_update_id
                == diffs[i].first_update_id),
    ensures
        out[k] == diffs[i],
{
    assert(comes_from(diffs, diffs.len() as int, out[k]));
    let m = choose|m: int| #[trigger] is_kept(diffs, diffs.len() as int, m) && diffs[m] == out[k];
    if m != i {
        assert(kept_over(diffs, m, i));
    }
}

} // verus!
