//! Resolution of a goal's dependencies into one ordered list of commands.
use vstd::prelude::*;
use vstd::seq_lib::lemma_flatten_concat;
use crate::model::{RMake, RMakeTarget, TargetModel, strings_view, targets_view};

verus! {

/// The first index at or after `i` of a target named `name`.
pub open spec fn index_from(ts: Seq<TargetModel>, name: Seq<char>, i: int) -> Option<int>
    decreases ts.len() - i,
{
    if i < 0 || i >= ts.len() {
        None
    } else if ts[i].name == name {
        Some(i)
    } else {
        index_from(ts, name, i + 1)
    }
}

/// The index of the target named `name`, if there is one.
pub open spec fn target_index(ts: Seq<TargetModel>, name: Seq<char>) -> Option<int> {
    index_from(ts, name, 0)
}

/// How many entries of `v` are `false`.
pub open spec fn count_false(v: Seq<bool>) -> nat
    decreases v.len(),
{
    if v.len() == 0 {
        0
    } else {
        count_false(v.drop_last()) + if v.last() {
            0nat
        } else {
            1nat
        }
    }
}

pub proof fn lemma_index_from_range(ts: Seq<TargetModel>, name: Seq<char>, i: int)
    requires
        0 <= i,
    ensures
        match index_from(ts, name, i) {
            Some(k) => i <= k < ts.len() && ts[k].name == name,
            None => forall|j: int| i <= j < ts.len() ==> ts[j].name != name,
        },
    decreases ts.len() - i,
{
    if 0 <= i < ts.len() && ts[i].name != name {
        lemma_index_from_range(ts, name, i + 1);
    }
}

pub proof fn lemma_count_false_update(v: Seq<bool>, k: int)
    requires
        0 <= k < v.len(),
        !v[k],
    ensures
        count_false(v.update(k, true)) + 1 == count_false(v),
    decreases v.len(),
{
    let u = v.update(k, true);
    if k == v.len() - 1 {
        assert(u.drop_last() =~= v.drop_last());
    } else {
        assert(u.drop_last() =~= v.drop_last().update(k, true));
        lemma_count_false_update(v.drop_last(), k);
    }
}

/// The depth-first walk over `deps[i..]`, with `seen` marking the targets
/// already reached. It gives the commands emitted, the indices of the
/// targets whose commands were emitted (in that order), and the marks after it.
pub open spec fn walk(ts: Seq<TargetModel>, deps: Seq<Seq<char>>, i: int, seen: Seq<bool>) -> (
    Seq<Seq<char>>,
    Seq<int>,
    Seq<bool>,
)
    decreases count_false(seen), deps.len() - i,
    via walk_decreases
{
    if i < 0 || i >= deps.len() || seen.len() != ts.len() {
        (seq![], seq![], seen)
    } else {
        match target_index(ts, deps[i]) {
            Some(k) => {
                if !seen[k] {
                    let inner = walk(ts, ts[k].deps, 0, seen.update(k, true));
                    if count_false(inner.2) < count_false(seen) {
                        let rest = walk(ts, deps, i + 1, inner.2);
                        (inner.0 + ts[k].cmds + rest.0, inner.1.push(k) + rest.1, rest.2)
                    } else {
                        (seq![], seq![], seen)
                    }
                } else {
                    walk(ts, deps, i + 1, seen)
                }
            },
            None => walk(ts, deps, i + 1, seen),
        }
    }
}

#[via_fn]
proof fn walk_decreases(ts: Seq<TargetModel>, deps: Seq<Seq<char>>, i: int, seen: Seq<bool>) {
    if 0 <= i < deps.len() && seen.len() == ts.len() {
        lemma_index_from_range(ts, deps[i], 0);
        match target_index(ts, deps[i]) {
            Some(k) => {
                if !seen[k] {
                    lemma_count_false_update(seen, k);
                }
            },
            None => {},
        }
    }
}

/// The marks a walk starts from: only the goal, where it is one of the targets.
pub open spec fn initial_seen(ts: Seq<TargetModel>, goal: Seq<char>) -> Seq<bool> {
    let none = Seq::new(ts.len(), |j: int| false);
    match target_index(ts, goal) {
        Some(g) => none.update(g, true),
        None => none,
    }
}

/// The commands of a goal's chain: those of its dependencies in post-order,
/// each target at most once, then the goal's own.
pub open spec fn chain_model(ts: Seq<TargetModel>, goal: TargetModel) -> Seq<Seq<char>> {
    walk(ts, goal.deps, 0, initial_seen(ts, goal.name)).0 + goal.cmds
}

/// The indices of the targets whose commands precede the goal's in its chain.
pub open spec fn chain_order(ts: Seq<TargetModel>, goal: TargetModel) -> Seq<int> {
    walk(ts, goal.deps, 0, initial_seen(ts, goal.name)).1
}

/// Appends a copy of each string of `src` to `out`.
pub fn append_all(out: &mut Vec<String>, src: &Vec<String>)
    ensures
        strings_view(final(out)@) == strings_view(old(out)@) + strings_view(src@),
{
    let ghost o0 = strings_view(out@);
    let mut c: usize = 0;
    while c < src.len()
        invariant
            c <= src.len(),
            strings_view(out@) == o0 + strings_view(src@).take(c as int),
        decreases src.len() - c,
    {
        let ghost prev = out@;
        let x = src[c].clone();
        out.push(x);
        proof {
            assert(out@ == prev.push(x));
            assert(strings_view(out@) =~= strings_view(prev).push(x@));
            assert(strings_view(src@).take(c + 1) =~= strings_view(src@).take(c as int).push(x@));
            assert(strings_view(out@) =~= o0 + strings_view(src@).take(c + 1));
        }
        c = c + 1;
    }
    assert(strings_view(src@).take(c as int) =~= strings_view(src@));
}

/// The index of the target named `name` among `ts`.
pub fn target_position(ts: &Vec<RMakeTarget>, name: &String) -> (r: Option<usize>)
    ensures
        match r {
            Some(k) => k < ts.len() && target_index(targets_view(ts@), name@) == Some(k as int),
            None => target_index(targets_view(ts@), name@) is None,
        },
{
    let mut i: usize = 0;
    while i < ts.len()
        invariant
            i <= ts.len(),
            target_index(targets_view(ts@), name@) == index_from(targets_view(ts@), name@, i as int),
        decreases ts.len() - i,
    {
        if ts[i].name == *name {
            proof {
                lemma_index_from_range(targets_view(ts@), name@, i as int);
            }
            return Some(i);
        }
        i = i + 1;
    }
    None
}

/// The commands of the targets at the indices `order`, one block after another.
pub open spec fn blocks(ts: Seq<TargetModel>, order: Seq<int>) -> Seq<Seq<char>> {
    order.map_values(|k: int| ts[k].cmds).flatten()
}

/// What a walk does to its marks and what it emits: each target it emits was
/// unmarked before it and is marked after it, none twice, and the commands
/// are the blocks of those targets in that order.
pub proof fn lemma_walk(ts: Seq<TargetModel>, deps: Seq<Seq<char>>, i: int, seen: Seq<bool>)
    requires
        seen.len() == ts.len(),
        0 <= i,
    ensures
        ({
            let (out, ord, after) = walk(ts, deps, i, seen);
            &&& after.len() == ts.len()
            &&& count_false(after) <= count_false(seen)
            &&& forall|j: int| 0 <= j < ts.len() && seen[j] ==> after[j]
            &&& forall|j: int| 0 <= j < ts.len() && after[j] && !seen[j] ==> ord.contains(j)
            &&& forall|p: int|
                0 <= p < ord.len() ==> 0 <= #[trigger] ord[p] < ts.len() && !seen[ord[p]] && after[ord[p]]
            &&& ord.no_duplicates()
            &&& out == blocks(ts, ord)
            &&& forall|x: int|
                i <= x < deps.len() ==> match #[trigger] target_index(ts, deps[x]) {
                    Some(k) => after[k],
                    None => true,
                }
        }),
    decreases count_false(seen), deps.len() - i,
{
    let (out, ord, after) = walk(ts, deps, i, seen);
    if i >= deps.len() {
        assert(blocks(ts, ord) =~= seq![]);
    } else {
        lemma_index_from_range(ts, deps[i], 0);
        match target_index(ts, deps[i]) {
            Some(k) => {
                if !seen[k] {
                    let s1 = seen.update(k, true);
                    lemma_count_false_update(seen, k);
                    lemma_walk(ts, ts[k].deps, 0, s1);
                    let inner = walk(ts, ts[k].deps, 0, s1);
                    lemma_walk(ts, deps, i + 1, inner.2);
                    let rest = walk(ts, deps, i + 1, inner.2);
                    assert(ord == inner.1.push(k) + rest.1);
                    let f = |k: int| ts[k].cmds;
                    assert(ord.map_values(f) =~= inner.1.map_values(f) + seq![ts[k].cmds] + rest.1.map_values(f));
                    lemma_flatten_concat(inner.1.map_values(f) + seq![ts[k].cmds], rest.1.map_values(f));
                    lemma_flatten_concat(inner.1.map_values(f), seq![ts[k].cmds]);
                    seq![ts[k].cmds].lemma_flatten_one_element();
                    assert forall|p: int| 0 <= p < ord.len() implies 0 <= #[trigger] ord[p] < ts.len()
                        && !seen[ord[p]] && after[ord[p]] by {
                        if p < inner.1.len() {
                            assert(ord[p] == inner.1[p]);
                        } else if p == inner.1.len() {
                            assert(ord[p] == k);
                        } else {
                            assert(ord[p] == rest.1[p - inner.1.len() - 1]);
                        }
                    }
                    assert forall|a: int, b: int| 0 <= a < ord.len() && 0 <= b < ord.len() && a != b
                        implies ord[a] != ord[b] by {
                        let n1 = inner.1.len();
                        if a < n1 && b < n1 {
                            assert(inner.1[a] != inner.1[b]);
                        } else if a > n1 && b > n1 {
                            assert(rest.1[a - n1 - 1] != rest.1[b - n1 - 1]);
                        } else if a <= n1 && b <= n1 {
                            if a < n1 {
                                assert(!s1[inner.1[a]]);
                            } else {
                                assert(!s1[inner.1[b]]);
                            }
                        } else {
                            if a <= n1 {
                                assert(inner.2[ord[a]]);
                                assert(!inner.2[rest.1[b - n1 - 1]]);
                            } else {
                                assert(inner.2[ord[b]]);
                                assert(!inner.2[rest.1[a - n1 - 1]]);
                            }
                        }
                    }
                    assert forall|j: int| 0 <= j < ts.len() && after[j] && !seen[j] implies ord.contains(j) by {
                        if j == k {
                            assert(ord[inner.1.len() as int] == k);
                        } else if inner.2[j] {
                            let p = choose|p: int| 0 <= p < inner.1.len() && inner.1[p] == j;
                            assert(ord[p] == j);
                        } else {
                            let p = choose|p: int| 0 <= p < rest.1.len() && rest.1[p] == j;
                            assert(ord[p + inner.1.len() + 1] == j);
                        }
                    }
                    assert forall|x: int| i <= x < deps.len() implies match #[trigger] target_index(ts, deps[x]) {
                        Some(k2) => after[k2],
                        None => true,
                    } by {
                        if x == i {
                            assert(inner.2[k]);
                        }
                    }
                } else {
                    lemma_walk(ts, deps, i + 1, seen);
                }
            },
            None => {
                lemma_walk(ts, deps, i + 1, seen);
            },
        }
    }
}

/// A goal's chain is a function of the targets and the goal alone: two
/// results of it are the same list.
pub proof fn law_chain_deterministic(ts: Seq<TargetModel>, goal: TargetModel, a: Seq<Seq<char>>, b: Seq<Seq<char>>)
    requires
        a == chain_model(ts, goal),
        b == chain_model(ts, goal),
    ensures
        a == b,
{
}

/// Each target contributes its commands at most once to a goal's chain: the
/// chain is the blocks of distinct targets, none of them the goal, followed
/// by the goal's own commands.
pub proof fn law_at_most_once(ts: Seq<TargetModel>, goal: TargetModel)
    ensures
        chain_order(ts, goal).no_duplicates(),
        chain_model(ts, goal) == blocks(ts, chain_order(ts, goal)) + goal.cmds,
        forall|p: int| 0 <= p < chain_order(ts, goal).len() ==> 0 <= #[trigger] chain_order(ts, goal)[p] < ts.len(),
        match target_index(ts, goal.name) {
            Some(g) => !chain_order(ts, goal).contains(g),
            None => true,
        },
{
    let s0 = initial_seen(ts, goal.name);
    lemma_index_from_range(ts, goal.name, 0);
    lemma_walk(ts, goal.deps, 0, s0);
    match target_index(ts, goal.name) {
        Some(g) => {
            assert(s0[g]);
            if chain_order(ts, goal).contains(g) {
                let p = choose|p: int| 0 <= p < chain_order(ts, goal).len() && chain_order(ts, goal)[p] == g;
                assert(!s0[chain_order(ts, goal)[p]]);
            }
        },
        None => {},
    }
}

/// The number of commands over all targets.
pub open spec fn total_cmds(ts: Seq<TargetModel>) -> int
    decreases ts.len(),
{
    if ts.len() == 0 {
        0
    } else {
        total_cmds(ts.drop_last()) + ts.last().cmds.len()
    }
}

/// The number of commands of the targets at the indices `ord`.
pub open spec fn order_cmds(ts: Seq<TargetModel>, ord: Seq<int>) -> int
    decreases ord.len(),
{
    if ord.len() == 0 {
        0
    } else {
        order_cmds(ts, ord.drop_last()) + ts[ord.last()].cmds.len()
    }
}

pub proof fn lemma_blocks_len(ts: Seq<TargetModel>, ord: Seq<int>)
    ensures
        blocks(ts, ord).len() == order_cmds(ts, ord),
    decreases ord.len(),
{
    if ord.len() > 0 {
        let f = |k: int| ts[k].cmds;
        lemma_blocks_len(ts, ord.drop_last());
        assert(ord.map_values(f) =~= ord.drop_last().map_values(f).push(ts[ord.last()].cmds));
        ord.drop_last().map_values(f).lemma_flatten_push(ts[ord.last()].cmds);
    }
}

pub proof fn lemma_order_cmds_remove(ts: Seq<TargetModel>, ord: Seq<int>, p: int)
    requires
        0 <= p < ord.len(),
    ensures
        order_cmds(ts, ord) == order_cmds(ts, ord.remove(p)) + ts[ord[p]].cmds.len(),
    decreases ord.len(),
{
    if p == ord.len() - 1 {
        assert(ord.remove(p) =~= ord.drop_last());
    } else {
        assert(ord.remove(p).drop_last() =~= ord.drop_last().remove(p));
        assert(ord.remove(p).last() == ord.last());
        lemma_order_cmds_remove(ts, ord.drop_last(), p);
    }
}

pub proof fn lemma_order_cmds_prefix(ts: Seq<TargetModel>, ord: Seq<int>)
    requires
        ts.len() > 0,
        forall|p: int| 0 <= p < ord.len() ==> 0 <= #[trigger] ord[p] < ts.len() - 1,
    ensures
        order_cmds(ts, ord) == order_cmds(ts.drop_last(), ord),
    decreases ord.len(),
{
    if ord.len() > 0 {
        assert(ord.last() == ord[ord.len() - 1]);
        lemma_order_cmds_prefix(ts, ord.drop_last());
    }
}

/// Distinct targets have no more commands between them than all targets.
pub proof fn lemma_order_cmds_bound(ts: Seq<TargetModel>, ord: Seq<int>)
    requires
        ord.no_duplicates(),
        forall|p: int| 0 <= p < ord.len() ==> 0 <= #[trigger] ord[p] < ts.len(),
    ensures
        order_cmds(ts, ord) <= total_cmds(ts),
    decreases ts.len(),
{
    if ts.len() == 0 {
        if ord.len() > 0 {
            assert(0 <= ord[0] < ts.len());
        }
    } else {
        let n = ts.len() - 1;
        if ord.contains(n) {
            let p = choose|p: int| 0 <= p < ord.len() && ord[p] == n;
            let rest = ord.remove(p);
            ord.remove_ensures(p);
            lemma_order_cmds_remove(ts, ord, p);
            assert forall|a: int| 0 <= a < rest.len() implies 0 <= #[trigger] rest[a] < ts.len() - 1 by {
                if a < p {
                    assert(rest[a] == ord[a]);
                } else {
                    assert(rest[a] == ord[a + 1]);
                }
            }
            assert forall|a: int, b: int| 0 <= a < rest.len() && 0 <= b < rest.len() && a != b implies rest[a]
                != rest[b] by {
                let a2 = if a < p { a } else { a + 1 };
                let b2 = if b < p { b } else { b + 1 };
                assert(rest[a] == ord[a2]);
                assert(rest[b] == ord[b2]);
            }
            lemma_order_cmds_prefix(ts, rest);
            lemma_order_cmds_bound(ts.drop_last(), rest);
        } else {
            assert forall|a: int| 0 <= a < ord.len() implies 0 <= #[trigger] ord[a] < ts.len() - 1 by {
                assert(ord[a] != n);
            }
            lemma_order_cmds_prefix(ts, ord);
            lemma_order_cmds_bound(ts.drop_last(), ord);
        }
    }
}

/// A goal's chain terminates on every build, cycles included, and holds no
/// more commands than the goal's own and those of all targets; where the goal
/// is one of the targets, no more than those of all targets.
pub proof fn law_chain_bounded(ts: Seq<TargetModel>, goal: TargetModel)
    ensures
        chain_model(ts, goal).len() <= goal.cmds.len() + total_cmds(ts),
        match target_index(ts, goal.name) {
            Some(g) => ts[g] == goal ==> chain_model(ts, goal).len() <= total_cmds(ts),
            None => true,
        },
{
    let ord = chain_order(ts, goal);
    law_at_most_once(ts, goal);
    lemma_blocks_len(ts, ord);
    lemma_order_cmds_bound(ts, ord);
    lemma_index_from_range(ts, goal.name, 0);
    match target_index(ts, goal.name) {
        Some(g) => {
            if ts[g] == goal {
                let ord2 = ord.push(g);
                assert(ord2.drop_last() =~= ord);
                assert forall|a: int, b: int| 0 <= a < ord2.len() && 0 <= b < ord2.len() && a != b implies ord2[a]
                    != ord2[b] by {
                    if a == ord.len() {
                        assert(ord2[b] == ord[b]);
                    } else if b == ord.len() {
                        assert(ord2[a] == ord[a]);
                    } else {
                        assert(ord2[a] == ord[a]);
                        assert(ord2[b] == ord[b]);
                    }
                }
                assert forall|p: int| 0 <= p < ord2.len() implies 0 <= #[trigger] ord2[p] < ts.len() by {
                    if p < ord.len() {
                        assert(ord2[p] == ord[p]);
                    }
                }
                lemma_order_cmds_bound(ts, ord2);
            }
        },
        None => {},
    }
}

/// `rank` orders the targets so that every dependency that names a target
/// ranks below the target that has it: the dependencies have no cycle.
pub open spec fn ranked(ts: Seq<TargetModel>, rank: Seq<int>) -> bool {
    &&& rank.len() == ts.len()
    &&& forall|t: int, x: int|
        #![trigger ts[t].deps[x]]
        0 <= t < ts.len() && 0 <= x < ts[t].deps.len() ==> match target_index(ts, ts[t].deps[x]) {
            Some(k) => rank[k] < rank[t],
            None => true,
        }
}

/// Each dependency that names a target, of each target in `ord`, is in
/// `done` or comes earlier in `ord`.
pub open spec fn deps_before(ts: Seq<TargetModel>, ord: Seq<int>, done: Set<int>) -> bool {
    forall|p: int, x: int|
        #![trigger ts[ord[p]].deps[x]]
        0 <= p < ord.len() && 0 <= x < ts[ord[p]].deps.len() ==> match target_index(ts, ts[ord[p]].deps[x]) {
            Some(k) => done.contains(k) || exists|q: int| 0 <= q < p && ord[q] == k,
            None => true,
        }
}

/// Every target marked but not in `done` ranks above each target that
/// `deps[i..]` names.
pub open spec fn marked_outrank(
    ts: Seq<TargetModel>,
    deps: Seq<Seq<char>>,
    i: int,
    seen: Seq<bool>,
    done: Set<int>,
    rank: Seq<int>,
) -> bool {
    forall|x: int, j: int|
        #![trigger target_index(ts, deps[x]), seen[j]]
        i <= x < deps.len() && 0 <= j < ts.len() && seen[j] && !done.contains(j) ==> match target_index(
            ts,
            deps[x],
        ) {
            Some(k) => rank[j] > rank[k],
            None => true,
        }
}

pub proof fn lemma_walk_post_order(
    ts: Seq<TargetModel>,
    deps: Seq<Seq<char>>,
    i: int,
    seen: Seq<bool>,
    done: Set<int>,
    rank: Seq<int>,
)
    requires
        seen.len() == ts.len(),
        0 <= i,
        ranked(ts, rank),
        marked_outrank(ts, deps, i, seen, done, rank),
    ensures
        deps_before(ts, walk(ts, deps, i, seen).1, done),
    decreases count_false(seen), deps.len() - i,
{
    let (out, ord, after) = walk(ts, deps, i, seen);
    lemma_walk(ts, deps, i, seen);
    if i >= deps.len() {
        return;
    }
    lemma_index_from_range(ts, deps[i], 0);
    match target_index(ts, deps[i]) {
        Some(k) => {
            if !seen[k] {
                let s1 = seen.update(k, true);
                lemma_count_false_update(seen, k);
                lemma_walk(ts, ts[k].deps, 0, s1);
                let inner = walk(ts, ts[k].deps, 0, s1);
                let n1 = inner.1.len();
                assert forall|x: int, j: int|
                    #![trigger target_index(ts, ts[k].deps[x]), s1[j]]
                    0 <= x < ts[k].deps.len() && 0 <= j < ts.len() && s1[j] && !done.contains(j) implies match
                    target_index(ts, ts[k].deps[x]) {
                    Some(k2) => rank[j] > rank[k2],
                    None => true,
                } by {
                    let _ = ts[k].deps[x];
                    if j != k {
                        assert(seen[j]);
                        let _ = target_index(ts, deps[i]);
                    }
                }
                lemma_walk_post_order(ts, ts[k].deps, 0, s1, done, rank);
                let done2 = done.union(inner.1.to_set()).insert(k);
                lemma_walk(ts, deps, i + 1, inner.2);
                let rest = walk(ts, deps, i + 1, inner.2);
                assert forall|x: int, j: int|
                    #![trigger target_index(ts, deps[x]), inner.2[j]]
                    i + 1 <= x < deps.len() && 0 <= j < ts.len() && inner.2[j] && !done2.contains(j) implies match
                    target_index(ts, deps[x]) {
                    Some(k2) => rank[j] > rank[k2],
                    None => true,
                } by {
                    if !s1[j] {
                        assert(inner.1.contains(j));
                        assert(inner.1.to_set().contains(j));
                    }
                    assert(seen[j]);
                }
                lemma_walk_post_order(ts, deps, i + 1, inner.2, done2, rank);
                assert(ord == inner.1.push(k) + rest.1);
                assert forall|p: int, x: int|
                    0 <= p < ord.len() && 0 <= x < ts[ord[p]].deps.len() implies match target_index(
                    ts,
                    #[trigger] ts[ord[p]].deps[x],
                ) {
                    Some(k2) => done.contains(k2) || exists|q: int| 0 <= q < p && ord[q] == k2,
                    None => true,
                } by {
                    lemma_index_from_range(ts, ts[ord[p]].deps[x], 0);
                    if p < n1 {
                        assert(ord[p] == inner.1[p]);
                        let _ = ts[inner.1[p]].deps[x];
                        match target_index(ts, ts[ord[p]].deps[x]) {
                            Some(k2) => {
                                if !done.contains(k2) {
                                    let q = choose|q: int| 0 <= q < p && inner.1[q] == k2;
                                    assert(ord[q] == k2);
                                }
                            },
                            None => {},
                        }
                    } else if p == n1 {
                        assert(ord[p] == k);
                        let _ = ts[k].deps[x];
                        match target_index(ts, ts[k].deps[x]) {
                            Some(k2) => {
                                assert(rank[k2] < rank[k]);
                                assert(inner.2[k2]);
                                if !s1[k2] {
                                    assert(inner.1.contains(k2));
                                    let q = choose|q: int| 0 <= q < inner.1.len() && inner.1[q] == k2;
                                    assert(ord[q] == k2);
                                } else if !done.contains(k2) {
                                    assert(seen[k2]);
                                    let _ = target_index(ts, deps[i]);
                                    assert(rank[k2] > rank[k]);
                                }
                            },
                            None => {},
                        }
                    } else {
                        let r = p - n1 - 1;
                        assert(ord[p] == rest.1[r]);
                        let _ = ts[rest.1[r]].deps[x];
                        match target_index(ts, ts[ord[p]].deps[x]) {
                            Some(k2) => {
                                if !done.contains(k2) {
                                    if done2.contains(k2) {
                                        if k2 == k {
                                            assert(ord[n1 as int] == k2);
                                        } else {
                                            assert(inner.1.to_set().contains(k2));
                                            let q = choose|q: int| 0 <= q < inner.1.len() && inner.1[q] == k2;
                                            assert(ord[q] == k2);
                                        }
                                    } else {
                                        let q = choose|q: int| 0 <= q < r && rest.1[q] == k2;
                                        assert(ord[q + n1 + 1] == k2);
                                    }
                                }
                            },
                            None => {},
                        }
                    }
                }
            } else {
                lemma_walk_post_order(ts, deps, i + 1, seen, done, rank);
            }
        },
        None => {
            lemma_walk_post_order(ts, deps, i + 1, seen, done, rank);
        },
    }
}

/// Target `t` names the target `k` among its dependencies.
pub open spec fn dep_edge(ts: Seq<TargetModel>, t: int, k: int) -> bool {
    exists|x: int| 0 <= x < ts[t].deps.len() && target_index(ts, ts[t].deps[x]) == Some(k)
}

/// `path` goes from target to target along dependencies.
pub open spec fn is_dep_path(ts: Seq<TargetModel>, path: Seq<int>) -> bool {
    path.len() >= 1 && forall|i: int| 0 <= i < path.len() - 1 ==> #[trigger] dep_edge(ts, path[i], path[i + 1])
}

/// Target `b` can be reached from target `a` through dependencies.
pub open spec fn reaches(ts: Seq<TargetModel>, a: int, b: int) -> bool {
    exists|path: Seq<int>| #[trigger] is_dep_path(ts, path) && path[0] == a && path.last() == b
}

pub proof fn lemma_reach_refl(ts: Seq<TargetModel>, a: int)
    ensures
        reaches(ts, a, a),
{
    let path = seq![a];
    assert(is_dep_path(ts, path));
}

pub proof fn lemma_reach_extend(ts: Seq<TargetModel>, a: int, c: int, k: int)
    requires
        reaches(ts, a, c),
        dep_edge(ts, c, k),
    ensures
        reaches(ts, a, k),
{
    let path = choose|path: Seq<int>| #[trigger] is_dep_path(ts, path) && path[0] == a && path.last() == c;
    let p2 = path.push(k);
    assert forall|i: int| 0 <= i < p2.len() - 1 implies #[trigger] dep_edge(ts, p2[i], p2[i + 1]) by {
        if i < path.len() - 1 {
            assert(p2[i] == path[i] && p2[i + 1] == path[i + 1]);
        } else {
            assert(p2[i] == c && p2[i + 1] == k);
        }
    }
    assert(is_dep_path(ts, p2) && p2[0] == a && p2.last() == k);
}

/// Each dependency that names a target, of each target in `ord`, is in
/// `done`, comes earlier in `ord`, or reaches that target again through
/// dependencies.
pub open spec fn deps_before_or_reached(ts: Seq<TargetModel>, ord: Seq<int>, done: Set<int>) -> bool {
    forall|p: int, x: int|
        #![trigger ts[ord[p]].deps[x]]
        0 <= p < ord.len() && 0 <= x < ts[ord[p]].deps.len() ==> match target_index(ts, ts[ord[p]].deps[x]) {
            Some(k) => done.contains(k) || (exists|q: int| 0 <= q < p && ord[q] == k) || reaches(ts, k, ord[p]),
            None => true,
        }
}

/// Each target that `deps[i..]` names can be reached from every target
/// marked but not in `done`.
pub open spec fn marked_reach(ts: Seq<TargetModel>, deps: Seq<Seq<char>>, i: int, seen: Seq<bool>, done: Set<int>) -> bool {
    forall|x: int, j: int|
        #![trigger target_index(ts, deps[x]), seen[j]]
        i <= x < deps.len() && 0 <= j < ts.len() && seen[j] && !done.contains(j) ==> match target_index(
            ts,
            deps[x],
        ) {
            Some(k) => reaches(ts, j, k),
            None => true,
        }
}

pub proof fn lemma_walk_post_order_reach(
    ts: Seq<TargetModel>,
    deps: Seq<Seq<char>>,
    i: int,
    seen: Seq<bool>,
    done: Set<int>,
)
    requires
        seen.len() == ts.len(),
        0 <= i,
        marked_reach(ts, deps, i, seen, done),
    ensures
        deps_before_or_reached(ts, walk(ts, deps, i, seen).1, done),
    decreases count_false(seen), deps.len() - i,
{
    let (out, ord, after) = walk(ts, deps, i, seen);
    lemma_walk(ts, deps, i, seen);
    if i >= deps.len() {
        return;
    }
    lemma_index_from_range(ts, deps[i], 0);
    match target_index(ts, deps[i]) {
        Some(k) => {
            if !seen[k] {
                let s1 = seen.update(k, true);
                lemma_count_false_update(seen, k);
                lemma_walk(ts, ts[k].deps, 0, s1);
                let inner = walk(ts, ts[k].deps, 0, s1);
                let n1 = inner.1.len();
                assert forall|x: int, j: int|
                    #![trigger target_index(ts, ts[k].deps[x]), s1[j]]
                    0 <= x < ts[k].deps.len() && 0 <= j < ts.len() && s1[j] && !done.contains(j) implies match
                    target_index(ts, ts[k].deps[x]) {
                    Some(k2) => reaches(ts, j, k2),
                    None => true,
                } by {
                    match target_index(ts, ts[k].deps[x]) {
                        Some(k2) => {
                            assert(dep_edge(ts, k, k2));
                            if j != k {
                                assert(seen[j]);
                                let _ = target_index(ts, deps[i]);
                                lemma_reach_extend(ts, j, k, k2);
                            } else {
                                lemma_reach_refl(ts, k);
                                lemma_reach_extend(ts, k, k, k2);
                            }
                        },
                        None => {},
                    }
                }
                lemma_walk_post_order_reach(ts, ts[k].deps, 0, s1, done);
                let done2 = done.union(inner.1.to_set()).insert(k);
                lemma_walk(ts, deps, i + 1, inner.2);
                let rest = walk(ts, deps, i + 1, inner.2);
                assert forall|x: int, j: int|
                    #![trigger target_index(ts, deps[x]), inner.2[j]]
                    i + 1 <= x < deps.len() && 0 <= j < ts.len() && inner.2[j] && !done2.contains(j) implies match
                    target_index(ts, deps[x]) {
                    Some(k2) => reaches(ts, j, k2),
                    None => true,
                } by {
                    if !s1[j] {
                        assert(inner.1.contains(j));
                        assert(inner.1.to_set().contains(j));
                    }
                    assert(seen[j]);
                }
                lemma_walk_post_order_reach(ts, deps, i + 1, inner.2, done2);
                assert(ord == inner.1.push(k) + rest.1);
                assert forall|p: int, x: int|
                    0 <= p < ord.len() && 0 <= x < ts[ord[p]].deps.len() implies match target_index(
                    ts,
                    #[trigger] ts[ord[p]].deps[x],
                ) {
                    Some(k2) => done.contains(k2) || (exists|q: int| 0 <= q < p && ord[q] == k2) || reaches(
                        ts,
                        k2,
                        ord[p],
                    ),
                    None => true,
                } by {
                    lemma_index_from_range(ts, ts[ord[p]].deps[x], 0);
                    if p < n1 {
                        assert(ord[p] == inner.1[p]);
                        let _ = ts[inner.1[p]].deps[x];
                        match target_index(ts, ts[ord[p]].deps[x]) {
                            Some(k2) => {
                                if !done.contains(k2) && exists|q: int| 0 <= q < p && inner.1[q] == k2 {
                                    let q = choose|q: int| 0 <= q < p && inner.1[q] == k2;
                                    assert(ord[q] == k2);
                                }
                            },
                            None => {},
                        }
                    } else if p == n1 {
                        assert(ord[p] == k);
                        let _ = ts[k].deps[x];
                        match target_index(ts, ts[k].deps[x]) {
                            Some(k2) => {
                                assert(inner.2[k2]);
                                if !s1[k2] {
                                    assert(inner.1.contains(k2));
                                    let q = choose|q: int| 0 <= q < inner.1.len() && inner.1[q] == k2;
                                    assert(ord[q] == k2);
                                } else if !done.contains(k2) {
                                    if k2 == k {
                                        lemma_reach_refl(ts, k);
                                    } else {
                                        assert(seen[k2]);
                                        let _ = target_index(ts, deps[i]);
                                        assert(reaches(ts, k2, k));
                                    }
                                }
                            },
                            None => {},
                        }
                    } else {
                        let r = p - n1 - 1;
                        assert(ord[p] == rest.1[r]);
                        let _ = ts[rest.1[r]].deps[x];
                        match target_index(ts, ts[ord[p]].deps[x]) {
                            Some(k2) => {
                                if !done.contains(k2) {
                                    if done2.contains(k2) {
                                        if k2 == k {
                                            assert(ord[n1 as int] == k2);
                                        } else {
                                            assert(inner.1.to_set().contains(k2));
                                            let q = choose|q: int| 0 <= q < inner.1.len() && inner.1[q] == k2;
                                            assert(ord[q] == k2);
                                        }
                                    } else if exists|q: int| 0 <= q < r && rest.1[q] == k2 {
                                        let q = choose|q: int| 0 <= q < r && rest.1[q] == k2;
                                        assert(ord[q + n1 + 1] == k2);
                                    }
                                }
                            },
                            None => {},
                        }
                    }
                }
            } else {
                lemma_walk_post_order_reach(ts, deps, i + 1, seen, done);
            }
        },
        None => {
            lemma_walk_post_order_reach(ts, deps, i + 1, seen, done);
        },
    }
}

/// In any build, cycles included, every dependency of every target in a
/// goal's chain that names a target has its commands emitted before that
/// target's, unless that target can be reached from it again through
/// dependencies.
pub proof fn law_post_order_unless_cycle(ts: Seq<TargetModel>, goal: TargetModel)
    requires
        match target_index(ts, goal.name) {
            Some(g) => ts[g] == goal,
            None => true,
        },
    ensures
        deps_before_or_reached(ts, chain_order(ts, goal), Set::empty()),
{
    let s0 = initial_seen(ts, goal.name);
    lemma_index_from_range(ts, goal.name, 0);
    assert forall|x: int, j: int|
        #![trigger target_index(ts, goal.deps[x]), s0[j]]
        0 <= x < goal.deps.len() && 0 <= j < ts.len() && s0[j] && !Set::<int>::empty().contains(j) implies match
        target_index(ts, goal.deps[x]) {
        Some(k) => reaches(ts, j, k),
        None => true,
    } by {
        match target_index(ts, goal.name) {
            Some(g) => {
                assert(j == g);
                match target_index(ts, goal.deps[x]) {
                    Some(k) => {
                        assert(ts[g].deps[x] == goal.deps[x]);
                        assert(dep_edge(ts, g, k));
                        lemma_reach_refl(ts, g);
                        lemma_reach_extend(ts, g, g, k);
                    },
                    None => {},
                }
            },
            None => {},
        }
    }
    lemma_walk_post_order_reach(ts, goal.deps, 0, s0, Set::empty());
}

/// In a build whose dependencies have no cycle, every dependency of every
/// target in a goal's chain that names a target has its commands emitted
/// before that target's; the goal's own come last.
pub proof fn law_post_order(ts: Seq<TargetModel>, goal: TargetModel, rank: Seq<int>)
    requires
        ranked(ts, rank),
        match target_index(ts, goal.name) {
            Some(g) => ts[g] == goal,
            None => true,
        },
    ensures
        deps_before(ts, chain_order(ts, goal), Set::empty()),
        chain_model(ts, goal) == blocks(ts, chain_order(ts, goal)) + goal.cmds,
{
    let s0 = initial_seen(ts, goal.name);
    lemma_index_from_range(ts, goal.name, 0);
    lemma_walk(ts, goal.deps, 0, s0);
    assert forall|x: int, j: int|
        #![trigger target_index(ts, goal.deps[x]), s0[j]]
        0 <= x < goal.deps.len() && 0 <= j < ts.len() && s0[j] && !Set::<int>::empty().contains(j) implies match
        target_index(ts, goal.deps[x]) {
        Some(k) => rank[j] > rank[k],
        None => true,
    } by {
        match target_index(ts, goal.name) {
            Some(g) => {
                assert(j == g);
                let _ = ts[g].deps[x];
            },
            None => {},
        }
    }
    lemma_walk_post_order(ts, goal.deps, 0, s0, Set::empty(), rank);
}

impl RMake {
    /// The index of the target named `name`.
    pub fn find_target(&self, name: &String) -> (r: Option<usize>)
        ensures
            match r {
                Some(k) => k < self.targets.len() && target_index(self@.targets, name@) == Some(k as int),
                None => target_index(self@.targets, name@) is None,
            },
    {
        target_position(&self.targets, name)
    }

    /// Appends to `out` the commands of the walk over `deps[i..]`.
    fn walk_deps(&self, deps: &Vec<String>, i: usize, seen: &mut Vec<bool>, out: &mut Vec<String>)
        requires
            i <= deps.len(),
            old(seen).len() == self.targets.len(),
        ensures
            final(seen).len() == self.targets.len(),
            count_false(final(seen)@) <= count_false(old(seen)@),
            final(seen)@ == walk(self@.targets, strings_view(deps@), i as int, old(seen)@).2,
            strings_view(final(out)@) == strings_view(old(out)@) + walk(
                self@.targets,
                strings_view(deps@),
                i as int,
                old(seen)@,
            ).0,
        decreases count_false(seen@), deps.len() - i,
    {
        let ghost ts = self@.targets;
        let ghost ds = strings_view(deps@);
        if i >= deps.len() {
            assert(strings_view(out@) =~= strings_view(out@) + seq![]);
            return;
        }
        let found = self.find_target(&deps[i]);
        match found {
            Some(k) => {
                if !seen[k] {
                    let ghost s0 = seen@;
                    let ghost o0 = strings_view(out@);
                    proof {
                        lemma_count_false_update(seen@, k as int);
                    }
                    seen.set(k, true);
                    let tgt = &self.targets[k];
                    self.walk_deps(&tgt.deps, 0, seen, out);
                    append_all(out, &tgt.cmds);
                    self.walk_deps(deps, i + 1, seen, out);
                    assert(strings_view(out@) =~= o0 + walk(ts, ds, i as int, s0).0);
                } else {
                    self.walk_deps(deps, i + 1, seen, out);
                }
            },
            None => {
                self.walk_deps(deps, i + 1, seen, out);
            },
        }
    }

    /// The commands to run for `main_target`: those of its dependencies,
    /// reached depth first and each target at most once, each before the
    /// target that reached it, then its own.
    pub fn chain_commands(&self, main_target: RMakeTarget) -> (r: Vec<String>)
        ensures
            strings_view(r@) == chain_model(self@.targets, main_target@),
    {
        let mut seen: Vec<bool> = Vec::new();
        let mut j: usize = 0;
        while j < self.targets.len()
            invariant
                j <= self.targets.len(),
                seen@ == Seq::new(j as nat, |x: int| false),
            decreases self.targets.len() - j,
        {
            seen.push(false);
            j = j + 1;
            assert(seen@ =~= Seq::new(j as nat, |x: int| false));
        }
        match self.find_target(&main_target.name) {
            Some(g) => {
                seen.set(g, true);
            },
            None => {},
        }
        assert(seen@ =~= initial_seen(self@.targets, main_target@.name));
        let mut out: Vec<String> = Vec::new();
        self.walk_deps(&main_target.deps, 0, &mut seen, &mut out);
        append_all(&mut out, &main_target.cmds);
        out
    }
}

} // verus!
