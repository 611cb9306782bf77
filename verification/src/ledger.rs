use vstd::prelude::*;
use vstd::seq_lib::*;
use vstd::multiset::Multiset;
use vstd::pervasive::VecAdditionalExecFns;
use crate::result::{ExecResult, spec_score_lt, score_lt};

verus! {

/// First index in `s` whose entry carries `seed`, or `-1` when none does.
pub open spec fn find_seed(s: Seq<ExecResult>, seed: u64) -> int
    decreases s.len(),
{
    if s.len() == 0 {
        -1
    } else if s[0].seed == seed {
        0
    } else {
        let t = find_seed(s.skip(1), seed);
        if t == -1 {
            -1
        } else {
            t + 1
        }
    }
}

/// Folding one run result into the ledger: a missing seed is appended, an
/// existing entry is replaced exactly when the new raw score is strictly
/// greater (in key order) than the stored one.
pub open spec fn merge_one(acc: Seq<ExecResult>, r: ExecResult) -> Seq<ExecResult> {
    let k = find_seed(acc, r.seed);
    if k == -1 {
        acc.push(r)
    } else if spec_score_lt(acc[k].score, r.score) {
        acc.update(k, r)
    } else {
        acc
    }
}

/// All results of a run folded into the ledger, in file order.
pub open spec fn merge_all(acc: Seq<ExecResult>, rs: Seq<ExecResult>) -> Seq<ExecResult>
    decreases rs.len(),
{
    if rs.len() == 0 {
        acc
    } else {
        merge_all(merge_one(acc, rs[0]), rs.skip(1))
    }
}

/// Stable insertion of `x` into a ledger already ascending by seed: `x` goes
/// after every entry whose seed is not above its own.
pub open spec fn insert_sorted(t: Seq<ExecResult>, x: ExecResult) -> Seq<ExecResult>
    decreases t.len(),
{
    if t.len() == 0 {
        seq![x]
    } else if x.seed < t.last().seed {
        insert_sorted(t.drop_last(), x).push(t.last())
    } else {
        t.push(x)
    }
}

/// Stable sort of the ledger, ascending by seed.
pub open spec fn sort_by_seed(s: Seq<ExecResult>) -> Seq<ExecResult>
    decreases s.len(),
{
    if s.len() == 0 {
        Seq::empty()
    } else {
        insert_sorted(sort_by_seed(s.drop_last()), s.last())
    }
}

/// The whole merge step: fold the run's results into the ledger, then
/// rewrite it ascending by seed.
pub open spec fn merge_spec(bests: Seq<ExecResult>, rs: Seq<ExecResult>) -> Seq<ExecResult> {
    sort_by_seed(merge_all(bests, rs))
}

pub open spec fn sorted_by_seed(s: Seq<ExecResult>) -> bool {
    forall|i: int, j: int| 0 <= i < j < s.len() ==> s[i].seed <= s[j].seed
}

pub open spec fn unique_seeds(s: Seq<ExecResult>) -> bool {
    forall|i: int, j: int| 0 <= i < j < s.len() ==> s[i].seed != s[j].seed
}

proof fn lemma_find_seed_props(s: Seq<ExecResult>, seed: u64)
    ensures
        find_seed(s, seed) >= -1,
        find_seed(s, seed) == -1 ==> forall|k: int| 0 <= k < s.len() ==> s[k].seed != seed,
        find_seed(s, seed) != -1 ==> 0 <= find_seed(s, seed) < s.len() && s[find_seed(
            s,
            seed,
        )].seed == seed && forall|k: int| 0 <= k < find_seed(s, seed) ==> s[k].seed != seed,
    decreases s.len(),
{
    if s.len() > 0 && s[0].seed != seed {
        let t = find_seed(s.skip(1), seed);
        lemma_find_seed_props(s.skip(1), seed);
        if t != -1 {
            assert(s.skip(1)[t] == s[t + 1]);
            assert forall|k: int| 0 <= k < find_seed(s, seed) implies s[k].seed != seed by {
                if k > 0 {
                    assert(s.skip(1)[k - 1] == s[k]);
                }
            }
        }
        assert forall|k: int| 0 <= k < s.len() && s[k].seed == seed implies find_seed(s, seed)
            != -1 by {
            if k > 0 {
                assert(s.skip(1)[k - 1].seed == seed);
            }
        }
    }
}

/// `find_seed` looks only at the seeds, so sequences with equal seeds agree.
proof fn lemma_find_seed_same_seeds(s1: Seq<ExecResult>, s2: Seq<ExecResult>, seed: u64)
    requires
        s1.len() == s2.len(),
        forall|k: int| 0 <= k < s1.len() ==> s1[k].seed == s2[k].seed,
    ensures
        find_seed(s1, seed) == find_seed(s2, seed),
    decreases s1.len(),
{
    if s1.len() > 0 {
        assert forall|k: int| 0 <= k < s1.skip(1).len() implies s1.skip(1)[k].seed == s2.skip(
            1,
        )[k].seed by {
            assert(s1.skip(1)[k] == s1[k + 1]);
        }
        lemma_find_seed_same_seeds(s1.skip(1), s2.skip(1), seed);
    }
}

proof fn lemma_find_seed_push(s: Seq<ExecResult>, x: ExecResult, seed: u64)
    ensures
        find_seed(s, seed) != -1 ==> find_seed(s.push(x), seed) == find_seed(s, seed),
        find_seed(s, seed) == -1 && x.seed == seed ==> find_seed(s.push(x), seed) == s.len(),
        find_seed(s, seed) == -1 && x.seed != seed ==> find_seed(s.push(x), seed) == -1,
    decreases s.len(),
{
    if s.len() == 0 {
        assert(s.push(x)[0] == x);
        assert(s.push(x).skip(1) =~= s);
    } else {
        assert(s.push(x)[0] == s[0]);
        assert(s.push(x).skip(1) =~= s.skip(1).push(x));
        lemma_find_seed_props(s.skip(1), seed);
        lemma_find_seed_push(s.skip(1), x, seed);
    }
}

/// Whether the ledger already answers result `r`: its seed is present and
/// the stored score is not strictly below the result's score.
spec fn settled(acc: Seq<ExecResult>, r: ExecResult) -> bool {
    let k = find_seed(acc, r.seed);
    k != -1 && !spec_score_lt(acc[k].score, r.score)
}

proof fn lemma_merge_one_settles(acc: Seq<ExecResult>, r: ExecResult)
    ensures
        settled(merge_one(acc, r), r),
{
    let k = find_seed(acc, r.seed);
    lemma_find_seed_props(acc, r.seed);
    if k == -1 {
        lemma_find_seed_push(acc, r, r.seed);
        assert(acc.push(r)[acc.len() as int] == r);
    } else if spec_score_lt(acc[k].score, r.score) {
        let acc2 = acc.update(k, r);
        assert(acc2[k].seed == r.seed);
        lemma_find_seed_same_seeds(acc2, acc, r.seed);
    }
}

proof fn lemma_merge_one_keeps_settled(acc: Seq<ExecResult>, r: ExecResult, r2: ExecResult)
    requires
        settled(acc, r2),
    ensures
        settled(merge_one(acc, r), r2),
{
    let k = find_seed(acc, r.seed);
    let k2 = find_seed(acc, r2.seed);
    lemma_find_seed_props(acc, r.seed);
    lemma_find_seed_props(acc, r2.seed);
    if k == -1 {
        lemma_find_seed_push(acc, r, r2.seed);
    } else if spec_score_lt(acc[k].score, r.score) {
        let acc2 = acc.update(k, r);
        assert(acc2[k].seed == r.seed);
        lemma_find_seed_same_seeds(acc2, acc, r2.seed);
        if r2.seed != r.seed {
            assert(acc2[k2] == acc[k2]);
        }
    }
}

proof fn lemma_merge_all_keeps_settled(acc: Seq<ExecResult>, rs: Seq<ExecResult>, r2: ExecResult)
    requires
        settled(acc, r2),
    ensures
        settled(merge_all(acc, rs), r2),
    decreases rs.len(),
{
    if rs.len() > 0 {
        lemma_merge_one_keeps_settled(acc, rs[0], r2);
        lemma_merge_all_keeps_settled(merge_one(acc, rs[0]), rs.skip(1), r2);
    }
}

proof fn lemma_merge_all_settles(acc: Seq<ExecResult>, rs: Seq<ExecResult>)
    ensures
        forall|i: int| 0 <= i < rs.len() ==> settled(merge_all(acc, rs), #[trigger] rs[i]),
    decreases rs.len(),
{
    if rs.len() > 0 {
        let acc1 = merge_one(acc, rs[0]);
        lemma_merge_one_settles(acc, rs[0]);
        lemma_merge_all_keeps_settled(acc1, rs.skip(1), rs[0]);
        lemma_merge_all_settles(acc1, rs.skip(1));
        assert forall|i: int| 0 <= i < rs.len() implies settled(
            merge_all(acc, rs),
            #[trigger] rs[i],
        ) by {
            if i > 0 {
                assert(rs.skip(1)[i - 1] == rs[i]);
            }
        }
    }
}

proof fn lemma_merge_one_unique(acc: Seq<ExecResult>, r: ExecResult)
    requires
        unique_seeds(acc),
    ensures
        unique_seeds(merge_one(acc, r)),
{
    let k = find_seed(acc, r.seed);
    lemma_find_seed_props(acc, r.seed);
    if k == -1 {
        let acc2 = acc.push(r);
        assert forall|i: int, j: int| 0 <= i < j < acc2.len() implies acc2[i].seed
            != acc2[j].seed by {
            if j == acc.len() {
                assert(acc2[i] == acc[i]);
            }
        }
    } else if spec_score_lt(acc[k].score, r.score) {
        let acc2 = acc.update(k, r);
        assert forall|i: int, j: int| 0 <= i < j < acc2.len() implies acc2[i].seed
            != acc2[j].seed by {
            assert(acc2[i].seed == acc[i].seed);
            assert(acc2[j].seed == acc[j].seed);
        }
    }
}

proof fn lemma_merge_all_unique(acc: Seq<ExecResult>, rs: Seq<ExecResult>)
    requires
        unique_seeds(acc),
    ensures
        unique_seeds(merge_all(acc, rs)),
    decreases rs.len(),
{
    if rs.len() > 0 {
        lemma_merge_one_unique(acc, rs[0]);
        lemma_merge_all_unique(merge_one(acc, rs[0]), rs.skip(1));
    }
}

proof fn lemma_insert_sorted_multiset(t: Seq<ExecResult>, x: ExecResult)
    ensures
        insert_sorted(t, x).to_multiset() =~= t.to_multiset().insert(x),
    decreases t.len(),
{
    broadcast use vstd::seq_lib::group_to_multiset_ensures;
    broadcast use vstd::multiset::group_multiset_axioms;

    if t.len() == 0 {
        assert(seq![x] =~= Seq::<ExecResult>::empty().push(x));
        assert(Seq::<ExecResult>::empty().to_multiset() =~= Multiset::<ExecResult>::empty());
    } else if x.seed < t.last().seed {
        lemma_insert_sorted_multiset(t.drop_last(), x);
        assert(t =~= t.drop_last().push(t.last()));
    }
}

proof fn lemma_insert_sorted_sorted(t: Seq<ExecResult>, x: ExecResult)
    requires
        sorted_by_seed(t),
    ensures
        sorted_by_seed(insert_sorted(t, x)),
    decreases t.len(),
{
    if t.len() == 0 {
    } else if x.seed < t.last().seed {
        assert forall|i: int, j: int| 0 <= i < j < t.drop_last().len() implies t.drop_last()[i].seed
            <= t.drop_last()[j].seed by {
            assert(t.drop_last()[i] == t[i]);
        }
        lemma_insert_sorted_sorted(t.drop_last(), x);
        let u = insert_sorted(t.drop_last(), x);
        lemma_insert_sorted_multiset(t.drop_last(), x);
        broadcast use vstd::seq_lib::group_to_multiset_ensures;
        broadcast use vstd::multiset::group_multiset_axioms;

        assert forall|i: int| 0 <= i < u.len() implies u[i].seed <= t.last().seed by {
            assert(u.to_multiset().count(u[i]) > 0);
            if u[i] != x {
                assert(t.drop_last().to_multiset().count(u[i]) > 0);
                assert(t.drop_last().contains(u[i]));
                let w = choose|w: int| 0 <= w < t.drop_last().len() && t.drop_last()[w] == u[i];
                assert(t[w].seed <= t.last().seed);
            }
        }
    }
}

/// A ledger already ascending by seed sorts to itself.
proof fn lemma_sort_of_sorted(s: Seq<ExecResult>)
    requires
        sorted_by_seed(s),
    ensures
        sort_by_seed(s) == s,
    decreases s.len(),
{
    if s.len() > 0 {
        assert forall|i: int, j: int| 0 <= i < j < s.drop_last().len() implies s.drop_last()[i].seed
            <= s.drop_last()[j].seed by {
            assert(s.drop_last()[i] == s[i]);
        }
        lemma_sort_of_sorted(s.drop_last());
        if s.len() == 1 {
            assert(sort_by_seed(s) =~= s);
        } else {
            assert(s.drop_last().last().seed <= s.last().seed);
            assert(sort_by_seed(s) == s.drop_last().push(s.last()));
            assert(s.drop_last().push(s.last()) =~= s);
        }
    }
}

proof fn lemma_sort_sorted(s: Seq<ExecResult>)
    ensures
        sorted_by_seed(sort_by_seed(s)),
        sort_by_seed(s).to_multiset() =~= s.to_multiset(),
    decreases s.len(),
{
    broadcast use vstd::seq_lib::group_to_multiset_ensures;
    broadcast use vstd::multiset::group_multiset_axioms;

    if s.len() == 0 {
    } else {
        lemma_sort_sorted(s.drop_last());
        lemma_insert_sorted_sorted(sort_by_seed(s.drop_last()), s.last());
        lemma_insert_sorted_multiset(sort_by_seed(s.drop_last()), s.last());
        assert(s =~= s.drop_last().push(s.last()));
    }
}

proof fn lemma_dup_count2(s: Seq<ExecResult>, i: int, j: int)
    requires
        0 <= i < j < s.len(),
        s[i] == s[j],
    ensures
        s.to_multiset().count(s[i]) >= 2,
{
    broadcast use vstd::seq_lib::group_to_multiset_ensures;
    broadcast use vstd::multiset::group_multiset_axioms;

    s.to_multiset_ensures();
    let s2 = s.remove(i);
    s2.to_multiset_ensures();
    assert(s2[j - 1] == s[j]);
    assert(s2.contains(s[j]));
    assert(s2.to_multiset().count(s[j]) > 0);
    assert(s.contains(s[i]));
    assert(s.to_multiset().count(s[i]) > 0);
    assert(s2.to_multiset() =~= s.to_multiset().remove(s[i]));
}

/// A permutation of a ledger with unique seeds has unique seeds too.
proof fn lemma_unique_permutation(s: Seq<ExecResult>, t: Seq<ExecResult>)
    requires
        unique_seeds(s),
        t.to_multiset() =~= s.to_multiset(),
    ensures
        unique_seeds(t),
{
    broadcast use vstd::seq_lib::group_to_multiset_ensures;
    broadcast use vstd::multiset::group_multiset_axioms;

    s.to_multiset_ensures();
    t.to_multiset_ensures();
    assert forall|i: int, j: int| 0 <= i < j < t.len() implies t[i].seed != t[j].seed by {
        if t[i] == t[j] {
            lemma_dup_count2(t, i, j);
            assert(s.to_multiset().count(t[i]) >= 2);
            assert(s.contains(t[i]));
            let a = choose|a: int| 0 <= a < s.len() && s[a] == t[i];
            lemma_dup_count2_converse(s, a, t[i]);
        } else {
            if t[i].seed == t[j].seed {
                assert(t.contains(t[i]));
                assert(t.contains(t[j]));
                assert(s.to_multiset().count(t[i]) > 0);
                assert(s.to_multiset().count(t[j]) > 0);
                assert(s.contains(t[i]));
                assert(s.contains(t[j]));
                let a = choose|a: int| 0 <= a < s.len() && s[a] == t[i];
                let b = choose|b: int| 0 <= b < s.len() && s[b] == t[j];
                assert(a != b);
                assert(s[a].seed != s[b].seed);
            }
        }
    }
}

/// In a unique-seed ledger a value cannot occur twice.
proof fn lemma_dup_count2_converse(s: Seq<ExecResult>, a: int, x: ExecResult)
    requires
        unique_seeds(s),
        0 <= a < s.len(),
        s[a] == x,
    ensures
        s.to_multiset().count(x) == 1,
{
    broadcast use vstd::seq_lib::group_to_multiset_ensures;
    broadcast use vstd::multiset::group_multiset_axioms;

    s.to_multiset_ensures();
    let s2 = s.remove(a);
    s2.to_multiset_ensures();
    assert(s.contains(x));
    assert(s2.to_multiset() =~= s.to_multiset().remove(x));
    if s2.to_multiset().count(x) > 0 {
        assert(s2.contains(x));
        let b = choose|b: int| 0 <= b < s2.len() && s2[b] == x;
        if b < a {
            assert(s[b] == x);
            assert(s[b].seed != s[a].seed);
        } else {
            assert(s[b + 1] == x);
            assert(s[a].seed != s[b + 1].seed);
        }
    }
}

/// Being settled carries over to any permutation, provided seeds are unique.
proof fn lemma_settled_permutation(s: Seq<ExecResult>, t: Seq<ExecResult>, r: ExecResult)
    requires
        unique_seeds(s),
        t.to_multiset() =~= s.to_multiset(),
        settled(s, r),
    ensures
        settled(t, r),
{
    broadcast use vstd::seq_lib::group_to_multiset_ensures;
    broadcast use vstd::multiset::group_multiset_axioms;

    s.to_multiset_ensures();
    t.to_multiset_ensures();
    lemma_unique_permutation(s, t);
    lemma_find_seed_props(s, r.seed);
    lemma_find_seed_props(t, r.seed);
    let k = find_seed(s, r.seed);
    let e = s[k];
    assert(s.contains(e));
    assert(t.to_multiset().count(e) > 0);
    assert(t.contains(e));
    let m = choose|m: int| 0 <= m < t.len() && t[m] == e;
    let k2 = find_seed(t, r.seed);
    assert(k2 != -1);
    if k2 != m {
        assert(t[k2].seed != t[m].seed);
        assert(false);
    }
}

/// When every result is already settled, the fold changes nothing.
proof fn lemma_merge_all_settled_noop(acc: Seq<ExecResult>, rs: Seq<ExecResult>)
    requires
        forall|i: int| 0 <= i < rs.len() ==> settled(acc, #[trigger] rs[i]),
    ensures
        merge_all(acc, rs) == acc,
    decreases rs.len(),
{
    if rs.len() > 0 {
        assert(settled(acc, rs[0]));
        assert(merge_one(acc, rs[0]) == acc);
        assert forall|i: int| 0 <= i < rs.skip(1).len() implies settled(
            acc,
            #[trigger] rs.skip(1)[i],
        ) by {
            assert(rs.skip(1)[i] == rs[i + 1]);
        }
        lemma_merge_all_settled_noop(acc, rs.skip(1));
    }
}

/// Law (merge idempotence): merging a run's results into a ledger that was
/// already updated from that same run changes nothing. The ledger's seeds
/// must be unique, which every merged ledger's are.
pub proof fn lemma_merge_idempotent(bests: Seq<ExecResult>, rs: Seq<ExecResult>)
    requires
        unique_seeds(bests),
    ensures
        merge_spec(merge_spec(bests, rs), rs) == merge_spec(bests, rs),
{
    let m = merge_all(bests, rs);
    let s = sort_by_seed(m);
    lemma_merge_all_settles(bests, rs);
    lemma_merge_all_unique(bests, rs);
    lemma_sort_sorted(m);
    lemma_unique_permutation(m, s);
    assert forall|i: int| 0 <= i < rs.len() implies settled(s, #[trigger] rs[i]) by {
        lemma_settled_permutation(m, s, rs[i]);
    }
    lemma_merge_all_settled_noop(s, rs);
    lemma_sort_of_sorted(s);
}

/// The ledger merge: every result of the run file is folded into the ledger
/// (insert when the seed is new, replace only when the new raw score is
/// strictly greater in key order), and the ledger is rewritten ascending by
/// seed. Exactly [`merge_spec`].
pub fn merge_bests(bests: Vec<ExecResult>, results: Vec<ExecResult>) -> (r: Vec<ExecResult>)
    ensures
        r@ == merge_spec(bests@, results@),
        sorted_by_seed(r@),
        unique_seeds(bests@) ==> unique_seeds(r@),
{
    let ghost bests0 = bests@;
    let ghost results0 = results@;
    let mut results = results;
    let mut acc = bests;
    let ghost mut i: int = 0;
    while results.len() > 0
        invariant
            0 <= i <= results0.len(),
            results@ == results0.skip(i),
            acc@ == merge_all(bests0, results0.take(i)),
        decreases results@.len(),
    {
        proof {
            assert(results0.skip(i)[0] == results0[i]);
        }
        let ghost accg = acc@;
        let r = results.remove(0);
        proof {
            assert(results@ =~= results0.skip(i + 1));
        }
        // first entry with this seed, if any
        let mut j: usize = 0;
        let mut found: bool = false;
        while j < acc.len() && !found
            invariant
                j <= acc@.len(),
                acc@ == accg,
                !found ==> forall|k: int| 0 <= k < j ==> acc@[k].seed != r.seed,
                found ==> j < acc@.len() && acc@[j as int].seed == r.seed && forall|k: int|
                    0 <= k < j ==> acc@[k].seed != r.seed,
            decreases acc@.len() - j + (if found { 0int } else { 1int }),
        {
            if acc[j].seed == r.seed {
                found = true;
            } else {
                j = j + 1;
            }
        }
        if found {
            proof {
                assert(find_seed(accg, r.seed) == j as int) by {
                    lemma_find_seed_props(accg, r.seed);
                    let f = find_seed(accg, r.seed);
                    if f != j as int {
                        if f == -1 {
                        } else if f < j as int {
                            assert(accg[f].seed != r.seed);
                        } else {
                            assert(accg[j as int].seed != r.seed);
                        }
                    }
                }
            }
            if score_lt(&acc[j].score, &r.score) {
                acc.set(j, r);
            }
        } else {
            proof {
                lemma_find_seed_props(accg, r.seed);
                assert(find_seed(accg, r.seed) == -1) by {
                    let f = find_seed(accg, r.seed);
                    if f != -1 {
                        assert(accg[f].seed == r.seed);
                    }
                }
            }
            acc.push(r);
        }
        proof {
            assert(acc@ == merge_one(accg, results0[i]));
            lemma_merge_all_snoc(bests0, results0.take(i), results0[i]);
            assert(results0.take(i + 1) =~= results0.take(i).push(results0[i]));
            i = i + 1;
        }
    }
    proof {
        assert(results0.take(i) =~= results0);
    }
    // rewrite ascending by seed
    let ghost acc0 = acc@;
    let mut out: Vec<ExecResult> = Vec::new();
    let ghost mut i2: int = 0;
    while acc.len() > 0
        invariant
            0 <= i2 <= acc0.len(),
            acc@ == acc0.skip(i2),
            out@ == sort_by_seed(acc0.take(i2)),
            sorted_by_seed(out@),
        decreases acc@.len(),
    {
        proof {
            assert(acc0.skip(i2)[0] == acc0[i2]);
        }
        let ghost outg = out@;
        let x = acc.remove(0);
        proof {
            assert(acc@ =~= acc0.skip(i2 + 1));
        }
        let mut pos: usize = 0;
        while pos < out.len() && out[pos].seed <= x.seed
            invariant
                pos <= out@.len(),
                out@ == outg,
                forall|k: int| 0 <= k < pos ==> out@[k].seed <= x.seed,
            decreases out@.len() - pos,
        {
            pos = pos + 1;
        }
        proof {
            lemma_insert_sorted_at(outg, acc0[i2], pos as int);
        }
        out.insert(pos, x);
        proof {
            assert(out@ =~= outg.take(pos as int) + seq![acc0[i2]] + outg.skip(pos as int));
            assert(out@ == insert_sorted(outg, acc0[i2]));
            assert(acc0.take(i2 + 1).drop_last() =~= acc0.take(i2));
            assert(acc0.take(i2 + 1).last() == acc0[i2]);
            lemma_insert_sorted_sorted(outg, acc0[i2]);
            i2 = i2 + 1;
        }
    }
    proof {
        assert(acc0.take(i2) =~= acc0);
        if unique_seeds(bests0) {
            lemma_merge_all_unique(bests0, results0);
            lemma_sort_sorted(acc0);
            lemma_unique_permutation(acc0, out@);
        }
    }
    out
}

/// Folding is compatible with appending one more result at the end.
proof fn lemma_merge_all_snoc(acc: Seq<ExecResult>, rs: Seq<ExecResult>, x: ExecResult)
    ensures
        merge_all(acc, rs.push(x)) == merge_one(merge_all(acc, rs), x),
    decreases rs.len(),
{
    if rs.len() == 0 {
        assert(rs.push(x)[0] == x);
        assert(rs.push(x).skip(1) =~= rs);
        assert(merge_all(acc, rs.push(x)) == merge_all(merge_one(acc, x), rs));
    } else {
        assert(rs.push(x)[0] == rs[0]);
        assert(rs.push(x).skip(1) =~= rs.skip(1).push(x));
        lemma_merge_all_snoc(merge_one(acc, rs[0]), rs.skip(1), x);
        assert(merge_all(acc, rs.push(x)) == merge_all(
            merge_one(acc, rs[0]),
            rs.skip(1).push(x),
        ));
    }
}

/// Where the scan of a sorted ledger stops is where the stable insertion
/// spec puts the new entry.
proof fn lemma_insert_sorted_at(t: Seq<ExecResult>, x: ExecResult, pos: int)
    requires
        sorted_by_seed(t),
        0 <= pos <= t.len(),
        forall|k: int| 0 <= k < pos ==> t[k].seed <= x.seed,
        pos < t.len() ==> t[pos].seed > x.seed,
    ensures
        insert_sorted(t, x) == t.take(pos) + seq![x] + t.skip(pos),
    decreases t.len(),
{
    if t.len() == 0 {
        assert(insert_sorted(t, x) =~= t.take(0) + seq![x] + t.skip(0));
    } else if x.seed < t.last().seed {
        assert(pos < t.len());
        let u = t.drop_last();
        assert forall|i: int, j: int| 0 <= i < j < u.len() implies u[i].seed <= u[j].seed by {
            assert(u[i] == t[i]);
        }
        assert(pos <= u.len()) by {
            if pos == t.len() {
                assert(t[t.len() - 1].seed <= x.seed);
            }
        }
        assert(pos < u.len() ==> u[pos].seed > x.seed) by {
            if pos < u.len() {
                assert(u[pos] == t[pos]);
            }
        }
        lemma_insert_sorted_at(u, x, pos);
        assert(insert_sorted(t, x) == insert_sorted(u, x).push(t.last()));
        assert(insert_sorted(u, x).push(t.last()) =~= t.take(pos) + seq![x] + t.skip(pos)) by {
            assert(u.take(pos) =~= t.take(pos));
        }
    } else {
        assert(pos == t.len()) by {
            if pos < t.len() {
                assert(t[pos].seed > x.seed);
                assert(t[pos].seed <= t.last().seed);
            }
        }
        assert(t.push(x) =~= t.take(pos) + seq![x] + t.skip(pos));
    }
}

} // verus!
