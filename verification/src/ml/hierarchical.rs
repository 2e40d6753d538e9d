//! Hierarchical agglomerative clustering.
use vstd::prelude::*;
use crate::frame::dataframe::copy_vec;

verus! {

/// How the distance between two clusters is taken from the distances of
/// their members.
#[derive(Debug, Clone, Copy)]
pub enum Linkage {
    /// The smallest member distance.
    Single,
    /// The largest member distance.
    Complete,
    /// The mean member distance.
    Average,
}

/// Clusters as seen by the proof: the member lists.
pub open spec fn members(cs: Seq<Vec<usize>>) -> Seq<Seq<usize>> {
    cs.map_values(|c: Vec<usize>| c@)
}

/// Some sample carries label `c`.
pub open spec fn labelled(labels: Seq<usize>, c: usize) -> bool {
    exists|i: int| 0 <= i < labels.len() && #[trigger] labels[i] == c
}

/// `x` is a member of some cluster.
pub open spec fn in_some(cs: Seq<Seq<usize>>, x: usize) -> bool {
    exists|c: int| 0 <= c < cs.len() && #[trigger] cs[c].contains(x)
}

/// The clusters split `0 .. n`: every member is below `n`, every number below
/// `n` is a member of some cluster, no number is in two clusters, and no
/// cluster is empty.
pub open spec fn splits(cs: Seq<Seq<usize>>, n: nat) -> bool {
    &&& forall|c: int, k: int| 0 <= c < cs.len() && 0 <= k < cs[c].len() ==> #[trigger] cs[c][k] < n
    &&& forall|x: usize| x < n ==> #[trigger] in_some(cs, x)
    &&& forall|c1: int, c2: int, x: usize|
        0 <= c1 < cs.len() && 0 <= c2 < cs.len() && c1 != c2 && #[trigger] cs[c1].contains(x) ==> !#[trigger] cs[c2].contains(x)
    &&& forall|c: int| 0 <= c < cs.len() ==> #[trigger] cs[c].len() > 0
}

/// The key of the infinite distance: clusters closer than it can be merged.
pub const FAR: u64 = 0x7ff0_0000_0000_0000;

/// The key that `f` gives two clusters, by their members.
pub open spec fn pair_key<F: Fn(&[usize], &[usize]) -> u64>(f: F, a: Seq<usize>, b: Seq<usize>) -> u64 {
    let (_sa, _sb, r) = choose|sa: &[usize], sb: &[usize], r: u64|
        #![trigger call_ensures(f, (sa, sb), r)]
        sa@ == a && sb@ == b && call_ensures(f, (sa, sb), r);
    r
}

/// `f` gives one key to each pair of member lists.
pub open spec fn keys_by_members<F: Fn(&[usize], &[usize]) -> u64>(f: F) -> bool {
    forall|a1: &[usize], b1: &[usize], a2: &[usize], b2: &[usize], r1: u64, r2: u64|
        #![trigger call_ensures(f, (a1, b1), r1), call_ensures(f, (a2, b2), r2)]
        a1@ == a2@ && b1@ == b2@ && call_ensures(f, (a1, b1), r1) && call_ensures(f, (a2, b2), r2) ==> r1 == r2
}

/// `(p, q)` is a pair of two different clusters among `len`, the first before the second.
pub open spec fn valid_pair(len: int, p: int, q: int) -> bool {
    0 <= p < q < len
}

/// Pair `(p, q)` is examined before pair `(i, j)` (rows first).
pub open spec fn pair_before(p: int, q: int, i: int, j: int) -> bool {
    p < i || (p == i && q < j)
}

/// Some pair of clusters is closer than [`FAR`].
pub open spec fn some_pair_near<F: Fn(&[usize], &[usize]) -> u64>(cs: Seq<Seq<usize>>, f: F) -> bool {
    exists|p: int, q: int| valid_pair(cs.len() as int, p, q) && #[trigger] pair_key(f, cs[p], cs[q]) < FAR
}

/// `(i, j)` is the pair merged next: the first pair of smallest key below
/// [`FAR`], or the first two clusters when no key is below it.
pub open spec fn closest_pair<F: Fn(&[usize], &[usize]) -> u64>(cs: Seq<Seq<usize>>, f: F, i: int, j: int) -> bool {
    if some_pair_near(cs, f) {
        &&& valid_pair(cs.len() as int, i, j)
        &&& pair_key(f, cs[i], cs[j]) < FAR
        &&& forall|p: int, q: int|
            valid_pair(cs.len() as int, p, q) ==> #[trigger] pair_key(f, cs[p], cs[q]) >= pair_key(f, cs[i], cs[j])
        &&& forall|p: int, q: int|
            valid_pair(cs.len() as int, p, q) && pair_before(p, q, i, j) ==> #[trigger] pair_key(f, cs[p], cs[q])
                > pair_key(f, cs[i], cs[j])
    } else {
        i == 0 && j == 1
    }
}

/// The pair merged next.
pub open spec fn next_pair<F: Fn(&[usize], &[usize]) -> u64>(cs: Seq<Seq<usize>>, f: F) -> (int, int) {
    choose|i: int, j: int| closest_pair(cs, f, i, j)
}

/// The clusters after merging cluster `j` into cluster `i`.
pub open spec fn merge_pair(cs: Seq<Seq<usize>>, i: int, j: int) -> Seq<Seq<usize>> {
    cs.update(i, cs[i] + cs[j]).remove(j)
}

/// The clusters left when closest pairs are merged until `wanted` remain.
pub open spec fn agglomerate<F: Fn(&[usize], &[usize]) -> u64>(cs: Seq<Seq<usize>>, f: F, wanted: nat) -> Seq<Seq<usize>>
    decreases cs.len(),
{
    if cs.len() <= wanted || cs.len() < 2 {
        cs
    } else {
        let (i, j) = next_pair(cs, f);
        if valid_pair(cs.len() as int, i, j) {
            agglomerate(merge_pair(cs, i, j), f, wanted)
        } else {
            cs
        }
    }
}

/// One cluster per sample.
pub open spec fn singletons(n: nat) -> Seq<Seq<usize>> {
    Seq::new(n, |x: int| seq![x as usize])
}

/// The key of a call is the key of the pair of member lists.
proof fn lemma_key_of_call<F: Fn(&[usize], &[usize]) -> u64>(f: F, sa: &[usize], sb: &[usize], d: u64)
    requires
        keys_by_members(f),
        call_ensures(f, (sa, sb), d),
    ensures
        pair_key(f, sa@, sb@) == d,
{
    let (xa, xb, r) = choose|xa: &[usize], xb: &[usize], r: u64|
        #![trigger call_ensures(f, (xa, xb), r)]
        xa@ == sa@ && xb@ == sb@ && call_ensures(f, (xa, xb), r);
    assert(xa@ == sa@ && xb@ == sb@ && call_ensures(f, (xa, xb), r));
    assert(pair_key(f, sa@, sb@) == r);
}

/// Only one pair is the pair merged next.
proof fn lemma_closest_unique<F: Fn(&[usize], &[usize]) -> u64>(cs: Seq<Seq<usize>>, f: F, i: int, j: int)
    requires
        closest_pair(cs, f, i, j),
    ensures
        next_pair(cs, f) == (i, j),
{
    let (i2, j2) = next_pair(cs, f);
    assert(closest_pair(cs, f, i2, j2));
    if some_pair_near(cs, f) {
        if pair_before(i, j, i2, j2) {
            assert(pair_key(f, cs[i], cs[j]) > pair_key(f, cs[i2], cs[j2]));
            assert(pair_key(f, cs[i], cs[j]) >= pair_key(f, cs[i2], cs[j2]));
            assert(pair_key(f, cs[i2], cs[j2]) >= pair_key(f, cs[i], cs[j]));
        } else if pair_before(i2, j2, i, j) {
            assert(pair_key(f, cs[i2], cs[j2]) > pair_key(f, cs[i], cs[j]));
            assert(pair_key(f, cs[i], cs[j]) >= pair_key(f, cs[i2], cs[j2]));
        }
    }
}

/// Hierarchical agglomerative clustering.
#[derive(Debug)]
pub struct HierarchicalClustering {
    /// How cluster distances are taken.
    pub linkage: Linkage,
    /// Number of clusters to stop at.
    pub n_clusters: usize,
    labels: Vec<usize>,
    fitted: bool,
}

impl HierarchicalClustering {
    /// The cluster of each sample.
    pub closed spec fn label_view(&self) -> Seq<usize> {
        self.labels@
    }

    /// The model was fitted.
    pub closed spec fn is_fitted(&self) -> bool {
        self.fitted
    }

    /// The number of clusters to stop at.
    pub closed spec fn wanted(&self) -> usize {
        self.n_clusters
    }

    /// The linkage.
    pub closed spec fn linkage_kind(&self) -> Linkage {
        self.linkage
    }

    /// An unfitted model that stops at `n_clusters` clusters.
    pub fn new(n_clusters: usize, linkage: Linkage) -> (r: Self)
        ensures
            r.wanted() == n_clusters,
            r.linkage_kind() == linkage,
            !r.is_fitted(),
            r.label_view() == Seq::<usize>::empty(),
    {
        HierarchicalClustering { linkage, n_clusters, labels: Vec::new(), fitted: false }
    }

    /// The cluster of each sample; the model must be fitted.
    pub fn labels(&self) -> (r: &[usize])
        requires
            self.is_fitted(),
        ensures
            r@ == self.label_view(),
    {
        self.labels.as_slice()
    }

    /// Clusters `n` samples: starting from one cluster per sample, merges the
    /// closest pair of clusters (the first pair, in order, of smallest
    /// distance key below [`FAR`], or the first two when none is) until
    /// `n_clusters` are left, then labels each sample with the position of
    /// its cluster. `distance` gives the key of the distance of two clusters,
    /// by their members (the same members always get the same key); keys
    /// order as the distances do.
    #[verifier::loop_isolation(false)]
    pub fn fit_with<F: Fn(&[usize], &[usize]) -> u64>(&mut self, n: usize, distance: F)
        requires
            0 < n,
            0 < old(self).wanted() <= n,
            forall|a: &[usize], b: &[usize]| #[trigger] call_requires(distance, (a, b)),
            keys_by_members(distance),
        ensures
            ({
                let h = agglomerate(singletons(n as nat), distance, old(self).wanted() as nat);
                &&& h.len() == old(self).wanted()
                &&& splits(h, n as nat)
                &&& forall|x: int| 0 <= x < n ==> h[#[trigger] final(self).label_view()[x] as int].contains(x as usize)
            }),
            final(self).is_fitted(),
            final(self).wanted() == old(self).wanted(),
            final(self).linkage_kind() == old(self).linkage_kind(),
            final(self).label_view().len() == n,
            forall|i: int| 0 <= i < n ==> #[trigger] final(self).label_view()[i] < final(self).wanted(),
            forall|c: usize| c < final(self).wanted() ==> #[trigger] labelled(final(self).label_view(), c),
    {
        let target = self.n_clusters;
        let mut clusters: Vec<Vec<usize>> = Vec::new();
        let mut i: usize = 0;
        while i < n
            invariant
                i <= n,
                clusters@.len() == i,
                forall|c: int| 0 <= c < i ==> (#[trigger] clusters@[c])@ == seq![c as usize],
            decreases n - i,
        {
            let mut one: Vec<usize> = Vec::new();
            one.push(i);
            clusters.push(one);
            i = i + 1;
        }
        proof {
            let cs = members(clusters@);
            assert forall|x: usize| x < n implies #[trigger] in_some(cs, x) by {
                assert(cs[x as int][0] == x);
                assert(cs[x as int].contains(x));
            }
            assert forall|c1: int, c2: int, x: usize|
                0 <= c1 < cs.len() && 0 <= c2 < cs.len() && c1 != c2 && #[trigger] cs[c1].contains(x) implies !#[trigger] cs[c2].contains(x) by {
                assert(cs[c1] == seq![c1 as usize]);
                assert(cs[c2] == seq![c2 as usize]);
            }
            assert(splits(cs, n as nat));
            assert(cs =~= singletons(n as nat));
        }
        let ghost h = agglomerate(singletons(n as nat), distance, target as nat);
        while clusters.len() > target
            invariant
                splits(members(clusters@), n as nat),
                target <= clusters@.len(),
                0 < target,
                agglomerate(members(clusters@), distance, target as nat) == h,
            decreases clusters@.len(),
        {
            let count = clusters.len();
            let ghost cur = members(clusters@);
            let mut best_i: usize = 0;
            let mut best_j: usize = 1;
            let mut best: u64 = FAR;
            let mut a: usize = 0;
            while a < count
                invariant
                    count == clusters@.len(),
                    cur == members(clusters@),
                    count >= 2,
                    a <= count,
                    best <= FAR,
                    best < FAR ==> valid_pair(count as int, best_i as int, best_j as int) && pair_before(
                        best_i as int,
                        best_j as int,
                        a as int,
                        a + 1,
                    ) && pair_key(distance, cur[best_i as int], cur[best_j as int]) == best,
                    best == FAR ==> best_i == 0 && best_j == 1,
                    forall|p: int, q: int|
                        valid_pair(count as int, p, q) && pair_before(p, q, a as int, a + 1) ==> #[trigger] pair_key(
                            distance,
                            cur[p],
                            cur[q],
                        ) >= best,
                    best < FAR ==> forall|p: int, q: int|
                        valid_pair(count as int, p, q) && pair_before(p, q, best_i as int, best_j as int)
                            ==> #[trigger] pair_key(distance, cur[p], cur[q]) > best,
                decreases count - a,
            {
                let mut b: usize = a + 1;
                while b < count
                    invariant
                        count == clusters@.len(),
                        cur == members(clusters@),
                        count >= 2,
                        a < count,
                        a < b <= count,
                        best <= FAR,
                        best < FAR ==> valid_pair(count as int, best_i as int, best_j as int) && pair_before(
                            best_i as int,
                            best_j as int,
                            a as int,
                            b as int,
                        ) && pair_key(distance, cur[best_i as int], cur[best_j as int]) == best,
                        best == FAR ==> best_i == 0 && best_j == 1,
                        forall|p: int, q: int|
                            valid_pair(count as int, p, q) && pair_before(p, q, a as int, b as int) ==> #[trigger] pair_key(
                                distance,
                                cur[p],
                                cur[q],
                            ) >= best,
                        best < FAR ==> forall|p: int, q: int|
                            valid_pair(count as int, p, q) && pair_before(p, q, best_i as int, best_j as int)
                                ==> #[trigger] pair_key(distance, cur[p], cur[q]) > best,
                    decreases count - b,
                {
                    let sa = clusters[a].as_slice();
                    let sb = clusters[b].as_slice();
                    let d = distance(sa, sb);
                    proof {
                        lemma_key_of_call(distance, sa, sb, d);
                        assert(cur[a as int] == sa@);
                        assert(cur[b as int] == sb@);
                    }
                    if d < best {
                        best = d;
                        best_i = a;
                        best_j = b;
                    }
                    b = b + 1;
                }
                a = a + 1;
            }
            proof {
                if some_pair_near(cur, distance) {
                    let (p, q) = choose|p: int, q: int|
                        valid_pair(cur.len() as int, p, q) && #[trigger] pair_key(distance, cur[p], cur[q]) < FAR;
                    assert(pair_before(p, q, count as int, count + 1));
                    assert(pair_key(distance, cur[p], cur[q]) >= best);
                } else {
                    if best < FAR {
                        assert(valid_pair(cur.len() as int, best_i as int, best_j as int));
                        assert(pair_key(distance, cur[best_i as int], cur[best_j as int]) < FAR);
                    }
                }
                assert(closest_pair(cur, distance, best_i as int, best_j as int));
                lemma_closest_unique(cur, distance, best_i as int, best_j as int);
            }
            let ghost before = members(clusters@);
            let mut merged = copy_vec(&clusters[best_i]);
            let second = copy_vec(&clusters[best_j]);
            let mut k: usize = 0;
            while k < second.len()
                invariant
                    k <= second@.len(),
                    merged@ == before[best_i as int] + second@.take(k as int),
                decreases second@.len() - k,
            {
                merged.push(second[k]);
                k = k + 1;
                proof {
                    assert(merged@ =~= before[best_i as int] + second@.take(k as int));
                }
            }
            proof {
                assert(second@.take(k as int) =~= before[best_j as int]);
            }
            clusters.set(best_i, merged);
            let _removed = clusters.remove(best_j);
            proof {
                let after = members(clusters@);
                let joined = before[best_i as int] + before[best_j as int];
                assert(after.len() == before.len() - 1);
                assert forall|c: int| 0 <= c < after.len() implies #[trigger] after[c] == (if c == best_i {
                    joined
                } else if c < best_j {
                    before[c]
                } else {
                    before[c + 1]
                }) by {
                }
                assert forall|c: int, q: int| 0 <= c < after.len() && 0 <= q < after[c].len() implies #[trigger] after[c][q] < n by {
                    if c == best_i {
                        if q < before[best_i as int].len() {
                            assert(after[c][q] == before[best_i as int][q]);
                        } else {
                            assert(after[c][q] == before[best_j as int][q - before[best_i as int].len()]);
                        }
                    } else if c < best_j {
                        assert(after[c][q] == before[c][q]);
                    } else {
                        assert(after[c][q] == before[c + 1][q]);
                    }
                }
                assert forall|x: usize| x < n implies #[trigger] in_some(after, x) by {
                    assert(in_some(before, x));
                    let c0 = choose|c: int| 0 <= c < before.len() && #[trigger] before[c].contains(x);
                    let q = choose|q: int| 0 <= q < before[c0].len() && before[c0][q] == x;
                    if c0 == best_i {
                        assert(after[best_i as int][q] == x);
                        assert(after[best_i as int].contains(x));
                    } else if c0 == best_j {
                        assert(after[best_i as int][before[best_i as int].len() + q] == x);
                        assert(after[best_i as int].contains(x));
                    } else if c0 < best_j {
                        assert(after[c0][q] == x);
                        assert(after[c0].contains(x));
                    } else {
                        assert(after[c0 - 1][q] == x);
                        assert(after[c0 - 1].contains(x));
                    }
                }
                assert forall|c1: int, c2: int, x: usize|
                    0 <= c1 < after.len() && 0 <= c2 < after.len() && c1 != c2 && #[trigger] after[c1].contains(x) implies !#[trigger] after[c2].contains(x) by {
                    let src1 = if c1 < best_j { c1 } else { c1 + 1 };
                    let src2 = if c2 < best_j { c2 } else { c2 + 1 };
                    if after[c2].contains(x) {
                        let q1 = choose|q: int| 0 <= q < after[c1].len() && after[c1][q] == x;
                        let q2 = choose|q: int| 0 <= q < after[c2].len() && after[c2][q] == x;
                        let o1 = if c1 == best_i && q1 >= before[best_i as int].len() { best_j as int } else { src1 };
                        let o2 = if c2 == best_i && q2 >= before[best_i as int].len() { best_j as int } else { src2 };
                        if c1 == best_i && q1 >= before[best_i as int].len() {
                            assert(before[o1][q1 - before[best_i as int].len()] == x);
                        } else {
                            assert(before[o1][q1] == x);
                        }
                        if c2 == best_i && q2 >= before[best_i as int].len() {
                            assert(before[o2][q2 - before[best_i as int].len()] == x);
                        } else {
                            assert(before[o2][q2] == x);
                        }
                        assert(before[o1].contains(x));
                        assert(before[o2].contains(x));
                        assert(o1 != o2);
                    }
                }
                assert(after =~= merge_pair(before, best_i as int, best_j as int));
                assert(agglomerate(before, distance, target as nat) == agglomerate(after, distance, target as nat));
                assert forall|c: int| 0 <= c < after.len() implies #[trigger] after[c].len() > 0 by {
                    if c != best_i {
                        if c < best_j {
                            assert(before[c].len() > 0);
                        } else {
                            assert(before[c + 1].len() > 0);
                        }
                    } else {
                        assert(before[best_i as int].len() > 0);
                    }
                }
            }
        }
        let ghost cs = members(clusters@);
        let mut labels: Vec<usize> = Vec::new();
        let mut x: usize = 0;
        while x < n
            invariant
                x <= n,
                labels@.len() == x,
                forall|y: int| 0 <= y < x ==> labels@[y] == 0,
            decreases n - x,
        {
            labels.push(0);
            x = x + 1;
        }
        let mut cid: usize = 0;
        while cid < clusters.len()
            invariant
                cs == members(clusters@),
                splits(cs, n as nat),
                clusters@.len() == target,
                cid <= clusters@.len(),
                labels@.len() == n,
                forall|y: int| 0 <= y < n ==> #[trigger] labels@[y] < target,
                forall|c: int, q: int| 0 <= c < cid && 0 <= q < cs[c].len() ==> #[trigger] labels@[cs[c][q] as int] == c,
            decreases clusters@.len() - cid,
        {
            let cluster = &clusters[cid];
            proof {
                assert(cs[cid as int] == cluster@);
            }
            let mut q: usize = 0;
            while q < cluster.len()
                invariant
                    cs == members(clusters@),
                    splits(cs, n as nat),
                    cs[cid as int] == cluster@,
                    clusters@.len() == target,
                    cid < clusters@.len(),
                    labels@.len() == n,
                    q <= cluster@.len(),
                    forall|y: int| 0 <= y < n ==> #[trigger] labels@[y] < target,
                    forall|c: int, q2: int| 0 <= c < cid && 0 <= q2 < cs[c].len() ==> #[trigger] labels@[cs[c][q2] as int] == c,
                    forall|q2: int| 0 <= q2 < q ==> #[trigger] labels@[cs[cid as int][q2] as int] == cid,
                decreases cluster@.len() - q,
            {
                let member = cluster[q];
                proof {
                    assert(cs[cid as int][q as int] == member);
                    assert(member < n);
                }
                let ghost old_labels = labels@;
                labels.set(member, cid);
                proof {
                    assert forall|c: int, q2: int| 0 <= c < cid && 0 <= q2 < cs[c].len() implies #[trigger] labels@[cs[c][q2] as int] == c by {
                        assert(cs[c].contains(cs[c][q2]));
                        if cs[c][q2] == member {
                            assert(cs[cid as int].contains(member));
                        }
                    }
                }
                q = q + 1;
            }
            cid = cid + 1;
        }
        proof {
            assert forall|c: usize| c < target implies #[trigger] labelled(labels@, c) by {
                assert(cs[c as int].len() > 0);
                assert(labels@[cs[c as int][0] as int] == c);
            }
            assert(cs == h);
            assert forall|x: int| 0 <= x < n implies h[#[trigger] labels@[x] as int].contains(x as usize) by {
                assert(in_some(cs, x as usize));
                let c = choose|c: int| 0 <= c < cs.len() && #[trigger] cs[c].contains(x as usize);
                let q = choose|q: int| 0 <= q < cs[c].len() && cs[c][q] == x as usize;
                assert(labels@[cs[c][q] as int] == c);
            }
        }
        self.labels = labels;
        self.fitted = true;
    }
}

} // verus!
