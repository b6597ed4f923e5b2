//! The joint topology of a robot made of several kinematic chains: its degrees
//! of freedom, the joints that chains share, and the map from full to reduced
//! (one variable per physical joint) coordinates.
use vstd::prelude::*;

verus! {

/// The sum of a sequence of lengths.
pub open spec fn sum_lens(s: Seq<usize>) -> int
    decreases s.len(),
{
    if s.len() == 0 {
        0
    } else {
        sum_lens(s.drop_last()) + s.last()
    }
}

/// Sums of prefixes grow with the prefix.
pub proof fn lemma_sum_lens_prefix(s: Seq<usize>, i: int, j: int)
    requires
        0 <= i <= j <= s.len(),
    ensures
        0 <= sum_lens(s.take(i)) <= sum_lens(s.take(j)),
    decreases j - i,
{
    if i < j {
        lemma_sum_lens_prefix(s, i, j - 1);
        assert(s.take(j).drop_last() =~= s.take(j - 1));
    } else {
        lemma_sum_lens_nonneg(s.take(i));
    }
}

/// A sum of lengths is never negative.
pub proof fn lemma_sum_lens_nonneg(s: Seq<usize>)
    ensures
        sum_lens(s) >= 0,
    decreases s.len(),
{
    if s.len() > 0 {
        lemma_sum_lens_nonneg(s.drop_last());
    }
}

/// The sum of a prefix one element longer.
pub proof fn lemma_sum_lens_step(s: Seq<usize>, i: int)
    requires
        0 <= i < s.len(),
    ensures
        sum_lens(s.take(i + 1)) == sum_lens(s.take(i)) + s[i],
{
    assert(s.take(i + 1).drop_last() =~= s.take(i));
}

// ---------------------------------------------------------------------------
// Flattening the chains
// ---------------------------------------------------------------------------

/// The joint names of all chains, chain after chain.
pub open spec fn flat_names(names_per_chain: Seq<Seq<Seq<char>>>) -> Seq<Seq<char>>
    decreases names_per_chain.len(),
{
    if names_per_chain.len() == 0 {
        seq![]
    } else {
        flat_names(names_per_chain.drop_last()) + names_per_chain.last()
    }
}

/// The global variable index of each joint, chain after chain: joint `j` of chain
/// `i` sits at the sum of the lengths of the chains before `i`, plus `j`.
pub open spec fn flat_globals(chain_lengths: Seq<usize>, names_per_chain: Seq<Seq<Seq<char>>>) -> Seq<int>
    decreases names_per_chain.len(),
{
    if names_per_chain.len() == 0 {
        seq![]
    } else {
        let i = names_per_chain.len() - 1;
        flat_globals(chain_lengths, names_per_chain.drop_last()) + Seq::new(
            names_per_chain.last().len(),
            |j: int| sum_lens(chain_lengths.take(i)) + j,
        )
    }
}

/// The chain description that building a robot accepts: one length per chain,
/// a total that fits in `usize`, and every joint of a chain at a global index
/// below the total.
pub open spec fn chains_fit(chain_lengths: Seq<usize>, names_per_chain: Seq<Seq<Seq<char>>>) -> bool {
    &&& chain_lengths.len() == names_per_chain.len()
    &&& sum_lens(chain_lengths) <= usize::MAX
    &&& forall|i: int|
        0 <= i < names_per_chain.len() ==> sum_lens(chain_lengths.take(i)) + #[trigger] names_per_chain[i].len()
            <= sum_lens(chain_lengths)
}

/// Every chain has as many named joints as its length.
pub open spec fn chains_consistent(chain_lengths: Seq<usize>, names_per_chain: Seq<Seq<Seq<char>>>) -> bool {
    &&& chain_lengths.len() == names_per_chain.len()
    &&& forall|i: int|
        0 <= i < names_per_chain.len() ==> #[trigger] names_per_chain[i].len() == chain_lengths[i]
}

// ---------------------------------------------------------------------------
// Unique joints
// ---------------------------------------------------------------------------

/// The first position below `k` at which `s` holds `x`, or `k` if there is none.
pub open spec fn index_in<A>(s: Seq<A>, x: A, k: int) -> int
    decreases k,
{
    if k <= 0 {
        0
    } else {
        let q = index_in(s, x, k - 1);
        if q < k - 1 {
            q
        } else if s[k - 1] == x {
            k - 1
        } else {
            k
        }
    }
}

/// Position `p` holds the first occurrence of its value.
pub open spec fn is_first<A>(s: Seq<A>, p: int) -> bool {
    index_in(s, s[p], p) == p
}

/// The number of distinct values among the first `k` positions.
pub open spec fn count_new<A>(s: Seq<A>, k: int) -> int
    decreases k,
{
    if k <= 0 {
        0
    } else {
        count_new(s, k - 1) + if is_first(s, k - 1) {
            1int
        } else {
            0int
        }
    }
}

/// The unique index of position `p`: the number of distinct values that first
/// occur before the value at `p` does.
pub open spec fn unique_index<A>(s: Seq<A>, p: int) -> int {
    count_new(s, index_in(s, s[p], p + 1))
}

/// `index_in` is the least position holding `x`.
pub proof fn lemma_index_in<A>(s: Seq<A>, x: A, k: int)
    requires
        0 <= k <= s.len(),
    ensures
        0 <= index_in(s, x, k) <= k,
        index_in(s, x, k) < k ==> s[index_in(s, x, k)] == x,
        forall|t: int| 0 <= t < index_in(s, x, k) ==> s[t] != x,
    decreases k,
{
    if k > 0 {
        lemma_index_in(s, x, k - 1);
    }
}

/// `count_new` grows by at most one per position.
pub proof fn lemma_count_new_bound<A>(s: Seq<A>, k: int)
    requires
        0 <= k,
    ensures
        0 <= count_new(s, k) <= k,
    decreases k,
{
    if k > 0 {
        lemma_count_new_bound(s, k - 1);
    }
}

// ---------------------------------------------------------------------------
// Full-to-reduced map and shared pairs
// ---------------------------------------------------------------------------

/// The full-to-reduced map after the first `k` joints have been visited: it
/// starts as zeros over `num_dofs` entries, and visiting a joint sets the entry
/// at its global index to its unique index.
pub open spec fn reduced_index_map(
    names: Seq<Seq<char>>,
    globals: Seq<int>,
    k: int,
    num_dofs: int,
) -> Seq<usize>
    decreases k,
{
    if k <= 0 {
        Seq::new(num_dofs as nat, |i: int| 0usize)
    } else {
        reduced_index_map(names, globals, k - 1, num_dofs).update(
            globals[k - 1],
            unique_index(names, k - 1) as usize,
        )
    }
}

/// The pairs `(globals[p], globals[q])` for the positions `q` in `p + 1 .. k`
/// that hold the same name as `p`.
pub open spec fn shared_pairs_from(names: Seq<Seq<char>>, globals: Seq<int>, p: int, k: int) -> Seq<
    (usize, usize),
>
    decreases k,
{
    if k <= p + 1 || k <= 0 {
        seq![]
    } else {
        shared_pairs_from(names, globals, p, k - 1) + if names[k - 1] == names[p] {
            seq![(globals[p] as usize, globals[k - 1] as usize)]
        } else {
            seq![]
        }
    }
}

/// All pairs of global indices of two distinct joints with the same name, the
/// earlier joint first, for first joints below `m`.
pub open spec fn shared_pairs(names: Seq<Seq<char>>, globals: Seq<int>, m: int) -> Seq<(usize, usize)>
    decreases m,
{
    if m <= 0 {
        seq![]
    } else {
        shared_pairs(names, globals, m - 1) + shared_pairs_from(names, globals, m - 1, names.len() as int)
    }
}

/// The full-to-reduced map keeps its length while every global index is in range.
pub proof fn lemma_reduced_index_map_len(names: Seq<Seq<char>>, globals: Seq<int>, k: int, num_dofs: int)
    requires
        0 <= k <= globals.len(),
        0 <= num_dofs,
        forall|t: int| 0 <= t < k ==> 0 <= #[trigger] globals[t] < num_dofs,
    ensures
        reduced_index_map(names, globals, k, num_dofs).len() == num_dofs,
    decreases k,
{
    if k > 0 {
        lemma_reduced_index_map_len(names, globals, k - 1, num_dofs);
    }
}

/// `a` comes no later than `b` in the lexicographic order of pairs.
pub open spec fn pair_le(a: (usize, usize), b: (usize, usize)) -> bool {
    a.0 < b.0 || (a.0 == b.0 && a.1 <= b.1)
}

/// The pairs are in lexicographic order.
pub open spec fn pairs_sorted(s: Seq<(usize, usize)>) -> bool {
    forall|i: int, j: int| 0 <= i < j < s.len() ==> pair_le(s[i], s[j])
}

/// Sorts the pairs lexicographically.
///
/// Trusted: calls `slice::sort` from std, which sorts a slice in ascending order
/// of `Ord`; for tuples that order is lexicographic. The contract claims that the
/// result is a reordering of the input that is sorted.
#[verifier::external_body]
fn sort_pairs(v: &mut Vec<(usize, usize)>)
    ensures
        final(v)@.to_multiset() == old(v)@.to_multiset(),
        pairs_sorted(final(v)@),
{
    v.sort();
}

// ---------------------------------------------------------------------------
// The robot
// ---------------------------------------------------------------------------

/// The joint topology of a robot made of several kinematic chains.
#[derive(Clone, Debug)]
pub struct Robot {
    pub num_chains: usize,
    pub num_dofs: usize,
    pub chain_lengths: Vec<usize>,
    pub all_joint_names: Vec<String>,
    pub joint_names_per_chain: Vec<Vec<String>>,
    /// Pairs of global DOF indices that refer to the same physical joint.
    pub shared_joint_pairs: Vec<(usize, usize)>,
    /// Maps each global DOF index to its unique DOF index (shared joints map to the same unique index).
    pub full_to_reduced: Vec<usize>,
    pub num_unique_dofs: usize,
}

/// The robot that `Robot::from_chains` builds from these chains.
pub open spec fn built_from(r: Robot, chain_lengths: Seq<usize>, names_per_chain: Seq<Seq<Seq<char>>>) -> bool {
    let names = flat_names(names_per_chain);
    let globals = flat_globals(chain_lengths, names_per_chain);
    &&& r.num_chains == names_per_chain.len()
    &&& r.num_dofs == sum_lens(chain_lengths)
    &&& r.chain_lengths@ == chain_lengths
    &&& r.joint_names_per_chain.deep_view() == names_per_chain
    &&& r.all_joint_names.deep_view() == names
    &&& r.full_to_reduced@ == reduced_index_map(names, globals, names.len() as int, r.num_dofs as int)
    &&& r.num_unique_dofs == count_new(names, names.len() as int)
    &&& r.shared_joint_pairs@.to_multiset() == shared_pairs(names, globals, names.len() as int).to_multiset()
    &&& pairs_sorted(r.shared_joint_pairs@)
}

proof fn lemma_flat_step(
    chain_lengths: Seq<usize>,
    names_per_chain: Seq<Seq<Seq<char>>>,
    i: int,
)
    requires
        0 <= i < names_per_chain.len(),
    ensures
        flat_names(names_per_chain.take(i + 1)) == flat_names(names_per_chain.take(i))
            + names_per_chain[i],
        flat_globals(chain_lengths, names_per_chain.take(i + 1)) == flat_globals(
            chain_lengths,
            names_per_chain.take(i),
        ) + Seq::new(names_per_chain[i].len(), |j: int| sum_lens(chain_lengths.take(i)) + j),
{
    assert(names_per_chain.take(i + 1).drop_last() =~= names_per_chain.take(i));
}

/// Every global index lies below the number of degrees of freedom.
proof fn lemma_flat_globals_bound(
    chain_lengths: Seq<usize>,
    names_per_chain: Seq<Seq<Seq<char>>>,
    m: int,
)
    requires
        chains_fit(chain_lengths, names_per_chain),
        0 <= m <= names_per_chain.len(),
    ensures
        flat_globals(chain_lengths, names_per_chain.take(m)).len() == flat_names(
            names_per_chain.take(m),
        ).len(),
        forall|k: int|
            0 <= k < flat_globals(chain_lengths, names_per_chain.take(m)).len() ==> 0 <= #[trigger] flat_globals(
                chain_lengths,
                names_per_chain.take(m),
            )[k] < sum_lens(chain_lengths),
    decreases m,
{
    if m > 0 {
        lemma_flat_globals_bound(chain_lengths, names_per_chain, m - 1);
        lemma_flat_step(chain_lengths, names_per_chain, m - 1);
        lemma_sum_lens_prefix(chain_lengths, m - 1, chain_lengths.len() as int);
    }
}

impl Robot {
    /// Builds the joint topology from the length and the joint names of each
    /// chain: shared joints are joints with the same name in different places,
    /// and each distinct name gets one unique (reduced) index, in order of first
    /// appearance.
    pub fn from_chains(chain_lengths: Vec<usize>, joint_names_per_chain: Vec<Vec<String>>) -> (r: Robot)
        requires
            chains_fit(chain_lengths@, joint_names_per_chain.deep_view()),
        ensures
            built_from(r, chain_lengths@, joint_names_per_chain.deep_view()),
    {
        let ghost lens = chain_lengths@;
        let ghost npc = joint_names_per_chain.deep_view();
        let num_chains = joint_names_per_chain.len();
        proof {
            lemma_flat_globals_bound(lens, npc, npc.len() as int);
            assert(npc.take(npc.len() as int) =~= npc);
        }
        // Total number of degrees of freedom.
        let mut num_dofs: usize = 0;
        let mut i: usize = 0;
        while i < num_chains
            invariant
                num_chains == lens.len(),
                lens == chain_lengths@,
                sum_lens(lens) <= usize::MAX,
                i <= num_chains,
                num_dofs == sum_lens(lens.take(i as int)),
            decreases num_chains - i,
        {
            proof {
                lemma_sum_lens_step(lens, i as int);
                lemma_sum_lens_prefix(lens, i + 1, lens.len() as int);
                assert(lens.take(lens.len() as int) =~= lens);
            }
            num_dofs = num_dofs + chain_lengths[i];
            i = i + 1;
        }
        assert(lens.take(num_chains as int) =~= lens);
        // All joint names, and the global index of each.
        let mut all_joint_names: Vec<String> = Vec::new();
        let mut globals: Vec<usize> = Vec::new();
        let mut offset: usize = 0;
        let mut i: usize = 0;
        while i < num_chains
            invariant
                num_chains == npc.len(),
                npc == joint_names_per_chain.deep_view(),
                lens == chain_lengths@,
                chains_fit(lens, npc),
                num_dofs == sum_lens(lens),
                i <= num_chains,
                offset == sum_lens(lens.take(i as int)),
                all_joint_names.deep_view() == flat_names(npc.take(i as int)),
                globals@.len() == flat_globals(lens, npc.take(i as int)).len(),
                forall|k: int|
                    0 <= k < globals@.len() ==> globals@[k] as int == #[trigger] flat_globals(
                        lens,
                        npc.take(i as int),
                    )[k],
            decreases num_chains - i,
        {
            let chain = &joint_names_per_chain[i];
            let ghost names_i = npc[i as int];
            let ghost base_names = all_joint_names.deep_view();
            let ghost base_globals = globals@;
            assert(chain.deep_view() == names_i);
            assert(names_i.len() == chain@.len());
            proof {
                lemma_sum_lens_prefix(lens, i as int, lens.len() as int);
                assert(lens.take(lens.len() as int) =~= lens);
            }
            let mut j: usize = 0;
            while j < chain.len()
                invariant
                    chain.deep_view() == names_i,
                    names_i.len() == chain@.len(),
                    offset + names_i.len() <= num_dofs,
                    j <= chain@.len(),
                    all_joint_names.deep_view() == base_names + names_i.take(j as int),
                    globals@ == base_globals + Seq::new(j as nat, |t: int| (offset + t) as usize),
                decreases chain@.len() - j,
            {
                let ghost prev = all_joint_names@;
                assert(all_joint_names.deep_view().len() == prev.len());
                let name = chain[j].clone();
                assert(name@ == names_i[j as int]);
                all_joint_names.push(name);
                globals.push(offset + j);
                assert forall|k: int| 0 <= k < all_joint_names@.len() implies #[trigger] all_joint_names.deep_view()[k]
                    == (base_names + names_i.take(j + 1))[k] by {
                    if k < prev.len() {
                        assert(all_joint_names@[k] == prev[k]);
                        assert((base_names + names_i.take(j as int))[k] == prev[k]@);
                    }
                }
                assert(all_joint_names.deep_view() =~= base_names + names_i.take(j + 1));
                assert(globals@ =~= base_globals + Seq::new((j + 1) as nat, |t: int| (offset + t) as usize));
                j = j + 1;
            }
            proof {
                lemma_flat_step(lens, npc, i as int);
                lemma_sum_lens_step(lens, i as int);
                lemma_sum_lens_prefix(lens, i + 1, lens.len() as int);
                assert(names_i.take(names_i.len() as int) =~= names_i);
                assert(all_joint_names.deep_view() =~= flat_names(npc.take(i + 1)));
            }
            offset = offset + chain_lengths[i];
            i = i + 1;
        }
        let ghost names = flat_names(npc);
        let ghost gs = flat_globals(lens, npc);
        assert(npc.take(num_chains as int) =~= npc);
        let n = all_joint_names.len();
        // Unique indices, in order of first appearance, and the full-to-reduced map.
        let mut full_to_reduced: Vec<usize> = Vec::new();
        let mut k: usize = 0;
        while k < num_dofs
            invariant
                k <= num_dofs,
                full_to_reduced@ == Seq::new(k as nat, |t: int| 0usize),
            decreases num_dofs - k,
        {
            full_to_reduced.push(0);
            assert(full_to_reduced@ =~= Seq::new((k + 1) as nat, |t: int| 0usize));
            k = k + 1;
        }
        let mut uids: Vec<usize> = Vec::new();
        let mut counter: usize = 0;
        let mut p: usize = 0;
        while p < n
            invariant
                n == names.len(),
                all_joint_names.deep_view() == names,
                all_joint_names@.len() == n,
                globals@.len() == n,
                forall|t: int| 0 <= t < n ==> globals@[t] as int == #[trigger] gs[t],
                forall|t: int| 0 <= t < n ==> 0 <= #[trigger] gs[t] < num_dofs,
                gs.len() == n,
                p <= n,
                uids@.len() == p,
                forall|t: int| 0 <= t < p ==> uids@[t] as int == #[trigger] unique_index(names, t),
                counter == count_new(names, p as int),
                full_to_reduced@ == reduced_index_map(names, gs, p as int, num_dofs as int),
            decreases n - p,
        {
            let mut q: usize = 0;
            while q < p && all_joint_names[q] != all_joint_names[p]
                invariant
                    q <= p < n,
                    all_joint_names@.len() == n,
                    all_joint_names.deep_view() == names,
                    forall|t: int| 0 <= t < q ==> names[t] != names[p as int],
                decreases p - q,
            {
                q = q + 1;
            }
            proof {
                lemma_index_in(names, names[p as int], p + 1);
                lemma_index_in(names, names[p as int], p as int);
                lemma_count_new_bound(names, p as int);
            }
            let uid: usize;
            if q < p {
                proof {
                    assert(names[q as int] == names[p as int]);
                    lemma_index_in(names, names[q as int], q + 1);
                    assert(index_in(names, names[p as int], p + 1) == q);
                    assert(index_in(names, names[p as int], p as int) == q);
                    assert(uids@[q as int] as int == unique_index(names, q as int));
                    assert(!is_first(names, p as int));
                }
                uid = uids[q];
            } else {
                assert(index_in(names, names[p as int], p + 1) == p);
                assert(index_in(names, names[p as int], p as int) == p);
                assert(is_first(names, p as int));
                uid = counter;
                counter = counter + 1;
            }
            assert(uid as int == unique_index(names, p as int));
            proof {
                lemma_reduced_index_map_len(names, gs, p as int, num_dofs as int);
                assert(globals@[p as int] as int == gs[p as int]);
            }
            full_to_reduced.set(globals[p], uid);
            uids.push(uid);
            p = p + 1;
        }
        // Every pair of joints with the same name.
        let mut pairs: Vec<(usize, usize)> = Vec::new();
        let mut p: usize = 0;
        while p < n
            invariant
                n == names.len(),
                all_joint_names.deep_view() == names,
                globals@.len() == n,
                forall|t: int| 0 <= t < n ==> globals@[t] as int == #[trigger] gs[t],
                all_joint_names@.len() == n,
                p <= n,
                pairs@ == shared_pairs(names, gs, p as int),
            decreases n - p,
        {
            let ghost base = pairs@;
            let mut q: usize = p + 1;
            while q < n
                invariant
                    n == names.len(),
                    all_joint_names.deep_view() == names,
                    globals@.len() == n,
                    forall|t: int| 0 <= t < n ==> globals@[t] as int == #[trigger] gs[t],
                    all_joint_names@.len() == n,
                    p < q <= n,
                    pairs@ == base + shared_pairs_from(names, gs, p as int, q as int),
                decreases n - q,
            {
                if all_joint_names[p] == all_joint_names[q] {
                    pairs.push((globals[p], globals[q]));
                }
                assert(pairs@ =~= base + shared_pairs_from(names, gs, p as int, q + 1));
                q = q + 1;
            }
            assert(pairs@ =~= shared_pairs(names, gs, p + 1));
            p = p + 1;
        }
        sort_pairs(&mut pairs);
        Robot {
            num_chains,
            num_dofs,
            chain_lengths,
            all_joint_names,
            joint_names_per_chain,
            shared_joint_pairs: pairs,
            full_to_reduced,
            num_unique_dofs: counter,
        }
    }
}

/// The full-space vector whose entry `i` is the reduced entry that full index `i` maps to.
pub open spec fn spec_expand<T>(full_to_reduced: Seq<usize>, num_dofs: int, x_reduced: Seq<T>) -> Seq<T> {
    Seq::new(num_dofs as nat, |i: int| x_reduced[full_to_reduced[i] as int])
}

/// The full indices below `k` that map to reduced index `u`, in increasing order.
pub open spec fn full_indices_of(full_to_reduced: Seq<usize>, u: int, k: int) -> Seq<usize>
    decreases k,
{
    if k <= 0 {
        seq![]
    } else {
        full_indices_of(full_to_reduced, u, k - 1) + if full_to_reduced[k - 1] == u {
            seq![(k - 1) as usize]
        } else {
            seq![]
        }
    }
}

/// The half-open range of variable indices of each of the first `n` chains.
pub open spec fn spec_chain_ranges(chain_lengths: Seq<usize>, n: int) -> Seq<(usize, usize)> {
    Seq::new(
        n as nat,
        |i: int|
            (sum_lens(chain_lengths.take(i)) as usize, sum_lens(chain_lengths.take(i + 1)) as usize),
    )
}

impl Robot {
    /// Whether some physical joint appears in more than one place.
    pub fn has_shared_joints(&self) -> (r: bool)
        ensures
            r == (self.shared_joint_pairs@.len() > 0),
    {
        self.shared_joint_pairs.len() > 0
    }

    /// Expand reduced-space variables to full-space (duplicate shared joint values).
    pub fn expand_to_full<T: Copy>(&self, x_reduced: &[T]) -> (r: Vec<T>)
        requires
            self.num_dofs <= self.full_to_reduced@.len(),
            forall|i: int|
                0 <= i < self.num_dofs ==> #[trigger] self.full_to_reduced@[i] < x_reduced@.len(),
        ensures
            r@ == spec_expand(self.full_to_reduced@, self.num_dofs as int, x_reduced@),
    {
        let mut x_full: Vec<T> = Vec::new();
        let mut i: usize = 0;
        while i < self.num_dofs
            invariant
                i <= self.num_dofs <= self.full_to_reduced@.len(),
                forall|k: int|
                    0 <= k < self.num_dofs ==> #[trigger] self.full_to_reduced@[k] < x_reduced@.len(),
                x_full@ == spec_expand(self.full_to_reduced@, i as int, x_reduced@),
            decreases self.num_dofs - i,
        {
            x_full.push(x_reduced[self.full_to_reduced[i]]);
            assert(x_full@ =~= spec_expand(self.full_to_reduced@, i + 1, x_reduced@));
            i = i + 1;
        }
        x_full
    }

    /// For each unique DOF, the full DOF indices that map to it, in increasing
    /// order: what reducing a full-space vector averages or sums together.
    pub fn full_indices_per_unique_dof(&self) -> (r: Vec<Vec<usize>>)
        requires
            self.num_dofs <= self.full_to_reduced@.len(),
        ensures
            r@.len() == self.num_unique_dofs,
            forall|u: int|
                0 <= u < self.num_unique_dofs ==> #[trigger] r@[u]@ == full_indices_of(
                    self.full_to_reduced@,
                    u,
                    self.num_dofs as int,
                ),
    {
        let mut groups: Vec<Vec<usize>> = Vec::new();
        let mut u: usize = 0;
        while u < self.num_unique_dofs
            invariant
                u <= self.num_unique_dofs,
                self.num_dofs <= self.full_to_reduced@.len(),
                groups@.len() == u,
                forall|t: int|
                    0 <= t < u ==> #[trigger] groups@[t]@ == full_indices_of(
                        self.full_to_reduced@,
                        t,
                        self.num_dofs as int,
                    ),
            decreases self.num_unique_dofs - u,
        {
            let mut members: Vec<usize> = Vec::new();
            let mut i: usize = 0;
            while i < self.num_dofs
                invariant
                    i <= self.num_dofs <= self.full_to_reduced@.len(),
                    members@ == full_indices_of(self.full_to_reduced@, u as int, i as int),
                decreases self.num_dofs - i,
            {
                if self.full_to_reduced[i] == u {
                    members.push(i);
                }
                assert(members@ =~= full_indices_of(self.full_to_reduced@, u as int, i + 1));
                i = i + 1;
            }
            groups.push(members);
            u = u + 1;
        }
        groups
    }

    /// The half-open range `[l, r)` of variable indices of each chain, chain
    /// after chain: where the per-chain kinematics read their joint values.
    pub fn chain_ranges(&self) -> (r: Vec<(usize, usize)>)
        requires
            self.num_chains <= self.chain_lengths@.len(),
            sum_lens(self.chain_lengths@.take(self.num_chains as int)) <= usize::MAX,
        ensures
            r@ == spec_chain_ranges(self.chain_lengths@, self.num_chains as int),
            r@.len() == self.num_chains,
            r@.len() > 0 ==> r@[0].0 == 0,
            forall|i: int|
                0 <= i < r@.len() ==> #[trigger] r@[i].1 - r@[i].0 == self.chain_lengths@[i],
            forall|i: int| 0 <= i < r@.len() - 1 ==> #[trigger] r@[i].1 == r@[i + 1].0,
    {
        proof {
            law_chain_ranges_tile(self.chain_lengths@, self.num_chains as int);
        }
        let ghost lens = self.chain_lengths@;
        let mut ranges: Vec<(usize, usize)> = Vec::new();
        let mut l: usize = 0;
        let mut i: usize = 0;
        while i < self.num_chains
            invariant
                lens == self.chain_lengths@,
                i <= self.num_chains <= lens.len(),
                sum_lens(lens.take(self.num_chains as int)) <= usize::MAX,
                l == sum_lens(lens.take(i as int)),
                ranges@ == spec_chain_ranges(lens, i as int),
            decreases self.num_chains - i,
        {
            proof {
                lemma_sum_lens_step(lens, i as int);
                lemma_sum_lens_prefix(lens, i + 1, self.num_chains as int);
            }
            let r = l + self.chain_lengths[i];
            ranges.push((l, r));
            assert(ranges@ =~= spec_chain_ranges(lens, i + 1));
            l = r;
            i = i + 1;
        }
        ranges
    }
}

// ---------------------------------------------------------------------------
// Laws of the joint topology
// ---------------------------------------------------------------------------

/// The identity map on `0..n`.
pub open spec fn identity_seq(n: int) -> Seq<int> {
    Seq::new(n as nat, |p: int| p)
}

/// When each chain names exactly as many joints as its length, joint `p` in
/// chain order sits at global index `p`.
proof fn lemma_flat_identity(
    chain_lengths: Seq<usize>,
    names_per_chain: Seq<Seq<Seq<char>>>,
    m: int,
)
    requires
        chains_consistent(chain_lengths, names_per_chain),
        0 <= m <= names_per_chain.len(),
    ensures
        flat_names(names_per_chain.take(m)).len() == sum_lens(chain_lengths.take(m)),
        flat_globals(chain_lengths, names_per_chain.take(m)) == identity_seq(
            sum_lens(chain_lengths.take(m)),
        ),
    decreases m,
{
    if m == 0 {
        assert(names_per_chain.take(0) =~= Seq::<Seq<Seq<char>>>::empty());
        assert(chain_lengths.take(0) =~= Seq::<usize>::empty());
        assert(identity_seq(0) =~= Seq::<int>::empty());
    } else {
        lemma_flat_identity(chain_lengths, names_per_chain, m - 1);
        lemma_flat_step(chain_lengths, names_per_chain, m - 1);
        lemma_sum_lens_step(chain_lengths, m - 1);
        lemma_sum_lens_nonneg(chain_lengths.take(m - 1));
        assert(names_per_chain[m - 1].len() == chain_lengths[m - 1]);
        assert(flat_globals(chain_lengths, names_per_chain.take(m)) =~= identity_seq(
            sum_lens(chain_lengths.take(m)),
        ));
    }
}

proof fn lemma_flat_identity_all(chain_lengths: Seq<usize>, names_per_chain: Seq<Seq<Seq<char>>>)
    requires
        chains_consistent(chain_lengths, names_per_chain),
    ensures
        flat_names(names_per_chain).len() == sum_lens(chain_lengths),
        flat_globals(chain_lengths, names_per_chain) == identity_seq(sum_lens(chain_lengths)),
{
    lemma_flat_identity(chain_lengths, names_per_chain, names_per_chain.len() as int);
    assert(names_per_chain.take(names_per_chain.len() as int) =~= names_per_chain);
    assert(chain_lengths.take(chain_lengths.len() as int) =~= chain_lengths);
}

/// `count_new` never decreases.
proof fn lemma_count_new_mono<A>(s: Seq<A>, a: int, b: int)
    requires
        0 <= a <= b,
    ensures
        count_new(s, a) <= count_new(s, b),
    decreases b,
{
    if a < b {
        lemma_count_new_mono(s, a, b - 1);
    }
}

/// The first occurrence of the value at `p` is a first position, and the
/// unique index of `p` is the count of first positions before it.
proof fn lemma_first_occurrence<A>(s: Seq<A>, p: int)
    requires
        0 <= p < s.len(),
    ensures
        index_in(s, s[p], p + 1) <= p,
        s[index_in(s, s[p], p + 1)] == s[p],
        forall|t: int| 0 <= t < index_in(s, s[p], p + 1) ==> s[t] != s[p],
        is_first(s, index_in(s, s[p], p + 1)),
        count_new(s, index_in(s, s[p], p + 1) + 1) == unique_index(s, p) + 1,
{
    let f = index_in(s, s[p], p + 1);
    lemma_index_in(s, s[p], p + 1);
    lemma_index_in(s, s[p], f);
    assert(index_in(s, s[f], f) == f);
}

/// Two positions have the same unique index exactly when they hold the same
/// value, and every unique index is below the number of distinct values.
proof fn lemma_unique_index<A>(s: Seq<A>, p: int, q: int)
    requires
        0 <= p < s.len(),
        0 <= q < s.len(),
    ensures
        (unique_index(s, p) == unique_index(s, q)) <==> (s[p] == s[q]),
        0 <= unique_index(s, p) < count_new(s, s.len() as int),
{
    let fp = index_in(s, s[p], p + 1);
    let fq = index_in(s, s[q], q + 1);
    lemma_first_occurrence(s, p);
    lemma_first_occurrence(s, q);
    lemma_count_new_bound(s, fp);
    lemma_count_new_mono(s, fp + 1, s.len() as int);
    if s[p] == s[q] {
        assert(fp == fq);
    } else {
        assert(fp != fq);
        if fp < fq {
            lemma_count_new_mono(s, fp + 1, fq);
        } else {
            lemma_count_new_mono(s, fq + 1, fp);
        }
    }
}

/// Every count below `count_new(s, k)` is reached at some first position below `k`.
proof fn lemma_count_new_reached<A>(s: Seq<A>, k: int, u: int)
    requires
        0 <= k <= s.len(),
        0 <= u < count_new(s, k),
    ensures
        exists|f: int| 0 <= f < k && is_first(s, f) && count_new(s, f) == u,
    decreases k,
{
    if u < count_new(s, k - 1) {
        lemma_count_new_reached(s, k - 1, u);
        let f = choose|f: int| 0 <= f < k - 1 && is_first(s, f) && count_new(s, f) == u;
        assert(0 <= f < k && is_first(s, f) && count_new(s, f) == u);
    } else {
        assert(is_first(s, k - 1) && count_new(s, k - 1) == u);
    }
}

/// The unique index of a first position is the count of first positions before it.
proof fn lemma_unique_index_of_first<A>(s: Seq<A>, f: int)
    requires
        0 <= f < s.len(),
        is_first(s, f),
    ensures
        unique_index(s, f) == count_new(s, f),
{
    assert(index_in(s, s[f], f + 1) == f);
}

/// All positions below `k` are first positions exactly when `count_new` reaches `k`.
proof fn lemma_count_new_all_first<A>(s: Seq<A>, k: int)
    requires
        0 <= k <= s.len(),
    ensures
        (count_new(s, k) == k) <==> (forall|t: int| 0 <= t < k ==> is_first(s, t)),
    decreases k,
{
    if k > 0 {
        lemma_count_new_all_first(s, k - 1);
        lemma_count_new_bound(s, k - 1);
    }
}

/// A position is not a first position exactly when an earlier one holds its value.
proof fn lemma_not_first<A>(s: Seq<A>, t: int)
    requires
        0 <= t < s.len(),
    ensures
        !is_first(s, t) <==> (exists|r: int| 0 <= r < t && s[r] == s[t]),
{
    lemma_index_in(s, s[t], t);
    if !is_first(s, t) {
        let r = index_in(s, s[t], t);
        assert(0 <= r < t && s[r] == s[t]);
    }
}

/// The full-to-reduced map of consistent chains gives each joint its unique index.
proof fn lemma_reduced_index_map_identity(names: Seq<Seq<char>>, n: int, k: int)
    requires
        names.len() == n,
        0 <= k <= n,
    ensures
        reduced_index_map(names, identity_seq(n), k, n) == Seq::new(
            n as nat,
            |t: int|
                if t < k {
                    unique_index(names, t) as usize
                } else {
                    0usize
                },
        ),
    decreases k,
{
    if k > 0 {
        lemma_reduced_index_map_identity(names, n, k - 1);
    }
    assert(reduced_index_map(names, identity_seq(n), k, n) =~= Seq::new(
        n as nat,
        |t: int|
            if t < k {
                unique_index(names, t) as usize
            } else {
                0usize
            },
    ));
}

pub proof fn lemma_contains_concat<A>(s1: Seq<A>, s2: Seq<A>, x: A)
    ensures
        (s1 + s2).contains(x) <==> (s1.contains(x) || s2.contains(x)),
{
    if (s1 + s2).contains(x) {
        let i = choose|i: int| 0 <= i < (s1 + s2).len() && (s1 + s2)[i] == x;
        if i >= s1.len() {
            assert(s2[i - s1.len()] == x);
        }
    }
    if s1.contains(x) {
        let i = choose|i: int| 0 <= i < s1.len() && s1[i] == x;
        assert((s1 + s2)[i] == x);
    }
    if s2.contains(x) {
        let i = choose|i: int| 0 <= i < s2.len() && s2[i] == x;
        assert((s1 + s2)[s1.len() + i] == x);
    }
}

proof fn lemma_shared_pairs_from_contains(names: Seq<Seq<char>>, n: int, p: int, k: int)
    requires
        names.len() == n <= usize::MAX,
        0 <= p < n,
        k <= n,
    ensures
        forall|a: usize, b: usize|
            #[trigger] shared_pairs_from(names, identity_seq(n), p, k).contains((a, b)) <==> (a
                == p && p < b < k && names[b as int] == names[p]),
    decreases k,
{
    if k > p + 1 && k > 0 {
        lemma_shared_pairs_from_contains(names, n, p, k - 1);
        let tail = if names[k - 1] == names[p] {
            seq![(p as usize, (k - 1) as usize)]
        } else {
            seq![]
        };
        assert(identity_seq(n)[p] == p && identity_seq(n)[k - 1] == k - 1);
        assert(shared_pairs_from(names, identity_seq(n), p, k) == shared_pairs_from(
            names,
            identity_seq(n),
            p,
            k - 1,
        ) + tail);
        assert forall|a: usize, b: usize|
            #[trigger] shared_pairs_from(names, identity_seq(n), p, k).contains((a, b)) <==> (a
                == p && p < b < k && names[b as int] == names[p]) by {
            lemma_contains_concat(
                shared_pairs_from(names, identity_seq(n), p, k - 1),
                tail,
                (a, b),
            );
            if tail.len() > 0 && tail.contains((a, b)) {
                assert(tail[0] == (a, b));
            }
            if a == p && b == k - 1 && names[b as int] == names[p] {
                assert(tail[0] == (a, b));
            }
        }
    } else {
        assert forall|a: usize, b: usize|
            #[trigger] shared_pairs_from(names, identity_seq(n), p, k).contains((a, b)) implies (
            a == p && p < b < k && names[b as int] == names[p]) by {}
    }
}

proof fn lemma_shared_pairs_contains(names: Seq<Seq<char>>, n: int, m: int)
    requires
        names.len() == n <= usize::MAX,
        0 <= m <= n,
    ensures
        forall|a: usize, b: usize|
            #[trigger] shared_pairs(names, identity_seq(n), m).contains((a, b)) <==> (a < m && a
                < b < n && names[a as int] == names[b as int]),
    decreases m,
{
    if m > 0 {
        lemma_shared_pairs_contains(names, n, m - 1);
        lemma_shared_pairs_from_contains(names, n, m - 1, n);
        assert forall|a: usize, b: usize|
            #[trigger] shared_pairs(names, identity_seq(n), m).contains((a, b)) <==> (a < m && a
                < b < n && names[a as int] == names[b as int]) by {
            lemma_contains_concat(
                shared_pairs(names, identity_seq(n), m - 1),
                shared_pairs_from(names, identity_seq(n), m - 1, n),
                (a, b),
            );
        }
    }
}

/// Joints with the same name map to the same reduced index, joints with
/// different names to different ones, and every reduced index is below the
/// number of unique joints: the full-to-reduced map of a robot whose chains
/// each name as many joints as their length.
pub proof fn law_same_name_same_reduced_index(
    r: Robot,
    chain_lengths: Seq<usize>,
    names_per_chain: Seq<Seq<Seq<char>>>,
)
    requires
        built_from(r, chain_lengths, names_per_chain),
        chains_consistent(chain_lengths, names_per_chain),
    ensures
        r.all_joint_names@.len() == r.num_dofs,
        r.full_to_reduced@.len() == r.num_dofs,
        forall|p: int, q: int|
            0 <= p < r.num_dofs && 0 <= q < r.num_dofs ==> ((r.all_joint_names@[p]@
                == r.all_joint_names@[q]@) <==> (#[trigger] r.full_to_reduced@[p]
                == #[trigger] r.full_to_reduced@[q])),
        forall|p: int| 0 <= p < r.num_dofs ==> #[trigger] r.full_to_reduced@[p] < r.num_unique_dofs,
{
    let names = flat_names(names_per_chain);
    let n = r.num_dofs as int;
    lemma_flat_identity_all(chain_lengths, names_per_chain);
    lemma_reduced_index_map_identity(names, n, n);
    assert(r.all_joint_names.deep_view().len() == r.all_joint_names@.len());
    assert forall|p: int, q: int|
        0 <= p < n && 0 <= q < n implies ((r.all_joint_names@[p]@ == r.all_joint_names@[q]@) <==> (
    #[trigger] r.full_to_reduced@[p] == #[trigger] r.full_to_reduced@[q])) by {
        lemma_unique_index(names, p, q);
        lemma_unique_index(names, q, p);
        assert(r.all_joint_names.deep_view()[p] == r.all_joint_names@[p]@);
        assert(r.all_joint_names.deep_view()[q] == r.all_joint_names@[q]@);
    }
    assert forall|p: int| 0 <= p < n implies #[trigger] r.full_to_reduced@[p] < r.num_unique_dofs by {
        lemma_unique_index(names, p, p);
    }
}

/// Some full index below `n` maps to reduced index `u`.
pub open spec fn maps_to(full_to_reduced: Seq<usize>, n: int, u: int) -> bool {
    exists|p: int| 0 <= p < n && full_to_reduced[p] == u
}

/// Every reduced index is the image of some joint, so no unique joint is left
/// without a variable to average or sum.
pub proof fn law_every_unique_dof_is_used(
    r: Robot,
    chain_lengths: Seq<usize>,
    names_per_chain: Seq<Seq<Seq<char>>>,
)
    requires
        built_from(r, chain_lengths, names_per_chain),
        chains_consistent(chain_lengths, names_per_chain),
    ensures
        forall|u: int|
            0 <= u < r.num_unique_dofs ==> #[trigger] maps_to(
                r.full_to_reduced@,
                r.num_dofs as int,
                u,
            ),
{
    let names = flat_names(names_per_chain);
    let n = r.num_dofs as int;
    lemma_flat_identity_all(chain_lengths, names_per_chain);
    lemma_reduced_index_map_identity(names, n, n);
    assert forall|u: int| 0 <= u < r.num_unique_dofs implies #[trigger] maps_to(
        r.full_to_reduced@,
        r.num_dofs as int,
        u,
    ) by {
        lemma_count_new_reached(names, n, u);
        let f = choose|f: int| 0 <= f < n && is_first(names, f) && count_new(names, f) == u;
        lemma_unique_index_of_first(names, f);
        lemma_unique_index(names, f, f);
        assert(r.full_to_reduced@[f] == u);
    }
}

/// The shared joint pairs are exactly the pairs `(a, b)` with `a < b` of
/// variables that belong to joints with the same name.
pub proof fn law_shared_pairs_are_same_name_pairs(
    r: Robot,
    chain_lengths: Seq<usize>,
    names_per_chain: Seq<Seq<Seq<char>>>,
)
    requires
        built_from(r, chain_lengths, names_per_chain),
        chains_consistent(chain_lengths, names_per_chain),
    ensures
        forall|a: usize, b: usize|
            #[trigger] r.shared_joint_pairs@.contains((a, b)) <==> (a < b < r.num_dofs
                && r.all_joint_names@[a as int]@ == r.all_joint_names@[b as int]@),
{
    let names = flat_names(names_per_chain);
    let n = r.num_dofs as int;
    lemma_flat_identity_all(chain_lengths, names_per_chain);
    lemma_shared_pairs_contains(names, n, n);
    r.shared_joint_pairs@.to_multiset_ensures();
    shared_pairs(names, identity_seq(n), n).to_multiset_ensures();
    assert forall|a: usize, b: usize|
        #[trigger] r.shared_joint_pairs@.contains((a, b)) <==> (a < b < r.num_dofs
            && r.all_joint_names@[a as int]@ == r.all_joint_names@[b as int]@) by {
        assert(r.shared_joint_pairs@.to_multiset().count((a, b)) == shared_pairs(
            names,
            identity_seq(n),
            n,
        ).to_multiset().count((a, b)));
        if a < n {
            assert(r.all_joint_names.deep_view()[a as int] == r.all_joint_names@[a as int]@);
        }
        if b < n {
            assert(r.all_joint_names.deep_view()[b as int] == r.all_joint_names@[b as int]@);
        }
    }
}

/// Expanding any reduced vector gives the two variables of every shared joint
/// pair the same value, so shared joints never disagree after variable reduction.
pub proof fn law_expansion_agrees_on_shared_joints<T>(
    r: Robot,
    chain_lengths: Seq<usize>,
    names_per_chain: Seq<Seq<Seq<char>>>,
    x_reduced: Seq<T>,
)
    requires
        built_from(r, chain_lengths, names_per_chain),
        chains_consistent(chain_lengths, names_per_chain),
    ensures
        forall|k: int|
            0 <= k < r.shared_joint_pairs@.len() ==> {
                let (a, b) = #[trigger] r.shared_joint_pairs@[k];
                &&& a < b < r.num_dofs
                &&& spec_expand(r.full_to_reduced@, r.num_dofs as int, x_reduced)[a as int]
                    == spec_expand(r.full_to_reduced@, r.num_dofs as int, x_reduced)[b as int]
            },
{
    law_shared_pairs_are_same_name_pairs(r, chain_lengths, names_per_chain);
    law_same_name_same_reduced_index(r, chain_lengths, names_per_chain);
    assert forall|k: int| 0 <= k < r.shared_joint_pairs@.len() implies {
        let (a, b) = #[trigger] r.shared_joint_pairs@[k];
        &&& a < b < r.num_dofs
        &&& spec_expand(r.full_to_reduced@, r.num_dofs as int, x_reduced)[a as int]
            == spec_expand(r.full_to_reduced@, r.num_dofs as int, x_reduced)[b as int]
    } by {
        let (a, b) = r.shared_joint_pairs@[k];
        assert(r.shared_joint_pairs@.contains((a, b)));
        assert(r.full_to_reduced@[a as int] == r.full_to_reduced@[b as int]);
    }
}

/// A robot has shared joints exactly when it has fewer unique joints than
/// degrees of freedom.
pub proof fn law_shared_iff_fewer_unique_dofs(
    r: Robot,
    chain_lengths: Seq<usize>,
    names_per_chain: Seq<Seq<Seq<char>>>,
)
    requires
        built_from(r, chain_lengths, names_per_chain),
        chains_consistent(chain_lengths, names_per_chain),
    ensures
        r.num_unique_dofs <= r.num_dofs,
        (r.shared_joint_pairs@.len() > 0) <==> (r.num_unique_dofs < r.num_dofs),
{
    let names = flat_names(names_per_chain);
    let n = r.num_dofs as int;
    lemma_flat_identity_all(chain_lengths, names_per_chain);
    law_shared_pairs_are_same_name_pairs(r, chain_lengths, names_per_chain);
    lemma_count_new_bound(names, n);
    lemma_count_new_all_first(names, n);
    assert(r.all_joint_names.deep_view().len() == r.all_joint_names@.len());
    if r.shared_joint_pairs@.len() > 0 {
        let (a, b) = r.shared_joint_pairs@[0];
        assert(r.shared_joint_pairs@.contains((a, b)));
        assert(r.all_joint_names.deep_view()[a as int] == r.all_joint_names@[a as int]@);
        assert(r.all_joint_names.deep_view()[b as int] == r.all_joint_names@[b as int]@);
        lemma_not_first(names, b as int);
    }
    if r.num_unique_dofs < r.num_dofs {
        let t = choose|t: int| 0 <= t < n && !is_first(names, t);
        lemma_not_first(names, t);
        let a = choose|a: int| 0 <= a < t && names[a] == names[t];
        assert(r.all_joint_names.deep_view()[a] == r.all_joint_names@[a]@);
        assert(r.all_joint_names.deep_view()[t] == r.all_joint_names@[t]@);
        assert(r.shared_joint_pairs@.contains((a as usize, t as usize)));
    }
}

/// Full index `i` is in the group of reduced index `u` exactly when it maps to
/// `u`, and every group is strictly increasing: the groups of
/// `full_indices_per_unique_dof` split the full indices among the unique joints,
/// each index in the group of its own joint only.
pub proof fn law_groups_partition_full_indices(full_to_reduced: Seq<usize>, n: int, u: int)
    requires
        0 <= n <= full_to_reduced.len(),
        n <= usize::MAX + 1,
    ensures
        forall|i: int|
            0 <= i < n ==> (full_indices_of(full_to_reduced, u, n).contains(i as usize) <==> #[trigger] full_to_reduced[i]
                == u),
        forall|a: int, b: int|
            0 <= a < b < full_indices_of(full_to_reduced, u, n).len() ==> full_indices_of(
                full_to_reduced,
                u,
                n,
            )[a] < full_indices_of(full_to_reduced, u, n)[b],
        forall|a: int|
            0 <= a < full_indices_of(full_to_reduced, u, n).len() ==> full_indices_of(
                full_to_reduced,
                u,
                n,
            )[a] < n,
    decreases n,
{
    if n > 0 {
        law_groups_partition_full_indices(full_to_reduced, n - 1, u);
        let prev = full_indices_of(full_to_reduced, u, n - 1);
        let tail = if full_to_reduced[n - 1] == u {
            seq![(n - 1) as usize]
        } else {
            seq![]
        };
        assert(full_indices_of(full_to_reduced, u, n) == prev + tail);
        assert forall|i: int|
            0 <= i < n implies (full_indices_of(full_to_reduced, u, n).contains(i as usize) <==> #[trigger] full_to_reduced[i]
                == u) by {
            lemma_contains_concat(prev, tail, i as usize);
            if i < n - 1 {
                if tail.contains(i as usize) {
                    assert(tail[0] == i as usize);
                }
            } else {
                if prev.contains(i as usize) {
                    let k = choose|k: int| 0 <= k < prev.len() && prev[k] == i as usize;
                    assert(prev[k] < n - 1);
                }
                if full_to_reduced[i] == u {
                    assert(tail[0] == i as usize);
                }
            }
        }
    }
}

/// The chain ranges tile the variables in chain order: the first starts at 0,
/// each ends where the next begins, and range `i` is `chain_lengths[i]` wide;
/// so range `i` starts after the joints of all earlier chains.
pub proof fn law_chain_ranges_tile(chain_lengths: Seq<usize>, n: int)
    requires
        0 <= n <= chain_lengths.len(),
        sum_lens(chain_lengths.take(n)) <= usize::MAX,
    ensures
        spec_chain_ranges(chain_lengths, n).len() == n,
        n > 0 ==> spec_chain_ranges(chain_lengths, n)[0].0 == 0,
        forall|i: int|
            0 <= i < n ==> #[trigger] spec_chain_ranges(chain_lengths, n)[i].1 - spec_chain_ranges(
                chain_lengths,
                n,
            )[i].0 == chain_lengths[i],
        forall|i: int|
            0 <= i < n - 1 ==> #[trigger] spec_chain_ranges(chain_lengths, n)[i].1
                == spec_chain_ranges(chain_lengths, n)[i + 1].0,
        forall|i: int|
            0 <= i < n ==> #[trigger] spec_chain_ranges(chain_lengths, n)[i].0 == sum_lens(
                chain_lengths.take(i),
            ),
{
    let r = spec_chain_ranges(chain_lengths, n);
    assert(chain_lengths.take(0) =~= Seq::<usize>::empty());
    assert forall|i: int| 0 <= i < n implies #[trigger] r[i].1 - r[i].0 == chain_lengths[i]
        && r[i].0 == sum_lens(chain_lengths.take(i)) by {
        lemma_sum_lens_step(chain_lengths, i);
        lemma_sum_lens_prefix(chain_lengths, i, i + 1);
        lemma_sum_lens_prefix(chain_lengths, i + 1, n);
    }
    assert forall|i: int| 0 <= i < n - 1 implies #[trigger] r[i].1 == r[i + 1].0 by {
        lemma_sum_lens_prefix(chain_lengths, i + 1, n);
    }
    assert forall|i: int| 0 <= i < n implies #[trigger] r[i].0 == sum_lens(chain_lengths.take(i)) by {
        lemma_sum_lens_prefix(chain_lengths, i, n);
    }
}

} // verus!
