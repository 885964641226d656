//! The dice engine: given a roll count, a die size, a filter modifier and
//! a random source, produces the individual surviving die values and their
//! sum.  The random source is an injected capability, so a deterministic
//! substitute can drive the engine in tests; the contract therefore states
//! what holds of every outcome: how many values survive each filter, that
//! each value is a legal face, and that the total is exactly their sum.

use vstd::prelude::*;
use vstd::multiset::Multiset;
use crate::filtermodifier::FilterModifier;

verus! {

/// A source of random 64-bit values.  Nothing is promised of the values,
/// so everything proved about the engine holds for every implementation —
/// the operating system's generator as well as a deterministic test rig.
pub trait RandomSource {
    fn next_u64(&mut self) -> u64;
}

/// The process-wide random source: the operating system's generator.
pub struct OsRandom;

/// Relies on `rand_core`'s `OsRng::next_u64` (via `getrandom`): a random
/// value from the operating system, about which nothing can be promised.
/// Panics only if the system's generator is unavailable.
#[verifier::external_body]
fn os_next_u64() -> u64 {
    rand_core::RngCore::next_u64(&mut rand_core::OsRng)
}

impl RandomSource for OsRandom {
    fn next_u64(&mut self) -> u64 {
        os_next_u64()
    }
}

/// The result of physically rolling dice: the surviving face values in
/// display order, their sum, and the (positive) number of sides used.
#[derive(Debug)]
pub struct Roll {
    pub vals: Vec<u64>,
    pub total: i64,
    pub sides: u64,
}

/// The sum of a sequence of face values.
pub open spec fn seq_sum(s: Seq<u64>) -> int
    decreases s.len(),
{
    if s.len() == 0 {
        0
    } else {
        seq_sum(s.drop_last()) + s.last()
    }
}

/// A well-formed roll: a positive die size, every value a legal face of
/// that die, and the total exactly the sum of the values.
pub open spec fn roll_wf(r: Roll) -> bool {
    &&& r.sides >= 1
    &&& r.total == seq_sum(r.vals@)
    &&& forall|i: int| 0 <= i < r.vals@.len() ==> 1 <= #[trigger] r.vals@[i] <= r.sides
}

/// How many of `n` rolled dice survive a filter: keeping `k` leaves
/// `min(k, n)`, dropping `k` leaves the rest, and no filter leaves all.
pub open spec fn filter_count(n: nat, fm: FilterModifier<u64>) -> nat {
    match fm {
        FilterModifier::KeepLowest(k) => if k < n {
            k as nat
        } else {
            n
        },
        FilterModifier::KeepHighest(k) => if k < n {
            k as nat
        } else {
            n
        },
        FilterModifier::DropLowest(k) => if k < n {
            (n - k) as nat
        } else {
            0
        },
        FilterModifier::DropHighest(k) => if k < n {
            (n - k) as nat
        } else {
            0
        },
        FilterModifier::Unfiltered => n,
    }
}

/// A sequence whose values all lie in `[1, sides]` sums to at most
/// `len * sides`.
proof fn lemma_sum_bound(s: Seq<u64>, sides: u64)
    requires
        forall|i: int| 0 <= i < s.len() ==> 1 <= #[trigger] s[i] <= sides,
    ensures
        0 <= seq_sum(s) <= s.len() * sides,
    decreases s.len(),
{
    if s.len() > 0 {
        lemma_sum_bound(s.drop_last(), sides);
        assert((s.len() - 1) * sides + sides == s.len() * sides) by (nonlinear_arith);
    }
}

/// Every value of `kept` is at most every value the selection dropped.
pub open spec fn keeps_lowest(kept: Multiset<u64>, all: Multiset<u64>) -> bool {
    forall|a: u64, b: u64|
        #[trigger] kept.count(a) > 0 && #[trigger] all.sub(kept).count(b) > 0 ==> a <= b
}

/// Every value of `kept` is at least every value the selection dropped.
pub open spec fn keeps_highest(kept: Multiset<u64>, all: Multiset<u64>) -> bool {
    forall|a: u64, b: u64|
        #[trigger] kept.count(a) > 0 && #[trigger] all.sub(kept).count(b) > 0 ==> a >= b
}

/// `kept` takes no value more often than `all` holds it.
pub open spec fn sub_multiset(kept: Multiset<u64>, all: Multiset<u64>) -> bool {
    forall|a: u64| #[trigger] kept.count(a) <= all.count(a)
}

/// Sorts the values ascending in place, preserving the multiset.
fn sort_faces(v: &mut Vec<u64>)
    ensures
        final(v)@.len() == old(v)@.len(),
        final(v)@.to_multiset() == old(v)@.to_multiset(),
        forall|a: int, b: int| 0 <= a < b < final(v)@.len() ==> final(v)@[a] <= final(v)@[b],
{
    broadcast use vstd::seq_lib::group_to_multiset_ensures;
    broadcast use vstd::multiset::group_multiset_axioms;

    let ghost m0 = v@.to_multiset();
    let ghost n0 = v@.len();
    let mut i: usize = 1;
    while i < v.len()
        invariant
            1 <= i,
            v@.len() == n0,
            v@.to_multiset() == m0,
            forall|a: int, b: int| 0 <= a < b < i && b < v@.len() ==> v@[a] <= v@[b],
        decreases v@.len() - i,
    {
        let mut j: usize = i;
        while j > 0 && v[j - 1] > v[j]
            invariant
                j <= i < v@.len(),
                v@.len() == n0,
                v@.to_multiset() == m0,
                forall|a: int, b: int|
                    0 <= a < b <= i && a != j && b != j ==> v@[a] <= v@[b],
                forall|b: int| j < b <= i ==> v@[j as int] <= v@[b],
            decreases j,
        {
            let ghost pre = v@;
            let x = v[j - 1];
            let y = v[j];
            v.set(j - 1, y);
            v.set(j, x);
            proof {
                let u1 = pre.update(j as int - 1, y);
                assert(v@ == u1.update(j as int, x));
                vstd::seq_lib::to_multiset_update(pre, j as int - 1, y);
                assert(u1.to_multiset() == pre.to_multiset().insert(y).remove(x));
                assert(u1[j as int] == y);
                vstd::seq_lib::to_multiset_update(u1, j as int, x);
                assert(v@.to_multiset() == u1.to_multiset().insert(x).remove(y));
                assert(pre.contains(x)) by {
                    assert(pre[j as int - 1] == x);
                }
                vstd::seq_lib::to_multiset_contains(pre, x);
                assert(pre.to_multiset().count(x) > 0);
                assert(v@.to_multiset() =~= m0);
            }
            j = j - 1;
        }
        proof {
            assert forall|a: int, b: int|
                0 <= a < b <= i && b < v@.len() implies v@[a] <= v@[b] by {
                if b == j {
                    assert(j > 0 && !(v@[j - 1] > v@[j as int]));
                    if a == j - 1 {
                    } else {
                        assert(v@[a] <= v@[j - 1]);
                    }
                } else if a == j {
                } else {
                }
            }
        }
        i = i + 1;
    }
}

/// Sorts the faces and keeps the segment the filter selects: the lowest
/// or highest `k` when keeping, the rest when dropping.  The survivors
/// are exactly an order-statistics selection: a sub-multiset of the given
/// faces of the filter's size, and — depending on the filter's kind —
/// every survivor is at most, or at least, every dropped value.
pub fn select_faces(faces: Vec<u64>, fm: FilterModifier<u64>) -> (r: Vec<u64>)
    ensures
        r@.len() == filter_count(faces@.len(), fm),
        sub_multiset(r@.to_multiset(), faces@.to_multiset()),
        forall|i: int| 0 <= i < r@.len() ==> faces@.contains(#[trigger] r@[i]),
        fm is KeepLowest || fm is DropHighest ==> keeps_lowest(
            r@.to_multiset(),
            faces@.to_multiset(),
        ),
        fm is KeepHighest || fm is DropLowest ==> keeps_highest(
            r@.to_multiset(),
            faces@.to_multiset(),
        ),
        fm is Unfiltered ==> r@.to_multiset() == faces@.to_multiset(),
{
    broadcast use vstd::seq_lib::group_to_multiset_ensures;

    let ghost faces0 = faces@;
    let mut v = faces;
    sort_faces(&mut v);
    let n: usize = v.len();
    let lo: usize;
    let hi: usize;
    match &fm {
        FilterModifier::KeepLowest(k) => {
            let cnt: usize = if *k < n as u64 {
                *k as usize
            } else {
                n
            };
            lo = 0;
            hi = cnt;
        },
        FilterModifier::KeepHighest(k) => {
            let cnt: usize = if *k < n as u64 {
                *k as usize
            } else {
                n
            };
            lo = n - cnt;
            hi = n;
        },
        FilterModifier::DropLowest(k) => {
            let cnt: usize = if *k < n as u64 {
                *k as usize
            } else {
                n
            };
            lo = cnt;
            hi = n;
        },
        FilterModifier::DropHighest(k) => {
            let cnt: usize = if *k < n as u64 {
                *k as usize
            } else {
                n
            };
            lo = 0;
            hi = n - cnt;
        },
        FilterModifier::Unfiltered => {
            lo = 0;
            hi = n;
        },
    }
    let mut out: Vec<u64> = Vec::new();
    let mut idx: usize = lo;
    while idx < hi
        invariant
            lo <= idx <= hi <= v@.len(),
            out@ == v@.subrange(lo as int, idx as int),
        decreases hi - idx,
    {
        out.push(v[idx]);
        idx = idx + 1;
        proof {
            assert(out@ =~= v@.subrange(lo as int, idx as int));
        }
    }
    proof {
        lemma_segment_selection(v@, faces0, lo as int, hi as int);
        assert(out@ =~= v@.subrange(lo as int, hi as int));
    }
    out
}

/// A segment of a sorted sequence is a sub-multiset of the whole; its
/// values do not exceed those after it and are not below those before it.
proof fn lemma_segment_selection(v: Seq<u64>, orig: Seq<u64>, lo: int, hi: int)
    requires
        0 <= lo <= hi <= v.len(),
        v.to_multiset() == orig.to_multiset(),
        forall|a: int, b: int| 0 <= a < b < v.len() ==> v[a] <= v[b],
    ensures
        ({
            let kept = v.subrange(lo, hi).to_multiset();
            let all = orig.to_multiset();
            &&& sub_multiset(kept, all)
            &&& forall|i: int| lo <= i < hi ==> orig.contains(#[trigger] v[i])
            &&& lo == 0 ==> keeps_lowest(kept, all)
            &&& hi == v.len() ==> keeps_highest(kept, all)
            &&& (lo == 0 && hi == v.len()) ==> kept == all
        }),
{
    broadcast use vstd::seq_lib::group_to_multiset_ensures;

    let kept = v.subrange(lo, hi).to_multiset();
    let all = orig.to_multiset();
    let pre = v.subrange(0, lo);
    let mid = v.subrange(lo, hi);
    let post = v.subrange(hi, v.len() as int);
    assert(v =~= (pre + mid) + post);
    vstd::seq_lib::lemma_multiset_commutative(pre, mid);
    vstd::seq_lib::lemma_multiset_commutative(pre + mid, post);
    assert(v.to_multiset() == pre.to_multiset().add(mid.to_multiset()).add(post.to_multiset()));
    assert(sub_multiset(kept, all)) by {
        assert forall|a: u64| #[trigger] kept.count(a) <= all.count(a) by {
            assert(all.count(a) == pre.to_multiset().count(a) + mid.to_multiset().count(a)
                + post.to_multiset().count(a));
        }
    }
    assert forall|i: int| lo <= i < hi implies orig.contains(#[trigger] v[i]) by {
        assert(v.contains(v[i]));
        assert(v.to_multiset().count(v[i]) > 0);
        assert(orig.to_multiset().count(v[i]) > 0);
    }
    if lo == 0 {
        assert(keeps_lowest(kept, all)) by {
            assert forall|a: u64, b: u64|
                #[trigger] kept.count(a) > 0 && #[trigger] all.sub(kept).count(b)
                    > 0 implies a <= b by {
                assert(mid.contains(a));
                let ia = choose|ia: int| 0 <= ia < mid.len() && mid[ia] == a;
                assert(pre.len() == 0);
                assert(pre.to_multiset().count(b) == 0) by {
                    assert(pre =~= Seq::<u64>::empty());
                }
                assert(all.sub(kept).count(b) == pre.to_multiset().count(b)
                    + post.to_multiset().count(b));
                assert(post.to_multiset().count(b) > 0);
                assert(post.contains(b));
                let ib = choose|ib: int| 0 <= ib < post.len() && post[ib] == b;
                assert(v[lo + ia] == a);
                assert(v[hi + ib] == b);
                if lo + ia < hi + ib {
                    assert(v[lo + ia] <= v[hi + ib]);
                }
            }
        }
    }
    if hi == v.len() {
        assert(keeps_highest(kept, all)) by {
            assert forall|a: u64, b: u64|
                #[trigger] kept.count(a) > 0 && #[trigger] all.sub(kept).count(b)
                    > 0 implies a >= b by {
                assert(mid.contains(a));
                let ia = choose|ia: int| 0 <= ia < mid.len() && mid[ia] == a;
                assert(post.to_multiset().count(b) == 0) by {
                    assert(post =~= Seq::<u64>::empty());
                }
                assert(all.sub(kept).count(b) == pre.to_multiset().count(b)
                    + post.to_multiset().count(b));
                assert(pre.to_multiset().count(b) > 0);
                assert(pre.contains(b));
                let ib = choose|ib: int| 0 <= ib < pre.len() && pre[ib] == b;
                assert(v[lo + ia] == a);
                assert(v[ib] == b);
                if ib < lo + ia {
                    assert(v[ib] <= v[lo + ia]);
                }
            }
        }
    }
    if lo == 0 && hi == v.len() {
        assert(mid =~= v);
    }
}

/// Rolls `times` dice with `sides` sides, applies the filter, reshuffles
/// the survivors' display order, and sums them.  For every outcome of the
/// random source: the number of surviving values is exactly what the
/// filter leaves of `times` dice, each value is a face of the die, and the
/// total is exactly the sum of the surviving values.
pub fn roll_die<R: RandomSource>(times: u64, sides: u64, fm: FilterModifier<u64>, rng: &mut R) -> (r:
    Roll)
    requires
        sides >= 1,
        times < usize::MAX,
        times * sides <= i64::MAX,
    ensures
        r.sides == sides,
        roll_wf(r),
        r.vals@.len() == filter_count(times as nat, fm),
{
    let mut drawn: Vec<u64> = Vec::new();
    let mut k: u64 = 0;
    while k < times
        invariant
            k <= times,
            times < usize::MAX,
            drawn@.len() == k,
            forall|i: int| 0 <= i < drawn@.len() ==> 1 <= #[trigger] drawn@[i] <= sides,
            sides >= 1,
        decreases times - k,
    {
        let x = rng.next_u64();
        let face = x % sides + 1;
        drawn.push(face);
        k = k + 1;
    }
    let ghost drawn0 = drawn@;
    let mut rolls: Vec<u64> = select_faces(drawn, fm);
    proof {
        assert(rolls@.len() == filter_count(times as nat, fm));
        assert forall|i: int| 0 <= i < rolls@.len() implies 1 <= #[trigger] rolls@[i]
            <= sides by {
            assert(drawn0.contains(rolls@[i]));
        }
    }
    proof {
        assert(rolls@.len() <= times as nat);
    }
    if rolls.len() > 0 {
        let range: u64 = rolls.len() as u64;
        let ghost n1 = rolls@.len();
        let mut t: usize = 0;
        while t < rolls.len() + 1
            invariant
                rolls@.len() == n1,
                n1 >= 1,
                n1 <= times as nat,
                times < usize::MAX,
                range == n1,
                forall|i: int| 0 <= i < rolls@.len() ==> 1 <= #[trigger] rolls@[i] <= sides,
            decreases rolls@.len() + 1 - t,
        {
            let a = rng.next_u64() % range + 1;
            let b = rng.next_u64() % range + 1;
            let x = rolls[(a - 1) as usize];
            let y = rolls[(b - 1) as usize];
            rolls.set((a - 1) as usize, y);
            rolls.set((b - 1) as usize, x);
            t = t + 1;
        }
    }
    let mut total: u64 = 0;
    let mut m: usize = 0;
    proof {
        lemma_sum_bound(rolls@, sides);
    }
    while m < rolls.len()
        invariant
            m <= rolls@.len(),
            rolls@.len() <= times,
            sides >= 1,
            times * sides <= i64::MAX,
            forall|i: int| 0 <= i < rolls@.len() ==> 1 <= #[trigger] rolls@[i] <= sides,
            total == seq_sum(rolls@.subrange(0, m as int)),
            total <= m * sides,
        decreases rolls@.len() - m,
    {
        proof {
            assert(rolls@.subrange(0, m + 1).drop_last() =~= rolls@.subrange(0, m as int));
            assert(m * sides + sides <= times * sides) by (nonlinear_arith)
                requires
                    m < rolls@.len() && rolls@.len() <= times && sides >= 1 && 0 <= m,
            ;
            assert((m + 1) * sides == m * sides + sides) by (nonlinear_arith);
        }
        total = total + rolls[m];
        m = m + 1;
    }
    proof {
        assert(rolls@.subrange(0, rolls@.len() as int) =~= rolls@);
        assert(rolls@.len() * sides <= times * sides) by (nonlinear_arith)
            requires
                rolls@.len() <= times && sides >= 1,
        ;
        assert(total <= i64::MAX as u64);
    }
    Roll { total: total as i64, vals: rolls, sides }
}

/// The compass directions a direction roll can land on.
pub open spec fn dir_name(i: int) -> Seq<char> {
    if i == 0 { "North"@ }
    else if i == 1 { "North East"@ }
    else if i == 2 { "East"@ }
    else if i == 3 { "South East"@ }
    else if i == 4 { "South"@ }
    else if i == 5 { "South West"@ }
    else if i == 6 { "West"@ }
    else if i == 7 { "North West"@ }
    else { "Stay"@ }
}

/// The compass name a rolled total maps to: total 1 is north, rising
/// clockwise, and 9 is staying put.  The mapping is pure logic, pinned
/// here; only which total comes up is random.
pub fn direction_name(total: i64) -> (r: String)
    requires
        1 <= total <= 9,
    ensures
        r@ == dir_name(total - 1),
{
    if total == 1 {
        "North".to_owned()
    } else if total == 2 {
        "North East".to_owned()
    } else if total == 3 {
        "East".to_owned()
    } else if total == 4 {
        "South East".to_owned()
    } else if total == 5 {
        "South".to_owned()
    } else if total == 6 {
        "South West".to_owned()
    } else if total == 7 {
        "West".to_owned()
    } else if total == 8 {
        "North West".to_owned()
    } else {
        "Stay".to_owned()
    }
}

/// Rolls one nine-sided die and names the compass direction (or staying
/// put) it lands on; which one is up to the random source, and the name
/// is exactly [`direction_name`] of the rolled total.
pub fn roll_direction<R: RandomSource>(rng: &mut R) -> (r: String)
    ensures
        exists|i: int| 0 <= i < 9 && r@ == #[trigger] dir_name(i),
{
    let value = roll_die(1, 9, FilterModifier::Unfiltered, rng);
    proof {
        assert(seq_sum(value.vals@) == seq_sum(value.vals@.drop_last()) + value.vals@.last());
        assert(value.vals@.drop_last() =~= Seq::<u64>::empty());
        assert(seq_sum(Seq::<u64>::empty()) == 0);
        assert(value.total == value.vals@[0]);
    }
    let r = direction_name(value.total);
    proof {
        assert(r@ == dir_name(value.total - 1));
    }
    r
}

} // verus!
