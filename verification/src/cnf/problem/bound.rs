use vstd::prelude::*;

verus! {

/// The power of three.
pub open spec fn pow3(k: int) -> int
    decreases k,
{
    if k <= 0 {
        1
    } else {
        3 * pow3(k - 1)
    }
}

/// The powers of three up to the one of `a`, taken together: no search
/// over `a` open variables meets more conflicts.
pub open spec fn cap(a: int) -> int
    decreases a,
{
    if a <= 0 {
        1
    } else {
        cap(a - 1) + pow3(a)
    }
}

/// How far a trail has come: the number that its first `len` places write
/// in the base three with `a` digits, a place where a depth begins written
/// as 1 and any other as 2. Every step of the search makes this number
/// larger.
#[verifier::opaque]
pub open spec fn phi(levels: Seq<int>, len: int, a: int) -> int
    decreases len,
{
    if len <= 0 {
        0
    } else {
        phi(levels, len - 1, a) + (if levels.contains(len - 1) {
            1int
        } else {
            2int
        }) * pow3(a - len)
    }
}

/// The powers of three are positive and grow.
pub proof fn lemma_pow3(k: int)
    ensures
        pow3(k) >= 1,
        k >= 0 ==> pow3(k + 1) == 3 * pow3(k),
    decreases k,
{
    if k > 0 {
        lemma_pow3(k - 1);
    }
}

/// The caps grow with the number of variables.
pub proof fn lemma_cap(a: int, b: int)
    requires
        a <= b,
    ensures
        1 <= cap(a) <= cap(b),
        b >= 1 ==> cap(b) == cap(b - 1) + pow3(b),
    decreases b,
{
    if b > 0 {
        lemma_pow3(b);
        if a < b {
            lemma_cap(a, b - 1);
        } else {
            lemma_cap(a - 1, b - 1);
        }
    }
}

/// A trail of more places has come no less far, and the places between
/// write less than the place before them is worth.
pub proof fn lemma_phi_grows(levels: Seq<int>, from: int, to: int, a: int)
    requires
        0 <= from <= to <= a,
    ensures
        phi(levels, from, a) + (to - from) <= phi(levels, to, a),
        phi(levels, to, a) - phi(levels, from, a) <= pow3(a - from) - pow3(a - to),
    decreases to - from,
{
    reveal(phi);
    if from < to {
        lemma_phi_grows(levels, from, to - 1, a);
        lemma_pow3(a - to);
    }
}

/// Two lists of beginnings that agree below `len` write the same number
/// there.
pub proof fn lemma_phi_same(one: Seq<int>, other: Seq<int>, len: int, a: int)
    requires
        forall|j: int| 0 <= j < len ==> one.contains(j) == other.contains(j),
    ensures
        phi(one, len, a) == phi(other, len, a),
    decreases len,
{
    reveal(phi);
    if len > 0 {
        lemma_phi_same(one, other, len - 1, a);
    }
}

/// Nothing has come far before the first place.
pub proof fn lemma_phi_empty(levels: Seq<int>, a: int)
    ensures
        phi(levels, 0, a) == 0,
{
    reveal(phi);
}

/// A decision takes the trail further.
pub proof fn lemma_phi_decided(levels: Seq<int>, len: int, a: int)
    requires
        0 <= len < a,
        forall|d: int| 0 <= d < levels.len() ==> 0 <= #[trigger] levels[d] < len,
    ensures
        phi(levels.push(len), len + 1, a) >= phi(levels, len, a) + 1,
{
    reveal(phi);
    let more = levels.push(len);
    assert forall|j: int| 0 <= j < len implies levels.contains(j) == more.contains(j) by {
        if levels.contains(j) {
            let d = choose|d: int| 0 <= d < levels.len() && levels[d] == j;
            assert(more[d] == j);
        }
        if more.contains(j) {
            let d = choose|d: int| 0 <= d < more.len() && more[d] == j;
            assert(d < levels.len());
            assert(levels[d] == j);
        }
    }
    lemma_phi_same(levels, more, len, a);
    lemma_pow3(a - len - 1);
    assert(more[levels.len() as int] == len);
}

/// A jump back to the depth `back`, with the literal that the learned
/// clause asserts put where the next depth began, takes the trail further
/// than it had come.
pub proof fn lemma_phi_jumped(levels: Seq<int>, len: int, a: int, back: int)
    requires
        0 <= len <= a,
        0 <= back < levels.len(),
        forall|d: int| 0 <= d < levels.len() ==> 0 <= #[trigger] levels[d] < len,
        forall|d: int, e: int| 0 <= d < e < levels.len() ==> levels[d] < levels[e],
    ensures
        phi(levels.take(back), levels[back] + 1, a) >= phi(levels, len, a) + 1,
{
    reveal(phi);
    let p = levels[back];
    let fewer = levels.take(back);
    assert forall|j: int| 0 <= j < p implies levels.contains(j) == fewer.contains(j) by {
        if levels.contains(j) {
            let d = choose|d: int| 0 <= d < levels.len() && levels[d] == j;
            if d >= back {
                if d > back {
                    assert(levels[back] < levels[d]);
                }
            }
            assert(fewer[d] == j);
        }
        if fewer.contains(j) {
            let d = choose|d: int| 0 <= d < fewer.len() && fewer[d] == j;
            assert(levels[d] == j);
        }
    }
    lemma_phi_same(levels, fewer, p, a);
    assert(!fewer.contains(p)) by {
        if fewer.contains(p) {
            let d = choose|d: int| 0 <= d < fewer.len() && fewer[d] == p;
            assert(levels[d] < levels[back]);
        }
    }
    assert(levels.contains(p));
    lemma_phi_grows(levels, p + 1, len, a);
    lemma_pow3(a - len);
    lemma_pow3(a - p - 1);
}

/// A search over fewer open variables, begun anew, has less room left than
/// any search over more had.
pub proof fn lemma_room_reset(levels: Seq<int>, len: int, a: int, fewer: int)
    requires
        0 <= len <= a,
        0 <= fewer < a,
    ensures
        cap(fewer) + 1 <= cap(a) - phi(levels, len, a),
{
    lemma_phi_empty(levels, a);
    lemma_phi_grows(levels, 0, len, a);
    lemma_pow3(a - len);
    lemma_cap(fewer, a - 1);
    lemma_cap(a, a);
}

/// There is always room for one conflict more than were met.
pub proof fn lemma_room_positive(levels: Seq<int>, len: int, a: int)
    requires
        0 <= len <= a,
    ensures
        1 <= cap(a) - phi(levels, len, a) <= cap(a),
{
    lemma_phi_empty(levels, a);
    lemma_phi_grows(levels, 0, len, a);
    lemma_pow3(a - len);
    lemma_cap(a, a);
    if a >= 1 {
        lemma_cap(a - 1, a - 1);
    } else {
        assert(pow3(0) == 1);
    }
}

/// The most open variables for which the search is sure of an answer.
pub const SURE: usize = 22;

/// The cap of `SURE` variables.
pub const SURE_CAP: u64 = 47_071_589_413;

/// Twenty-two open variables leave room for 47071589413 conflicts between
/// two fresh starts.
pub proof fn lemma_cap_sure(a: int)
    requires
        a <= SURE,
    ensures
        cap(a) <= SURE_CAP,
{
    lemma_cap(a, 22);
    assert(pow3(0) == 1);
    assert(pow3(1) == 3);
    assert(pow3(2) == 9);
    assert(pow3(3) == 27);
    assert(pow3(4) == 81);
    assert(pow3(5) == 243);
    assert(pow3(6) == 729);
    assert(pow3(7) == 2187);
    assert(pow3(8) == 6561);
    assert(pow3(9) == 19683);
    assert(pow3(10) == 59049);
    assert(pow3(11) == 177147);
    assert(pow3(12) == 531441);
    assert(pow3(13) == 1594323);
    assert(pow3(14) == 4782969);
    assert(pow3(15) == 14348907);
    assert(pow3(16) == 43046721);
    assert(pow3(17) == 129140163);
    assert(pow3(18) == 387420489);
    assert(pow3(19) == 1162261467);
    assert(pow3(20) == 3486784401);
    assert(pow3(21) == 10460353203);
    assert(pow3(22) == 31381059609);
    assert(cap(0) == 1);
    assert(cap(1) == 4);
    assert(cap(2) == 13);
    assert(cap(3) == 40);
    assert(cap(4) == 121);
    assert(cap(5) == 364);
    assert(cap(6) == 1093);
    assert(cap(7) == 3280);
    assert(cap(8) == 9841);
    assert(cap(9) == 29524);
    assert(cap(10) == 88573);
    assert(cap(11) == 265720);
    assert(cap(12) == 797161);
    assert(cap(13) == 2391484);
    assert(cap(14) == 7174453);
    assert(cap(15) == 21523360);
    assert(cap(16) == 64570081);
    assert(cap(17) == 193710244);
    assert(cap(18) == 581130733);
    assert(cap(19) == 1743392200);
    assert(cap(20) == 5230176601);
    assert(cap(21) == 15690529804);
    assert(cap(22) == 47071589413);
}

} // verus!
