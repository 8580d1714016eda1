use vstd::prelude::*;
use vstd::set_lib::{lemma_int_range, lemma_len_subset, set_int_range};

verus! {

/// The ids whose flag is set in a membership bitmap.
pub open spec fn bits_set(bits: Seq<bool>) -> Set<usize> {
    Set::new(|q: usize| q < bits.len() && bits[q as int])
}

/// Number of set flags.
pub open spec fn count_true(bits: Seq<bool>) -> nat
    decreases bits.len(),
{
    if bits.len() == 0 {
        0
    } else {
        count_true(bits.drop_last()) + if bits.last() {
            1nat
        } else {
            0nat
        }
    }
}

pub proof fn lemma_count_true_le(bits: Seq<bool>)
    ensures
        count_true(bits) <= bits.len(),
    decreases bits.len(),
{
    if bits.len() > 0 {
        lemma_count_true_le(bits.drop_last());
    }
}

pub proof fn lemma_count_true_set(bits: Seq<bool>, i: int)
    requires
        0 <= i < bits.len(),
        !bits[i],
    ensures
        count_true(bits.update(i, true)) == count_true(bits) + 1,
    decreases bits.len(),
{
    let u = bits.update(i, true);
    if i == bits.len() - 1 {
        assert(u.drop_last() =~= bits.drop_last());
    } else {
        assert(u.drop_last() =~= bits.drop_last().update(i, true));
        lemma_count_true_set(bits.drop_last(), i);
    }
}

/// A bitmap of `n` cleared flags.
pub fn cleared(n: usize) -> (r: Vec<bool>)
    ensures
        r@.len() == n,
        forall|i: int| 0 <= i < n ==> !r@[i],
{
    let mut r: Vec<bool> = Vec::new();
    let mut i: usize = 0;
    while i < n
        invariant
            i <= n,
            r@.len() == i,
            forall|j: int| 0 <= j < i ==> !r@[j],
        decreases n - i,
    {
        r.push(false);
        i = i + 1;
    }
    r
}

/// Whether any flag is set.
pub fn any_set(bits: &Vec<bool>) -> (r: bool)
    ensures
        r == exists|i: int| 0 <= i < bits@.len() && bits@[i],
{
    let mut i: usize = 0;
    while i < bits.len()
        invariant
            i <= bits@.len(),
            forall|j: int| 0 <= j < i ==> !bits@[j],
        decreases bits@.len() - i,
    {
        if bits[i] {
            return true;
        }
        i = i + 1;
    }
    false
}

/// The set flags as a strictly increasing list of ids.
pub fn set_ids(bits: &Vec<bool>) -> (r: Vec<usize>)
    ensures
        r@.to_set() == bits_set(bits@),
        forall|i: int, j: int| 0 <= i < j < r@.len() ==> r@[i] < r@[j],
{
    let mut r: Vec<usize> = Vec::new();
    let mut i: usize = 0;
    while i < bits.len()
        invariant
            i <= bits@.len(),
            forall|q: usize| r@.contains(q) <==> (q < i && bits@[q as int]),
            forall|a: int, b: int| 0 <= a < b < r@.len() ==> r@[a] < r@[b],
            forall|a: int| 0 <= a < r@.len() ==> r@[a] < i,
        decreases bits@.len() - i,
    {
        let ghost old_r = r@;
        if bits[i] {
            r.push(i);
            assert forall|q: usize| r@.contains(q) <==> (old_r.contains(q) || q == i) by {
                if q == i {
                    assert(r@[r@.len() - 1] == i);
                } else if old_r.contains(q) {
                    let k = choose|k: int| 0 <= k < old_r.len() && old_r[k] == q;
                    assert(r@[k] == q);
                }
            }
        }
        i = i + 1;
    }
    assert(r@.to_set() =~= bits_set(bits@));
    r
}

/// Whether two bitmaps are equal.
pub fn same_bits(a: &Vec<bool>, b: &Vec<bool>) -> (r: bool)
    ensures
        r == (a@ == b@),
{
    if a.len() != b.len() {
        return false;
    }
    let mut i: usize = 0;
    while i < a.len()
        invariant
            a@.len() == b@.len(),
            i <= a@.len(),
            forall|j: int| 0 <= j < i ==> a@[j] == b@[j],
        decreases a@.len() - i,
    {
        if a[i] != b[i] {
            return false;
        }
        i = i + 1;
    }
    assert(a@ =~= b@);
    true
}


/// Two to the power `n`.
pub open spec fn two_pow(n: nat) -> nat
    decreases n,
{
    if n == 0 {
        1
    } else {
        2 * two_pow((n - 1) as nat)
    }
}

/// The bitmap read as a binary number, first flag lowest.
pub open spec fn bits_code(b: Seq<bool>) -> nat
    decreases b.len(),
{
    if b.len() == 0 {
        0
    } else {
        (if b[0] {
            1nat
        } else {
            0nat
        }) + 2 * bits_code(b.drop_first())
    }
}

pub proof fn lemma_code_bound(b: Seq<bool>)
    ensures
        bits_code(b) < two_pow(b.len()),
    decreases b.len(),
{
    if b.len() > 0 {
        lemma_code_bound(b.drop_first());
    }
}

pub proof fn lemma_code_injective(a: Seq<bool>, b: Seq<bool>)
    requires
        a.len() == b.len(),
        bits_code(a) == bits_code(b),
    ensures
        a == b,
    decreases a.len(),
{
    if a.len() > 0 {
        assert(a[0] == b[0]);
        lemma_code_injective(a.drop_first(), b.drop_first());
        assert(a =~= seq![a[0]] + a.drop_first());
        assert(b =~= seq![b[0]] + b.drop_first());
    } else {
        assert(a =~= b);
    }
}

/// Pairwise distinct bitmaps of length `n` number at most two to the `n`.
pub proof fn lemma_distinct_bitmaps_bound(s: Seq<Vec<bool>>, n: nat)
    requires
        forall|i: int| 0 <= i < s.len() ==> (#[trigger] s[i])@.len() == n,
        forall|i: int, j: int| 0 <= i < j < s.len() ==> (#[trigger] s[i])@ != (#[trigger] s[j])@,
    ensures
        s.len() <= two_pow(n),
{
    let codes = s.map_values(|v: Vec<bool>| bits_code(v@) as int);
    assert forall|i: int, j: int| 0 <= i < codes.len() && 0 <= j < codes.len() && i != j implies codes[i] != codes[j] by {
        if codes[i] == codes[j] {
            lemma_code_injective(s[i]@, s[j]@);
            if i < j {
                assert(s[i]@ != s[j]@);
            } else {
                assert(s[j]@ != s[i]@);
            }
        }
    }
    assert(codes.no_duplicates());
    codes.unique_seq_to_set();
    assert forall|x: int| codes.to_set().contains(x) implies set_int_range(0, two_pow(n) as int).contains(x) by {
        let i = choose|i: int| 0 <= i < codes.len() && codes[i] == x;
        lemma_code_bound(s[i]@);
    }
    lemma_int_range(0, two_pow(n) as int);
    lemma_len_subset(codes.to_set(), set_int_range(0, two_pow(n) as int));
}

} // verus!
