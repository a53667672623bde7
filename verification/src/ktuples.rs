//! Choosing `k` elements of a list, in order.
use vstd::prelude::*;

verus! {

/// The `k`-element subsequences of `rest`, each preceded by `head`, in
/// lexicographic order of the chosen positions. For `k == 0` there are none.
pub open spec fn ktuples_from<T>(head: Seq<T>, rest: Seq<T>, k: nat) -> Seq<Seq<T>>
    decreases rest.len(), k,
{
    if k == 0 || rest.len() == 0 {
        Seq::empty()
    } else if k == 1 {
        seq![head.push(rest[0])] + ktuples_from(head, rest.drop_first(), 1)
    } else {
        ktuples_from(head.push(rest[0]), rest.drop_first(), (k - 1) as nat) + ktuples_from(
            head,
            rest.drop_first(),
            k,
        )
    }
}

/// The `k`-element subsequences of `s`, in lexicographic order of positions.
pub open spec fn ktuples<T>(s: Seq<T>, k: nat) -> Seq<Seq<T>> {
    ktuples_from(Seq::empty(), s, k)
}

/// The binomial coefficient.
pub open spec fn binomial(n: nat, k: nat) -> nat
    decreases n, k,
{
    if k == 0 {
        1
    } else if n == 0 {
        0
    } else {
        binomial((n - 1) as nat, (k - 1) as nat) + binomial((n - 1) as nat, k)
    }
}

/// There are `binomial(n, k)` of the `k`-element subsequences of a list of length `n`
/// (for `k >= 1`), each of length `head.len() + k`.
pub proof fn lemma_ktuples_count<T>(head: Seq<T>, rest: Seq<T>, k: nat)
    requires
        k >= 1,
    ensures
        ktuples_from(head, rest, k).len() == binomial(rest.len(), k),
        forall|i: int|
            0 <= i < ktuples_from(head, rest, k).len() ==> #[trigger] ktuples_from(
                head,
                rest,
                k,
            )[i].len() == head.len() + k,
    decreases rest.len(), k,
{
    if rest.len() == 0 {
    } else if k == 1 {
        lemma_ktuples_count(head, rest.drop_first(), 1);
        assert(binomial((rest.len() - 1) as nat, 0) == 1);
        let r = ktuples_from(head, rest, k);
        let t = ktuples_from(head, rest.drop_first(), 1);
        assert forall|i: int| 0 <= i < r.len() implies #[trigger] r[i].len() == head.len() + k by {
            if i > 0 {
                assert(r[i] == t[i - 1]);
            }
        }
    } else {
        lemma_ktuples_count(head.push(rest[0]), rest.drop_first(), (k - 1) as nat);
        lemma_ktuples_count(head, rest.drop_first(), k);
        let a = ktuples_from(head.push(rest[0]), rest.drop_first(), (k - 1) as nat);
        let b = ktuples_from(head, rest.drop_first(), k);
        let r = ktuples_from(head, rest, k);
        assert forall|i: int| 0 <= i < r.len() implies #[trigger] r[i].len() == head.len() + k by {
            if i < a.len() {
                assert(r[i] == a[i]);
            } else {
                assert(r[i] == b[i - a.len()]);
            }
        }
    }
}

/// A copy of `head` followed by `x`.
fn extended<T: Copy>(head: &Vec<T>, x: T) -> (v: Vec<T>)
    ensures
        v@ == head@.push(x),
{
    let mut v: Vec<T> = Vec::new();
    let mut i: usize = 0;
    while i < head.len()
        invariant
            i <= head@.len(),
            v@ =~= head@.take(i as int),
        decreases head@.len() - i,
    {
        v.push(head[i]);
        i = i + 1;
    }
    v.push(x);
    assert(head@.take(head@.len() as int) =~= head@);
    v
}

proof fn lemma_ktuples_unroll<T>(head: Seq<T>, arr: Seq<T>, j: int, k: nat)
    requires
        0 <= j < arr.len(),
        k >= 1,
    ensures
        ktuples_from(head, arr.skip(j), k) == (if k == 1 {
            seq![head.push(arr[j])]
        } else {
            ktuples_from(head.push(arr[j]), arr.skip(j + 1), (k - 1) as nat)
        }) + ktuples_from(head, arr.skip(j + 1), k),
{
    assert(arr.skip(j).drop_first() =~= arr.skip(j + 1));
    assert(arr.skip(j)[0] == arr[j]);
}

fn get_ktuples_iter<T: Copy>(k: usize, ktuples: &mut Vec<Vec<T>>, head: Vec<T>, arr: &[T], start: usize)
    requires
        start <= arr@.len(),
    ensures
        final(ktuples)@.map_values(|v: Vec<T>| v@) == old(ktuples)@.map_values(|v: Vec<T>| v@)
            + ktuples_from(head@, arr@.skip(start as int), k as nat),
    decreases k, arr@.len() - start,
{
    let ghost orig = ktuples@.map_values(|v: Vec<T>| v@);
    if k == 0 {
        assert(ktuples@.map_values(|v: Vec<T>| v@) =~= orig + ktuples_from(head@, arr@.skip(start as int), k as nat));
        return ;
    }
    let mut j: usize = start;
    assert(arr@.skip(start as int) == arr@.skip(j as int));
    while j < arr.len()
        invariant
            k >= 1,
            start <= j <= arr@.len(),
            ktuples@.map_values(|v: Vec<T>| v@) + ktuples_from(head@, arr@.skip(j as int), k as nat)
                == orig + ktuples_from(head@, arr@.skip(start as int), k as nat),
        decreases arr@.len() - j,
    {
        let v = extended(&head, arr[j]);
        proof {
            lemma_ktuples_unroll(head@, arr@, j as int, k as nat);
        }
        let ghost before = ktuples@.map_values(|v: Vec<T>| v@);
        if k == 1 {
            ktuples.push(v);
            assert(ktuples@.map_values(|v: Vec<T>| v@) =~= before.push(head@.push(arr@[j as int])));
            assert(before.push(head@.push(arr@[j as int])) + ktuples_from(head@, arr@.skip(j + 1), 1)
                =~= before + (seq![head@.push(arr@[j as int])] + ktuples_from(head@, arr@.skip(j + 1), 1)));
        } else {
            get_ktuples_iter(k - 1, ktuples, v, arr, j + 1);
            let ghost mid = ktuples_from(head@.push(arr@[j as int]), arr@.skip(j + 1), (k - 1) as nat);
            assert(before + mid + ktuples_from(head@, arr@.skip(j + 1), k as nat) =~= before + (mid
                + ktuples_from(head@, arr@.skip(j + 1), k as nat)));
        }
        j = j + 1;
    }
    assert(ktuples_from(head@, arr@.skip(j as int), k as nat) =~= Seq::<Seq<T>>::empty());
    assert(ktuples@.map_values(|v: Vec<T>| v@) + Seq::<Seq<T>>::empty() =~= ktuples@.map_values(|v: Vec<T>| v@));
}

/// Get all `k`-tuples of the given array: the `k`-element subsequences, in
/// lexicographic order of positions.
pub fn get_ktuples<T: Copy>(arr: &[T], k: usize) -> (res: Vec<Vec<T>>)
    ensures
        res@.map_values(|v: Vec<T>| v@) == ktuples(arr@, k as nat),
{
    let mut res: Vec<Vec<T>> = Vec::new();
    assert(arr@.skip(0) =~= arr@);
    get_ktuples_iter(k, &mut res, Vec::new(), arr, 0);
    assert(res@.map_values(|v: Vec<T>| v@) =~= Seq::<Seq<T>>::empty() + ktuples(arr@, k as nat));
    res
}


/// A strictly increasing sequence of vertices.
pub open spec fn increasing_u8(s: Seq<u8>) -> bool {
    forall|a: int, b: int| 0 <= a < b < s.len() ==> s[a] < s[b]
}

/// When `head` followed by `rest` is strictly increasing, so is every tuple, and
/// each of its elements after `head` is taken from `rest`.
pub proof fn lemma_ktuples_increasing(head: Seq<u8>, rest: Seq<u8>, k: nat)
    requires
        increasing_u8(head + rest),
    ensures
        forall|i: int|
            0 <= i < ktuples_from(head, rest, k).len() ==> increasing_u8(
                #[trigger] ktuples_from(head, rest, k)[i],
            ),
        forall|i: int, j: int|
            0 <= i < ktuples_from(head, rest, k).len() && 0 <= j < ktuples_from(head, rest, k)[i].len()
                ==> (head + rest).contains(#[trigger] ktuples_from(head, rest, k)[i][j]),
    decreases rest.len(), k,
{
    let r = ktuples_from(head, rest, k);
    if k == 0 || rest.len() == 0 {
    } else {
        assert(head.push(rest[0]) + rest.drop_first() =~= head + rest);
        assert(increasing_u8(head + rest.drop_first())) by {
            assert forall|a: int, b: int| 0 <= a < b < (head + rest.drop_first()).len() implies (head
                + rest.drop_first())[a] < (head + rest.drop_first())[b] by {
                let s = head + rest;
                let a2 = if a < head.len() { a } else { a + 1 };
                let b2 = if b < head.len() { b } else { b + 1 };
                assert((head + rest.drop_first())[a] == s[a2]);
                assert((head + rest.drop_first())[b] == s[b2]);
            }
        }
        assert forall|x: u8| (head + rest.drop_first()).contains(x) implies (head + rest).contains(x) by {
            let i = choose|i: int| 0 <= i < (head + rest.drop_first()).len() && (head + rest.drop_first())[i] == x;
            if i < head.len() {
                assert((head + rest)[i] == x);
            } else {
                assert((head + rest)[i + 1] == x);
            }
        }
        if k == 1 {
            lemma_ktuples_increasing(head, rest.drop_first(), 1);
            let t = ktuples_from(head, rest.drop_first(), 1);
            let first = head.push(rest[0]);
            assert(increasing_u8(first)) by {
                assert forall|a: int, b: int| 0 <= a < b < first.len() implies first[a] < first[b] by {
                    assert(first[a] == (head + rest)[a]);
                    assert(first[b] == (head + rest)[b]);
                }
            }
            assert forall|i: int| 0 <= i < r.len() implies increasing_u8(#[trigger] r[i]) by {
                if i > 0 {
                    assert(r[i] == t[i - 1]);
                }
            }
            assert forall|i: int, j: int| 0 <= i < r.len() && 0 <= j < r[i].len() implies (head
                + rest).contains(#[trigger] r[i][j]) by {
                if i > 0 {
                    assert(r[i] == t[i - 1]);
                    assert((head + rest.drop_first()).contains(t[i - 1][j]));
                } else {
                    assert(first[j] == (head + rest)[j]);
                }
            }
        } else {
            lemma_ktuples_increasing(head.push(rest[0]), rest.drop_first(), (k - 1) as nat);
            lemma_ktuples_increasing(head, rest.drop_first(), k);
            let a = ktuples_from(head.push(rest[0]), rest.drop_first(), (k - 1) as nat);
            let b = ktuples_from(head, rest.drop_first(), k);
            assert forall|i: int| 0 <= i < r.len() implies increasing_u8(#[trigger] r[i]) by {
                if i < a.len() {
                    assert(r[i] == a[i]);
                } else {
                    assert(r[i] == b[i - a.len()]);
                }
            }
            assert forall|i: int, j: int| 0 <= i < r.len() && 0 <= j < r[i].len() implies (head
                + rest).contains(#[trigger] r[i][j]) by {
                if i < a.len() {
                    assert(r[i] == a[i]);
                    assert((head.push(rest[0]) + rest.drop_first()).contains(a[i][j]));
                } else {
                    assert(r[i] == b[i - a.len()]);
                    assert((head + rest.drop_first()).contains(b[i - a.len()][j]));
                }
            }
        }
    }
}

} // verus!
