use vstd::prelude::*;

verus! {

/// A sort key: two integer components, then the row's position as the tie
/// breaker.
pub type SortKey = (u64, i64, usize);

/// Strict lexicographic order on sort keys.
pub open spec fn key_lt(a: SortKey, b: SortKey) -> bool {
    a.0 < b.0 || (a.0 == b.0 && (a.1 < b.1 || (a.1 == b.1 && a.2 < b.2)))
}

/// Strictly ascending.
pub open spec fn ascending(s: Seq<SortKey>) -> bool {
    forall|a: int, b: int| 0 <= a < b < s.len() ==> key_lt(#[trigger] s[a], #[trigger] s[b])
}

fn key_less(a: SortKey, b: SortKey) -> (r: bool)
    ensures
        r == key_lt(a, b),
{
    a.0 < b.0 || (a.0 == b.0 && (a.1 < b.1 || (a.1 == b.1 && a.2 < b.2)))
}

/// Sorts keys whose last components are distinct.
pub fn sort_keys(keys: &Vec<SortKey>) -> (r: Vec<SortKey>)
    requires
        forall|a: int, b: int|
            0 <= a < b < keys@.len() ==> (#[trigger] keys@[a]).2 != (#[trigger] keys@[b]).2,
    ensures
        ascending(r@),
        r@.len() == keys@.len(),
        forall|x: SortKey| r@.contains(x) <==> keys@.contains(x),
{
    let mut out: Vec<SortKey> = Vec::new();
    let mut i: usize = 0;
    while i < keys.len()
        invariant
            i <= keys@.len(),
            forall|a: int, b: int|
                0 <= a < b < keys@.len() ==> (#[trigger] keys@[a]).2 != (#[trigger] keys@[b]).2,
            ascending(out@),
            out@.len() == i,
            forall|x: SortKey| out@.contains(x) <==> keys@.subrange(0, i as int).contains(x),
        decreases keys@.len() - i,
    {
        let x = keys[i];
        let mut p: usize = 0;
        while p < out.len() && key_less(out[p], x)
            invariant
                p <= out@.len(),
                forall|q: int| 0 <= q < p ==> key_lt(#[trigger] out@[q], x),
            decreases out@.len() - p,
        {
            p = p + 1;
        }
        let ghost before = out@;
        proof {
            assert forall|q: int| 0 <= q < before.len() implies (#[trigger] before[q]).2 != x.2 by {
                assert(before.contains(before[q]));
                assert(keys@.subrange(0, i as int).contains(before[q]));
                let m = choose|m: int| 0 <= m < i && keys@.subrange(0, i as int)[m] == before[q];
                assert(keys@[m] == before[q]);
            }
        }
        out.insert(p, x);
        proof {
            let now = out@;
            assert(now =~= before.insert(p as int, x));
            assert forall|a: int, b: int| 0 <= a < b < now.len() implies key_lt(#[trigger] now[a], #[trigger] now[b]) by {
                if b < p {
                    assert(now[a] == before[a] && now[b] == before[b]);
                } else if b == p {
                    assert(now[a] == before[a]);
                } else if a == p {
                    assert(now[b] == before[b - 1]);
                    if p < before.len() {
                        assert(!key_lt(before[p as int], x));
                        assert(before[p as int].2 != x.2);
                        if b - 1 > p {
                            assert(key_lt(before[p as int], before[b - 1]));
                        }
                    }
                } else if a < p {
                    assert(now[a] == before[a] && now[b] == before[b - 1]);
                    if p < before.len() {
                        assert(!key_lt(before[p as int], x));
                        assert(before[p as int].2 != x.2);
                    }
                } else {
                    assert(now[a] == before[a - 1] && now[b] == before[b - 1]);
                }
            }
            let sub = keys@.subrange(0, i as int + 1);
            assert forall|y: SortKey| now.contains(y) <==> sub.contains(y) by {
                if now.contains(y) {
                    let j = choose|j: int| 0 <= j < now.len() && now[j] == y;
                    if j == p {
                        assert(sub[i as int] == y);
                    } else {
                        let j0 = if j < p { j } else { j - 1 };
                        assert(before[j0] == y);
                        assert(before.contains(y));
                        assert(keys@.subrange(0, i as int).contains(y));
                        let m = choose|m: int| 0 <= m < i && keys@.subrange(0, i as int)[m] == y;
                        assert(sub[m] == y);
                    }
                }
                if sub.contains(y) {
                    let m = choose|m: int| 0 <= m <= i && sub[m] == y;
                    if m == i {
                        assert(now[p as int] == y);
                    } else {
                        assert(keys@.subrange(0, i as int)[m] == y);
                        assert(before.contains(y));
                        let j = choose|j: int| 0 <= j < before.len() && before[j] == y;
                        if j < p {
                            assert(now[j] == y);
                        } else {
                            assert(now[j + 1] == y);
                        }
                    }
                }
            }
        }
        i = i + 1;
    }
    proof {
        assert(keys@.subrange(0, keys@.len() as int) =~= keys@);
    }
    out
}

} // verus!
