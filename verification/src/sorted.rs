//! Strictly increasing lists of member indices (the skippable fields of a struct).

use vstd::prelude::*;

verus! {

/// Whether `s` is strictly increasing.
pub open spec fn strictly_sorted(s: Seq<u32>) -> bool {
    forall|i: int, j: int| 0 <= i < j < s.len() ==> s[i] < s[j]
}

/// Inserts `x` into the strictly increasing `v`, unless it is already there.
pub fn insert_sorted(v: &mut Vec<u32>, x: u32)
    requires
        strictly_sorted(old(v)@),
    ensures
        strictly_sorted(final(v)@),
        forall|y: u32| #[trigger] final(v)@.contains(y) <==> (old(v)@.contains(y) || y == x),
        old(v)@.contains(x) ==> final(v)@ == old(v)@,
{
    let mut pos: usize = 0;
    while pos < v.len() && v[pos] < x
        invariant
            0 <= pos <= v@.len(),
            v@ == old(v)@,
            forall|i: int| 0 <= i < pos ==> v@[i] < x,
        decreases v@.len() - pos,
    {
        pos += 1;
    }
    if pos < v.len() && v[pos] == x {
        return;
    }
    proof {
        assert forall|i: int| pos <= i < v@.len() implies v@[i] > x by {
            assert(v@[pos as int] >= x);
        }
        if v@.contains(x) {
            let k = choose|k: int| 0 <= k < v@.len() && v@[k] == x;
            assert(false);
        }
    }
    v.insert(pos, x);
    proof {
        assert forall|y: u32| v@.contains(y) <==> (old(v)@.contains(y) || y == x) by {
            if v@.contains(y) {
                let k = choose|k: int| 0 <= k < v@.len() && v@[k] == y;
                if k < pos {
                    assert(old(v)@[k] == y);
                } else if k > pos {
                    assert(old(v)@[k - 1] == y);
                }
            }
            if old(v)@.contains(y) {
                let k = choose|k: int| 0 <= k < old(v)@.len() && old(v)@[k] == y;
                if k < pos {
                    assert(v@[k] == y);
                } else {
                    assert(v@[k + 1] == y);
                }
            }
            if y == x {
                assert(v@[pos as int] == x);
            }
        }
    }
}

/// The strictly increasing list of the indices in `left` or `right`: what appending `right`
/// to `left`, sorting and removing duplicates gives.
pub fn sorted_union(left: &mut Vec<u32>, right: Vec<u32>)
    ensures
        strictly_sorted(final(left)@),
        forall|y: u32| #[trigger] final(left)@.contains(y) <==> (old(left)@.contains(y) || right@.contains(y)),
        strictly_sorted(old(left)@) && right@ == old(left)@ ==> final(left)@ == old(left)@,
{
    let ghost before = left@;
    let mut result: Vec<u32> = Vec::new();
    let mut i: usize = 0;
    while i < left.len()
        invariant
            0 <= i <= left@.len(),
            left@ == old(left)@,
            strictly_sorted(result@),
            forall|y: u32| result@.contains(y) <==> exists|k: int| 0 <= k < i && left@[k] == y,
        decreases left@.len() - i,
    {
        insert_sorted(&mut result, left[i]);
        proof {
            assert forall|y: u32| result@.contains(y) <==> exists|k: int| 0 <= k < i + 1 && left@[k] == y by {
                if y == left@[i as int] {
                    assert(exists|k: int| 0 <= k < i + 1 && left@[k] == y) by {
                        assert(left@[i as int] == y);
                    }
                }
            }
        }
        i += 1;
    }
    let mut j: usize = 0;
    while j < right.len()
        invariant
            0 <= j <= right@.len(),
            strictly_sorted(result@),
            forall|y: u32| result@.contains(y) <==> (old(left)@.contains(y) || exists|k: int| 0 <= k < j && right@[k] == y),
        decreases right@.len() - j,
    {
        insert_sorted(&mut result, right[j]);
        proof {
            assert forall|y: u32| result@.contains(y) <==> (old(left)@.contains(y) || exists|k: int| 0 <= k < j + 1 && right@[k] == y) by {
                if y == right@[j as int] {
                    assert(exists|k: int| 0 <= k < j + 1 && right@[k] == y) by {
                        assert(right@[j as int] == y);
                    }
                }
            }
        }
        j += 1;
    }
    *left = result;
    proof {
        if strictly_sorted(before) && right@ == before {
            lemma_sorted_unique(left@, before);
        }
    }
}

/// Two strictly increasing lists with the same entries are the same list.
pub proof fn lemma_sorted_unique(a: Seq<u32>, b: Seq<u32>)
    requires
        strictly_sorted(a),
        strictly_sorted(b),
        forall|y: u32| #[trigger] a.contains(y) <==> b.contains(y),
    ensures
        a == b,
    decreases a.len(),
{
    if a.len() == 0 {
        if b.len() > 0 {
            assert(b.contains(b[0]));
            assert(!a.contains(b[0]));
        }
        assert(a =~= b);
    } else {
        assert(a.contains(a[0]));
        if b.len() == 0 {
            assert(!b.contains(a[0]));
        }
        assert(b.contains(b[0]));
        assert(b.contains(a[0]));
        assert(a.contains(b[0]));
        let ja = choose|j: int| 0 <= j < b.len() && b[j] == a[0];
        let jb = choose|j: int| 0 <= j < a.len() && a[j] == b[0];
        assert(b[0] <= a[0]) by {
            if ja > 0 { assert(b[0] < b[ja]); }
        }
        assert(a[0] <= b[0]) by {
            if jb > 0 { assert(a[0] < a[jb]); }
        }
        let ra = a.drop_first();
        let rb = b.drop_first();
        assert forall|y: u32| #[trigger] ra.contains(y) <==> rb.contains(y) by {
            if ra.contains(y) {
                let k = choose|k: int| 0 <= k < ra.len() && ra[k] == y;
                assert(a[k + 1] == y);
                assert(a[0] < a[k + 1]);
                assert(a.contains(y));
                assert(b.contains(y));
                let m = choose|m: int| 0 <= m < b.len() && b[m] == y;
                assert(m != 0);
                assert(rb[m - 1] == y);
            }
            if rb.contains(y) {
                let k = choose|k: int| 0 <= k < rb.len() && rb[k] == y;
                assert(b[k + 1] == y);
                assert(b[0] < b[k + 1]);
                assert(b.contains(y));
                assert(a.contains(y));
                let m = choose|m: int| 0 <= m < a.len() && a[m] == y;
                assert(m != 0);
                assert(ra[m - 1] == y);
            }
        }
        lemma_sorted_unique(ra, rb);
        assert(a =~= seq![a[0]] + ra);
        assert(b =~= seq![b[0]] + rb);
    }
}

} // verus!
